//! The tokenizer: reads template characters and produces tokens.
use vstd::prelude::*;
use crate::text::{
    is_ws, trim, trim_start, trim_end, first_ws, split_name,
    strings_view, chars_of, string_of, string_of_range, extend_chars, trimmed, find_ws,
    find_non_ws, rfind_nl_or_non_ws, split_name_range, };
use crate::token::{
    Token, TokenModel, TokenClass, ParserState, ParseError, token_view,
    tokens_view, is_open, sources_of, lemma_tokens_view_len, lemma_tokens_view_index,
    lemma_tokens_view_push, lemma_tokens_view_take, lemma_tokens_view_skip,
};
use crate::parser_spec::{
    PState, state_wf, next_char, after_next, spec_bump, spec_peek, spec_add_text, classify_last,
    spec_classify, skip_newline, trim_last, apply_class, class_indent, spec_eat_whitespace,
    spec_check_content, last_open, close_section, push_token, spec_add_partial,
    spec_set_delimiters, etag_name, spec_add_tag, spec_step, spec_finish, measure, spec_run,
    lemma_step_decreases, spec_tokenize, lemma_classify_last_ws, lemma_last_open_none,
};

verus! {

broadcast use vstd::string::group_string_axioms;

/// The tokenizer over one template text.
pub struct Parser {
    input: Vec<char>,
    pos: usize,
    ch: Option<char>,
    lookahead: Option<char>,
    line: usize,
    col: usize,
    content: Vec<char>,
    state: ParserState,
    otag_chars: Vec<char>,
    ctag_chars: Vec<char>,
    tag_position: usize,
    tokens: Vec<Token>,
    partials: Vec<String>,
}

proof fn lemma_tokens_view_last(ts: Seq<Token>)
    requires
        ts.len() > 0,
    ensures
        tokens_view(ts).last() == token_view(ts.last()),
        tokens_view(ts).len() == ts.len(),
        tokens_view(ts.drop_last()) == tokens_view(ts).drop_last(),
{
    lemma_tokens_view_len(ts);
    lemma_tokens_view_len(ts.drop_last());
}

proof fn lemma_trim_start_first(s: Seq<char>)
    ensures
        trim_start(s).len() > 0 ==> !is_ws(trim_start(s)[0]),
        trim_start(s).len() <= s.len(),
    decreases s.len(),
{
    if s.len() > 0 && is_ws(s[0]) {
        lemma_trim_start_first(s.drop_first());
    }
}

proof fn lemma_trim_end_first(s: Seq<char>)
    ensures
        trim_end(s).len() > 0 ==> trim_end(s)[0] == s[0],
    decreases s.len(),
{
    if s.len() > 0 && is_ws(s.last()) {
        lemma_trim_end_first(s.drop_last());
    }
}

proof fn lemma_trim_first(s: Seq<char>)
    ensures
        trim(s).len() > 0 ==> !is_ws(trim(s)[0]),
{
    lemma_trim_start_first(s);
    lemma_trim_end_first(trim_start(s));
}

proof fn lemma_first_ws_bound(s: Seq<char>)
    ensures
        first_ws(s) matches Some(i) ==> 0 <= i < s.len() && is_ws(s[i]),
    decreases s.len(),
{
    if s.len() > 0 && !is_ws(s[0]) {
        lemma_first_ws_bound(s.drop_first());
    }
}

/// Whether two names are equal.
fn names_eq(a: &Vec<String>, b: &Vec<String>) -> (r: bool)
    ensures
        r == (strings_view(a@) == strings_view(b@)),
{
    if a.len() != b.len() {
        assert(strings_view(a@).len() != strings_view(b@).len());
        return false;
    }
    let mut i: usize = 0;
    while i < a.len()
        invariant
            i <= a.len() == b.len(),
            forall|k: int| 0 <= k < i ==> a@[k]@ == b@[k]@,
        decreases a.len() - i,
    {
        if a[i] != b[i] {
            assert(strings_view(a@)[i as int] != strings_view(b@)[i as int]);
            return false;
        }
        i += 1;
    }
    assert(strings_view(a@) =~= strings_view(b@));
    true
}

impl Parser {
    /// The state of the tokenizer that this parser stands for.
    pub closed spec fn model(&self) -> PState {
        PState {
            rest: self.input@.skip(self.pos as int),
            ch: self.ch,
            lookahead: self.lookahead,
            content: self.content@,
            state: self.state,
            otag: self.otag_chars@,
            ctag: self.ctag_chars@,
            tag_position: self.tag_position as nat,
            tokens: tokens_view(self.tokens@),
            partials: strings_view(self.partials@),
        }
    }

    /// The bounds that keep indices in range, whatever state the tokenizer
    /// is in.
    pub closed spec fn base_wf(&self) -> bool {
        &&& self.pos <= self.input.len()
        &&& (self.lookahead is Some ==> self.ch is Some)
    }

    /// The invariant of the parser.
    pub closed spec fn wf(&self) -> bool {
        &&& self.base_wf()
        &&& state_wf(self.model())
    }

    /// A parser that keeps its invariant keeps its bounds.
    pub proof fn lemma_wf_base(&self)
        requires
            self.wf(),
        ensures
            self.base_wf(),
    {
    }

    /// The line of the current character, counted from 1.
    pub closed spec fn line(&self) -> usize {
        self.line
    }

    /// The column of the current character, counted from 1.
    pub closed spec fn col(&self) -> usize {
        self.col
    }

    /// A parser at the start of `input`, with the delimiters `otag` and `ctag`.
    pub fn new(input: Vec<char>, otag: Vec<char>, ctag: Vec<char>) -> (p: Parser)
        ensures
            p.wf(),
            p.base_wf(),
            p.model() == crate::parser_spec::initial_state(input@, otag@, ctag@),
            p.line() == 1,
            p.col() == 1,
    {
        let p = Parser {
            input,
            pos: 0,
            ch: None,
            lookahead: None,
            line: 1,
            col: 1,
            content: Vec::new(),
            state: ParserState::TEXT,
            otag_chars: otag,
            ctag_chars: ctag,
            tag_position: 0,
            tokens: Vec::new(),
            partials: Vec::new(),
        };
        assert(p.input@.skip(0) =~= input@);
        assert(tokens_view(p.tokens@) =~= Seq::<TokenModel>::empty());
        assert(strings_view(p.partials@) =~= Seq::<Seq<char>>::empty());
        p
    }

    /// The tokens read so far.
    pub fn tokens(&self) -> (r: &Vec<Token>)
        ensures
            tokens_view(r@) == self.model().tokens,
    {
        &self.tokens
    }

    /// The names of the partials met so far.
    pub fn partials(&self) -> (r: &Vec<String>)
        ensures
            strings_view(r@) == self.model().partials,
    {
        &self.partials
    }

    /// Reads the next character of the input.
    fn next(&mut self) -> (r: Option<char>)
        requires
            old(self).base_wf(),
        ensures
            r == next_char(old(self).model().rest),
            final(self).model() == (PState { rest: after_next(old(self).model().rest), ..old(self).model() }),
            final(self).pos == old(self).pos + (if r is Some { 1int } else { 0int }),
            final(self).input == old(self).input,
            final(self).lookahead == old(self).lookahead,
            final(self).ch == old(self).ch,
            final(self).line == old(self).line,
            final(self).col == old(self).col,
            final(self).otag_chars == old(self).otag_chars,
            final(self).ctag_chars == old(self).ctag_chars,
    {
        if self.pos < self.input.len() {
            let c = self.input[self.pos];
            self.pos = self.pos + 1;
            assert(self.input@.skip(self.pos as int) =~= old(self).input@.skip(old(self).pos as int).drop_first());
            Some(c)
        } else {
            None
        }
    }

    /// Advances to the next character, counting lines and columns: a
    /// newline starts a new line at column 1, another character moves one
    /// column on, and the end of the input moves nothing.
    pub fn bump(&mut self)
        requires
            old(self).base_wf(),
        ensures
            final(self).base_wf(),
            old(self).wf() ==> final(self).wf(),
            final(self).model() == spec_bump(old(self).model()),
            final(self).line() == (if final(self).model().ch == Some('\n') {
                old(self).line().wrapping_add(1)
            } else {
                old(self).line()
            }),
            final(self).col() == (match final(self).model().ch {
                Some(c) => if c == '\n' {
                    1
                } else {
                    old(self).col().wrapping_add(1)
                },
                None => old(self).col(),
            }),
    {
        let la = self.lookahead;
        self.lookahead = None;
        match la {
            None => {
                let c = self.next();
                self.ch = c;
            },
            Some(c) => {
                self.ch = Some(c);
            },
        }
        match self.ch {
            Some(c) => {
                if c == '\n' {
                    self.line = self.line.wrapping_add(1);
                    self.col = 1;
                } else {
                    self.col = self.col.wrapping_add(1);
                }
            },
            None => {},
        }
    }

    /// The character after the current one, read ahead.
    fn peek(&mut self) -> (r: Option<char>)
        requires
            old(self).base_wf(),
            old(self).ch is Some,
        ensures
            final(self).base_wf(),
            (final(self).model(), r) == spec_peek(old(self).model()),
    {
        match self.lookahead {
            None => {
                let c = self.next();
                self.lookahead = c;
                c
            },
            Some(c) => Some(c),
        }
    }

    /// Whether the current character is `c`.
    fn ch_is(&self, c: char) -> (r: bool)
        ensures
            r == (self.model().ch == Some(c)),
    {
        match self.ch {
            Some(x) => x == c,
            None => false,
        }
    }

    /// Moves the gathered text into a text token.
    fn add_text(&mut self)
        requires
            old(self).base_wf(),
        ensures
            final(self).base_wf(),
            final(self).model() == spec_add_text(old(self).model()),
    {
        if self.content.len() != 0 {
            let text = string_of(&self.content);
            self.content = Vec::new();
            proof {
                lemma_tokens_view_push(self.tokens@, Token::Text(text));
            }
            self.tokens.push(Token::Text(text));
            assert(self.content@ =~= Seq::<char>::empty());
        }
    }

    /// How the last token leaves the line of the tag just read.
    fn classify_last(&self) -> (r: TokenClass)
        ensures
            r@ == classify_last(self.model().tokens),
    {
        let n = self.tokens.len();
        proof {
            lemma_tokens_view_len(self.tokens@);
        }
        if n == 0 {
            return TokenClass::StandAlone;
        }
        proof {
            lemma_tokens_view_last(self.tokens@);
        }
        match &self.tokens[n - 1] {
            Token::IncompleteSection(_, _, _, newlined) => {
                if *newlined {
                    TokenClass::StandAlone
                } else {
                    TokenClass::Normal
                }
            },
            Token::Text(s) => {
                let v = chars_of(s.as_str());
                if v.len() == 0 {
                    TokenClass::Normal
                } else {
                    match rfind_nl_or_non_ws(&v) {
                        None => {
                            if n == 1 {
                                TokenClass::WhiteSpace(s.clone(), 0)
                            } else {
                                TokenClass::Normal
                            }
                        },
                        Some(j) => {
                            if v[j] == '\n' {
                                if j == v.len() - 1 {
                                    TokenClass::StandAlone
                                } else {
                                    TokenClass::WhiteSpace(s.clone(), j + 1)
                                }
                            } else {
                                TokenClass::Normal
                            }
                        },
                    }
                }
            },
            _ => TokenClass::Normal,
        }
    }

    /// Whether the tag just read stands alone on its line.
    fn classify_token(&mut self) -> (r: TokenClass)
        requires
            old(self).base_wf(),
        ensures
            final(self).base_wf(),
            (final(self).model(), r@) == spec_classify(old(self).model()),
    {
        match self.ch {
            None => {},
            Some(ch) => {
                let newline = if ch == '\n' {
                    true
                } else if ch == '\r' {
                    match self.peek() {
                        Some(c) => c == '\n',
                        None => false,
                    }
                } else {
                    false
                };
                if !newline {
                    return TokenClass::Normal;
                }
            },
        }
        self.classify_last()
    }

    /// Skips the newline after a standalone tag.
    fn skip_newline(&mut self)
        requires
            old(self).base_wf(),
        ensures
            final(self).base_wf(),
            final(self).model() == skip_newline(old(self).model()),
    {
        if self.ch_is('\r') {
            self.bump();
        }
        self.bump();
    }

    /// Replaces the last token by the text `s[..pos]`.
    fn trim_last(&mut self, s: &String, pos: usize)
        requires
            old(self).base_wf(),
            pos <= s@.len(),
            old(self).tokens.len() > 0,
        ensures
            final(self).base_wf(),
            final(self).model() == trim_last(old(self).model(), s@, pos as nat),
    {
        let v = chars_of(s.as_str());
        let t = string_of_range(&v, 0, pos);
        proof {
            lemma_tokens_view_last(self.tokens@);
        }
        self.tokens.pop();
        proof {
            lemma_tokens_view_push(self.tokens@, Token::Text(t));
            assert(v@.subrange(0, pos as int) =~= s@.take(pos as int));
        }
        self.tokens.push(Token::Text(t));
    }

    /// Removes the line of a standalone tag; tells whether it stood alone.
    fn eat_whitespace(&mut self) -> (r: bool)
        requires
            old(self).base_wf(),
        ensures
            final(self).base_wf(),
            (final(self).model(), r) == spec_eat_whitespace(old(self).model()),
    {
        let c = self.classify_token();
        proof {
            lemma_classify_last_ws(self.model().tokens);
            lemma_tokens_view_len(self.tokens@);
        }
        match c {
            TokenClass::Normal => false,
            TokenClass::StandAlone => {
                self.skip_newline();
                true
            },
            TokenClass::WhiteSpace(s, pos) => {
                self.skip_newline();
                proof {
                    lemma_tokens_view_len(self.tokens@);
                }
                self.trim_last(&s, pos);
                true
            },
            TokenClass::NewLineWhiteSpace(s, pos) => {
                proof {
                    assert(false);
                }
                true
            },
        }
    }

    /// The trimmed `content[lo..hi]`. An empty one is a malformed tag: this
    /// parser reports it as `EmptyTag` and never panics.
    fn check_content(&self, content: &Vec<char>, lo: usize, hi: usize) -> (r: Result<
        Vec<char>,
        ParseError,
    >)
        requires
            lo <= hi <= content.len(),
        ensures
            match spec_check_content(content@.subrange(lo as int, hi as int)) {
                None => r == Err::<Vec<char>, ParseError>(ParseError::EmptyTag),
                Some(t) => r matches Ok(v) && v@ == t,
            },
    {
        match trimmed(content, lo, hi) {
            None => Err(ParseError::EmptyTag),
            Some(t) => Ok(t),
        }
    }

    /// Reads a partial tag.
    fn add_partial(&mut self, content: &Vec<char>, tag: String) -> (r: Result<(), ParseError>)
        requires
            old(self).base_wf(),
            content.len() > 0,
        ensures
            final(self).base_wf(),
            match spec_add_partial(old(self).model(), content@, tag@) {
                Ok(q) => r is Ok && final(self).model() == q,
                Err(e) => r == Err::<(), ParseError>(e),
            },
    {
        let c = self.classify_token();
        let ghost q = self.model();
        proof {
            lemma_classify_last_ws(self.model().tokens);
            lemma_tokens_view_len(self.tokens@);
        }
        let indent = match c {
            TokenClass::Normal => String::new(),
            TokenClass::StandAlone => {
                self.skip_newline();
                String::new()
            },
            TokenClass::WhiteSpace(s, pos) => {
                self.skip_newline();
                let v = chars_of(s.as_str());
                let ws = string_of_range(&v, pos, v.len());
                proof {
                    lemma_tokens_view_len(self.tokens@);
                    assert(v@.subrange(pos as int, v.len() as int) =~= s@.skip(pos as int));
                }
                self.trim_last(&s, pos);
                ws
            },
            TokenClass::NewLineWhiteSpace(s, pos) => {
                proof {
                    assert(false);
                }
                String::new()
            },
        };
        assert(self.model() == apply_class(q, c@));
        assert(indent@ == class_indent(c@));
        assert(content@.subrange(1, content.len() as int) =~= content@.skip(1));
        let name = match self.check_content(content, 1, content.len()) {
            Ok(n) => n,
            Err(e) => {
                return Err(e);
            },
        };
        let name_s = string_of(&name);
        let partial = Token::Partial(name_s.clone(), indent, tag);
        proof {
            lemma_tokens_view_push(self.tokens@, partial);
        }
        self.tokens.push(partial);
        let ghost old_partials = self.partials@;
        self.partials.push(name_s);
        assert(strings_view(self.partials@) =~= strings_view(old_partials).push(name_s@));
        Ok(())
    }

    /// Appends the matched part of the opening delimiter to the content.
    fn not_otag(&mut self)
        requires
            old(self).tag_position <= old(self).otag_chars.len(),
        ensures
            final(self).model() == (PState {
                content: old(self).model().content + old(self).model().otag.take(
                    old(self).tag_position as int,
                ),
                ..old(self).model()
            }),
            final(self).base_wf() == old(self).base_wf(),
    {
        let tp = self.tag_position;
        let mut c = Vec::new();
        core::mem::swap(&mut c, &mut self.content);
        extend_chars(&mut c, &self.otag_chars, 0, tp);
        core::mem::swap(&mut c, &mut self.content);
        assert(self.otag_chars@.subrange(0, tp as int) =~= self.otag_chars@.take(tp as int));
    }

    /// Appends the matched part of the closing delimiter to the content.
    fn not_ctag(&mut self)
        requires
            old(self).tag_position <= old(self).ctag_chars.len(),
        ensures
            final(self).model() == (PState {
                content: old(self).model().content + old(self).model().ctag.take(
                    old(self).tag_position as int,
                ),
                ..old(self).model()
            }),
            final(self).base_wf() == old(self).base_wf(),
    {
        let tp = self.tag_position;
        let mut c = Vec::new();
        core::mem::swap(&mut c, &mut self.content);
        extend_chars(&mut c, &self.ctag_chars, 0, tp);
        core::mem::swap(&mut c, &mut self.content);
        assert(self.ctag_chars@.subrange(0, tp as int) =~= self.ctag_chars@.take(tp as int));
    }

    /// Pushes the variable tag `{{&name}}` or `{{{name}}}` whose name is `content[lo..hi]`.
    fn add_utag(&mut self, content: &Vec<char>, lo: usize, hi: usize, tag: String) -> (r: Result<
        (),
        ParseError,
    >)
        requires
            old(self).base_wf(),
            lo <= hi <= content.len(),
        ensures
            final(self).base_wf(),
            match spec_check_content(content@.subrange(lo as int, hi as int)) {
                None => r == Err::<(), ParseError>(ParseError::EmptyTag),
                Some(n) => r is Ok && final(self).model() == push_token(
                    old(self).model(),
                    TokenModel::UTag(split_name(n), tag@),
                ),
            },
    {
        let name = match self.check_content(content, lo, hi) {
            Ok(n) => n,
            Err(e) => {
                return Err(e);
            },
        };
        let path = split_name_range(&name, 0, name.len());
        assert(name@.subrange(0, name.len() as int) =~= name@);
        let t = Token::UTag(path, tag);
        proof {
            lemma_tokens_view_push(self.tokens@, t);
        }
        self.tokens.push(t);
        Ok(())
    }

    /// Index of the innermost open section, if any.
    fn find_open(&self) -> (r: Option<usize>)
        ensures
            match r {
                Some(k) => last_open(self.model().tokens) == Some(k as int) && k < self.tokens.len(),
                None => last_open(self.model().tokens) is None,
            },
    {
        let mut k = self.tokens.len();
        proof {
            lemma_tokens_view_len(self.tokens@);
            assert(tokens_view(self.tokens@).take(k as int) =~= tokens_view(self.tokens@));
        }
        while k > 0
            invariant
                k <= self.tokens.len(),
                tokens_view(self.tokens@).len() == self.tokens.len(),
                last_open(tokens_view(self.tokens@)) == last_open(
                    tokens_view(self.tokens@).take(k as int),
                ),
            decreases k,
        {
            let open = match &self.tokens[k - 1] {
                Token::IncompleteSection(_, _, _, _) => true,
                _ => false,
            };
            proof {
                lemma_tokens_view_index(self.tokens@, k - 1);
                assert(tokens_view(self.tokens@).take(k as int).last() == tokens_view(
                    self.tokens@,
                )[k - 1]);
                assert(tokens_view(self.tokens@).take(k as int).drop_last() =~= tokens_view(
                    self.tokens@,
                ).take(k - 1));
            }
            if open {
                return Some(k - 1);
            }
            k -= 1;
        }
        None
    }

    /// Closes the innermost open section, which must be named `name`.
    fn close_section(&mut self, name: Vec<String>, tag: String) -> (r: Result<(), ParseError>)
        requires
            old(self).base_wf(),
        ensures
            final(self).base_wf(),
            match close_section(
                old(self).model().tokens,
                strings_view(name@),
                tag@,
                old(self).model().otag,
                old(self).model().ctag,
            ) {
                Ok(ts) => r is Ok && final(self).model() == (PState {
                    tokens: ts,
                    ..old(self).model()
                }),
                Err(e) => r == Err::<(), ParseError>(e),
            },
    {
        let k = match self.find_open() {
            Some(k) => k,
            None => {
                return Err(ParseError::ClosingUnopenedSection);
            },
        };
        let ghost old_tokens = self.tokens@;
        proof {
            lemma_tokens_view_index(old_tokens, k as int);
            lemma_tokens_view_len(old_tokens);
            lemma_tokens_view_take(old_tokens, k as int);
            lemma_tokens_view_skip(old_tokens, k + 1);
        }
        let children = self.tokens.split_off(k + 1);
        assert(children@ =~= old_tokens.skip(k + 1));
        let open = self.tokens.pop();
        assert(self.tokens@ =~= old_tokens.take(k as int));
        proof {
            lemma_last_open_none(tokens_view(old_tokens));
            assert(open == Some(old_tokens[k as int]));
            assert(is_open(token_view(old_tokens[k as int])));
        }
        match open {
            Some(Token::IncompleteSection(sname, inverted, osection, _)) => {
                if names_eq(&sname, &name) {
                    let src = sources_of(&children);
                    let otag = string_of(&self.otag_chars);
                    let ctag = string_of(&self.ctag_chars);
                    let section = Token::Section(
                        name,
                        inverted,
                        children,
                        otag,
                        osection,
                        src,
                        tag,
                        ctag,
                    );
                    proof {
                        lemma_tokens_view_push(self.tokens@, section);
                    }
                    self.tokens.push(section);
                    Ok(())
                } else {
                    Err(ParseError::MismatchedSection)
                }
            },
            _ => {
                proof {
                    assert(false);
                }
                Err(ParseError::ClosingUnopenedSection)
            },
        }
    }

    /// Reads the set-delimiter tag `content`.
    fn set_delimiters(&mut self, content: &Vec<char>) -> (r: Result<(), ParseError>)
        requires
            old(self).base_wf(),
        ensures
            final(self).base_wf(),
            match spec_set_delimiters(old(self).model(), content@) {
                Ok(q) => r is Ok && final(self).model() == q,
                Err(e) => r == Err::<(), ParseError>(e),
            },
    {
        let len = content.len();
        if len > 2 && content[len - 1] == '=' {
            let s = match self.check_content(content, 1, len - 1) {
                Ok(s) => s,
                Err(e) => {
                    return Err(e);
                },
            };
            assert(s@.skip(0) =~= s@);
            proof {
                lemma_trim_first(content@.subrange(1, len - 1));
                lemma_first_ws_bound(s@);
            }
            match find_ws(&s, 0) {
                None => Err(ParseError::InvalidDelimiter),
                Some(i) => {
                    match find_non_ws(&s, i) {
                        None => Err(ParseError::InvalidDelimiter),
                        Some(k) => {
                            let mut ot: Vec<char> = Vec::new();
                            extend_chars(&mut ot, &s, 0, i);
                            let mut ct: Vec<char> = Vec::new();
                            extend_chars(&mut ct, &s, i + k, s.len());
                            assert(ot@ =~= s@.take(i as int));
                            assert(ct@ =~= s@.skip(i as int).skip(k as int));
                            self.otag_chars = ot;
                            self.ctag_chars = ct;
                            Ok(())
                        },
                    }
                },
            }
        } else {
            Err(ParseError::InvalidDelimiter)
        }
    }

    /// Reads the tag whose content has been gathered; the current character
    /// is the last one of the closing delimiter. A closing tag with no open
    /// section, or one that names another section than the innermost open
    /// one, is a malformed template: reported as `ClosingUnopenedSection` or
    /// `MismatchedSection`, never a panic.
    fn add_tag(&mut self) -> (r: Result<(), ParseError>)
        requires
            old(self).base_wf(),
        ensures
            final(self).base_wf(),
            match spec_add_tag(old(self).model()) {
                Ok(q) => r is Ok && final(self).model() == q,
                Err(e) => r == Err::<(), ParseError>(e),
            },
    {
        self.bump();
        let ghost p0 = self.model();
        let mut tagv: Vec<char> = Vec::new();
        extend_chars(&mut tagv, &self.otag_chars, 0, self.otag_chars.len());
        extend_chars(&mut tagv, &self.content, 0, self.content.len());
        extend_chars(&mut tagv, &self.ctag_chars, 0, self.ctag_chars.len());
        assert(self.otag_chars@.subrange(0, self.otag_chars.len() as int) =~= self.otag_chars@);
        assert(self.content@.subrange(0, self.content.len() as int) =~= self.content@);
        assert(self.ctag_chars@.subrange(0, self.ctag_chars.len() as int) =~= self.ctag_chars@);
        let tag = string_of(&tagv);
        assert(tag@ == p0.otag + p0.content + p0.ctag);
        let mut content: Vec<char> = Vec::new();
        core::mem::swap(&mut content, &mut self.content);
        assert(self.model() == (PState { content: Seq::empty(), ..p0 }));
        let len = content.len();
        if len == 0 {
            return Err(ParseError::EmptyTagContent);
        }
        assert(content@.subrange(1, len as int) =~= content@.skip(1));
        assert(content@.subrange(0, len as int) =~= content@);
        let c0 = content[0];
        if c0 == '!' {
            self.eat_whitespace();
            Ok(())
        } else if c0 == '&' {
            self.add_utag(&content, 1, len, tag)
        } else if c0 == '{' {
            if content[len - 1] == '}' {
                self.add_utag(&content, 1, len - 1, tag)
            } else {
                Err(ParseError::UnbalancedBrace)
            }
        } else if c0 == '#' || c0 == '^' {
            let newlined = self.eat_whitespace();
            let name = match self.check_content(&content, 1, len) {
                Ok(n) => n,
                Err(e) => {
                    return Err(e);
                },
            };
            let path = split_name_range(&name, 0, name.len());
            assert(name@.subrange(0, name.len() as int) =~= name@);
            let t = Token::IncompleteSection(path, c0 == '^', tag, newlined);
            proof {
                lemma_tokens_view_push(self.tokens@, t);
            }
            self.tokens.push(t);
            Ok(())
        } else if c0 == '/' {
            self.eat_whitespace();
            let name = match self.check_content(&content, 1, len) {
                Ok(n) => n,
                Err(e) => {
                    return Err(e);
                },
            };
            let path = split_name_range(&name, 0, name.len());
            assert(name@.subrange(0, name.len() as int) =~= name@);
            self.close_section(path, tag)
        } else if c0 == '>' {
            self.add_partial(&content, tag)
        } else if c0 == '=' {
            self.eat_whitespace();
            self.set_delimiters(&content)
        } else {
            let name = match self.check_content(&content, 0, len) {
                Ok(n) => n,
                Err(e) => {
                    return Err(e);
                },
            };
            let path = if name.len() == 1 && name[0] == '.' {
                assert(name@ =~= seq!['.']);
                Vec::new()
            } else {
                assert(name@ != seq!['.']);
                let p = split_name_range(&name, 0, name.len());
                assert(name@.subrange(0, name.len() as int) =~= name@);
                p
            };
            assert(strings_view(path@) == etag_name(name@));
            let t = Token::ETag(path, tag);
            proof {
                lemma_tokens_view_push(self.tokens@, t);
            }
            self.tokens.push(t);
            Ok(())
        }
    }

    /// One step of the tokenizer on the current character `ch`.
    fn step(&mut self, ch: char, curly: bool) -> (r: Result<bool, ParseError>)
        requires
            old(self).wf(),
            old(self).model().ch == Some(ch),
        ensures
            match spec_step(old(self).model(), ch, curly) {
                Ok((q, k)) => r == Ok::<bool, ParseError>(k) && final(self).model() == q
                    && final(self).wf(),
                Err(e) => r == Err::<bool, ParseError>(e),
            },
    {
        match self.state {
            ParserState::TEXT => {
                if self.otag_chars.len() == 0 {
                    return Err(ParseError::EmptyDelimiter);
                }
                if ch == self.otag_chars[0] {
                    if self.otag_chars.len() > 1 {
                        self.tag_position = 1;
                        self.state = ParserState::OTAG;
                    } else {
                        self.add_text();
                        self.state = ParserState::TAG;
                    }
                } else {
                    self.content.push(ch);
                }
                self.bump();
                Ok(curly)
            },
            ParserState::OTAG => {
                let mut c = curly;
                if ch == self.otag_chars[self.tag_position] {
                    if self.tag_position == self.otag_chars.len() - 1 {
                        self.add_text();
                        c = false;
                        self.state = ParserState::TAG;
                    } else {
                        self.tag_position = self.tag_position + 1;
                    }
                } else {
                    self.state = ParserState::TEXT;
                    self.not_otag();
                    self.content.push(ch);
                    assert(self.content@ =~= old(self).content@ + old(self).otag_chars@.take(
                        old(self).tag_position as int,
                    ) + seq![ch]);
                }
                self.bump();
                Ok(c)
            },
            ParserState::TAG => {
                if self.content.len() == 0 && ch == '{' {
                    self.content.push(ch);
                    self.bump();
                    Ok(true)
                } else if curly && ch == '}' {
                    self.content.push(ch);
                    self.bump();
                    Ok(false)
                } else if self.ctag_chars.len() == 0 {
                    Err(ParseError::EmptyDelimiter)
                } else if ch == self.ctag_chars[0] {
                    if self.ctag_chars.len() > 1 {
                        self.tag_position = 1;
                        self.state = ParserState::CTAG;
                        self.bump();
                        Ok(curly)
                    } else {
                        match self.add_tag() {
                            Ok(()) => {},
                            Err(e) => {
                                return Err(e);
                            },
                        }
                        self.state = ParserState::TEXT;
                        Ok(curly)
                    }
                } else {
                    self.content.push(ch);
                    self.bump();
                    Ok(curly)
                }
            },
            ParserState::CTAG => {
                let tp = self.tag_position;
                if ch == self.ctag_chars[tp] {
                    if tp == self.ctag_chars.len() - 1 {
                        match self.add_tag() {
                            Ok(()) => {},
                            Err(e) => {
                                return Err(e);
                            },
                        }
                        self.state = ParserState::TEXT;
                        Ok(curly)
                    } else {
                        self.state = ParserState::TAG;
                        self.not_ctag();
                        self.content.push(ch);
                        assert(self.content@ =~= old(self).content@ + old(
                            self,
                        ).ctag_chars@.take(tp as int) + seq![ch]);
                        self.bump();
                        Ok(curly)
                    }
                } else {
                    Err(ParseError::NotPartOfCtag(ch, self.ctag_chars[tp]))
                }
            },
        }
    }

    /// What is left to do at the end of the input.
    fn finish(&mut self) -> (r: Result<(), ParseError>)
        requires
            old(self).wf(),
        ensures
            match spec_finish(old(self).model()) {
                Ok(q) => r is Ok && final(self).model() == q && final(self).wf(),
                Err(e) => r == Err::<(), ParseError>(e),
            },
    {
        match self.state {
            ParserState::TEXT => {
                self.add_text();
            },
            ParserState::OTAG => {
                self.not_otag();
                self.add_text();
            },
            ParserState::TAG => {
                return Err(ParseError::UnclosedTag);
            },
            ParserState::CTAG => {
                self.not_ctag();
                self.add_text();
            },
        }
        match self.find_open() {
            Some(_) => Err(ParseError::UnclosedSection),
            None => Ok(()),
        }
    }

    /// Reads the template to its end. A template that ends inside a tag, or
    /// leaves a section open, is malformed: reported as `UnclosedTag` or
    /// `UnclosedSection`, never a panic; callers that want the program to
    /// stop on it do so themselves.
    pub fn parse(&mut self) -> (r: Result<(), ParseError>)
        requires
            old(self).wf(),
        ensures
            match spec_run(old(self).model(), false) {
                Ok(q) => r is Ok && final(self).model() == q && final(self).wf(),
                Err(e) => r == Err::<(), ParseError>(e),
            },
    {
        let mut curly = false;
        loop
            invariant
                self.wf(),
                spec_run(self.model(), curly) == spec_run(old(self).model(), false),
            ensures
                self.wf(),
                self.model().ch is None,
                spec_run(self.model(), curly) == spec_run(old(self).model(), false),
            decreases measure(self.model()),
        {
            let ch = match self.ch {
                Some(c) => c,
                None => {
                    break;
                },
            };
            proof {
                lemma_step_decreases(self.model(), ch, curly);
            }
            match self.step(ch, curly) {
                Ok(c) => {
                    curly = c;
                },
                Err(e) => {
                    return Err(e);
                },
            }
        }
        self.finish()
    }

    /// The tokens and partial names read.
    pub fn into_parts(self) -> (r: (Vec<Token>, Vec<String>))
        ensures
            tokens_view(r.0@) == self.model().tokens,
            strings_view(r.1@) == self.model().partials,
    {
        (self.tokens, self.partials)
    }
}

/// Compiles `template` with the opening and closing delimiters `otag` and
/// `ctag`: its tokens, and the names of the partials it refers to.
pub fn tokenize(template: &str, otag: &str, ctag: &str) -> (r: Result<
    (Vec<Token>, Vec<String>),
    ParseError,
>)
    ensures
        match spec_tokenize(template@, otag@, ctag@) {
            Ok((ts, ps)) => r matches Ok((a, b)) && tokens_view(a@) == ts && strings_view(b@) == ps,
            Err(e) => r == Err::<(Vec<Token>, Vec<String>), ParseError>(e),
        },
{
    let mut parser = Parser::new(chars_of(template), chars_of(otag), chars_of(ctag));
    parser.bump();
    match parser.parse() {
        Ok(()) => Ok(parser.into_parts()),
        Err(e) => Err(e),
    }
}

} // verus!
