//! The tokenizer as a mathematical state machine: a state, the operations
//! on it, one step per input character, and the run to the end of the input.
use vstd::prelude::*;
use crate::text::{trim, first_ws, first_non_ws, last_nl_or_non_ws, split_name};
use crate::token::{TokenModel, TokenClassModel, ParserState, ParseError, sources, is_open};

verus! {

/// The state of the tokenizer.
#[verifier::ext_equal]
pub struct PState {
    /// The characters not read yet.
    pub rest: Seq<char>,
    /// The current character.
    pub ch: Option<char>,
    /// A character read ahead of the current one.
    pub lookahead: Option<char>,
    /// Text or tag content gathered so far.
    pub content: Seq<char>,
    pub state: ParserState,
    /// The opening and closing delimiters in force.
    pub otag: Seq<char>,
    pub ctag: Seq<char>,
    /// How many characters of a delimiter have matched.
    pub tag_position: nat,
    pub tokens: Seq<TokenModel>,
    /// The names of the partials met so far.
    pub partials: Seq<Seq<char>>,
}

/// The state before any character is read.
pub open spec fn initial_state(input: Seq<char>, otag: Seq<char>, ctag: Seq<char>) -> PState {
    PState {
        rest: input,
        ch: None,
        lookahead: None,
        content: Seq::empty(),
        state: ParserState::TEXT,
        otag,
        ctag,
        tag_position: 0,
        tokens: Seq::empty(),
        partials: Seq::empty(),
    }
}

/// The invariant of a tokenizer state: a partial match stays inside its
/// delimiter.
pub open spec fn state_wf(p: PState) -> bool {
    &&& p.state == ParserState::OTAG ==> 1 <= p.tag_position < p.otag.len()
    &&& p.state == ParserState::CTAG ==> 1 <= p.tag_position < p.ctag.len()
}

pub open spec fn next_char(rest: Seq<char>) -> Option<char> {
    if rest.len() > 0 {
        Some(rest[0])
    } else {
        None
    }
}

pub open spec fn after_next(rest: Seq<char>) -> Seq<char> {
    if rest.len() > 0 {
        rest.drop_first()
    } else {
        rest
    }
}

/// Advances to the next character.
pub open spec fn spec_bump(p: PState) -> PState {
    let ch = match p.lookahead {
        Some(c) => Some(c),
        None => next_char(p.rest),
    };
    let rest = match p.lookahead {
        Some(_) => p.rest,
        None => after_next(p.rest),
    };
    PState { rest, ch, lookahead: None, ..p }
}

/// Looks at the character after the current one.
pub open spec fn spec_peek(p: PState) -> (PState, Option<char>) {
    match p.lookahead {
        Some(c) => (p, Some(c)),
        None => (PState { lookahead: next_char(p.rest), rest: after_next(p.rest), ..p }, next_char(p.rest)),
    }
}

/// Moves the gathered text into a text token, if there is any.
pub open spec fn spec_add_text(p: PState) -> PState {
    if p.content.len() > 0 {
        PState { tokens: p.tokens.push(TokenModel::Text(p.content)), content: Seq::empty(), ..p }
    } else {
        p
    }
}

/// How the last token leaves the line of a tag that a newline follows.
pub open spec fn classify_last(tokens: Seq<TokenModel>) -> TokenClassModel {
    if tokens.len() == 0 {
        TokenClassModel::StandAlone
    } else {
        match tokens.last() {
            TokenModel::IncompleteSection(_, _, _, newlined) => if newlined {
                TokenClassModel::StandAlone
            } else {
                TokenClassModel::Normal
            },
            TokenModel::Text(s) => if s.len() == 0 {
                TokenClassModel::Normal
            } else {
                match last_nl_or_non_ws(s) {
                    None => if tokens.len() == 1 {
                        TokenClassModel::WhiteSpace(s, 0)
                    } else {
                        TokenClassModel::Normal
                    },
                    Some(j) => if s[j] == '\n' {
                        if j == s.len() - 1 {
                            TokenClassModel::StandAlone
                        } else {
                            TokenClassModel::WhiteSpace(s, (j + 1) as nat)
                        }
                    } else {
                        TokenClassModel::Normal
                    },
                }
            },
            _ => TokenClassModel::Normal,
        }
    }
}

/// Whether the tag just read stands alone on its line: only when a newline
/// (or the end of the input) follows it.
pub open spec fn spec_classify(p: PState) -> (PState, TokenClassModel) {
    match p.ch {
        Some(c) => if c == '\n' {
            (p, classify_last(p.tokens))
        } else if c == '\r' {
            let (q, la) = spec_peek(p);
            if la == Some('\n') {
                (q, classify_last(q.tokens))
            } else {
                (q, TokenClassModel::Normal)
            }
        } else {
            (p, TokenClassModel::Normal)
        },
        None => (p, classify_last(p.tokens)),
    }
}

/// Skips the newline (`\n` or `\r\n`) after a standalone tag.
pub open spec fn skip_newline(p: PState) -> PState {
    if p.ch == Some('\r') {
        spec_bump(spec_bump(p))
    } else {
        spec_bump(p)
    }
}

/// Replaces the last token by the text `s[..pos]`.
pub open spec fn trim_last(p: PState, s: Seq<char>, pos: nat) -> PState {
    PState { tokens: p.tokens.drop_last().push(TokenModel::Text(s.take(pos as int))), ..p }
}

/// Drops the newline after a standalone tag and the whitespace before it.
pub open spec fn apply_class(p: PState, c: TokenClassModel) -> PState {
    match c {
        TokenClassModel::Normal => p,
        TokenClassModel::StandAlone => skip_newline(p),
        TokenClassModel::WhiteSpace(s, pos) => trim_last(skip_newline(p), s, pos),
        TokenClassModel::NewLineWhiteSpace(s, pos) => trim_last(skip_newline(p), s, pos),
    }
}

/// The whitespace that a standalone tag stands behind.
pub open spec fn class_indent(c: TokenClassModel) -> Seq<char> {
    match c {
        TokenClassModel::WhiteSpace(s, pos) => s.skip(pos as int),
        TokenClassModel::NewLineWhiteSpace(s, pos) => s.skip(pos as int),
        _ => Seq::empty(),
    }
}

/// Removes the line of a standalone tag; tells whether it stood alone.
pub open spec fn spec_eat_whitespace(p: PState) -> (PState, bool) {
    let (q, c) = spec_classify(p);
    (apply_class(q, c), !(c is Normal))
}

/// The trimmed content of a tag, or `None` where it is empty.
pub open spec fn spec_check_content(s: Seq<char>) -> Option<Seq<char>> {
    if trim(s).len() == 0 {
        None
    } else {
        Some(trim(s))
    }
}

/// Index of the innermost open section among `tokens`.
pub open spec fn last_open(tokens: Seq<TokenModel>) -> Option<int>
    decreases tokens.len(),
{
    if tokens.len() == 0 {
        None
    } else if is_open(tokens.last()) {
        Some(tokens.len() - 1)
    } else {
        last_open(tokens.drop_last())
    }
}

/// Closes the innermost open section, which must be named `name`: the
/// tokens after it become its children.
pub open spec fn close_section(
    tokens: Seq<TokenModel>,
    name: Seq<Seq<char>>,
    tag: Seq<char>,
    otag: Seq<char>,
    ctag: Seq<char>,
) -> Result<Seq<TokenModel>, ParseError> {
    match last_open(tokens) {
        None => Err(ParseError::ClosingUnopenedSection),
        Some(k) => match tokens[k] {
            TokenModel::IncompleteSection(sname, inverted, osection, _) => if sname == name {
                let children = tokens.skip(k + 1);
                Ok(
                    tokens.take(k).push(
                        TokenModel::Section(
                            name,
                            inverted,
                            children,
                            otag,
                            osection,
                            sources(children),
                            tag,
                            ctag,
                        ),
                    ),
                )
            } else {
                Err(ParseError::MismatchedSection)
            },
            _ => Err(ParseError::ClosingUnopenedSection),
        },
    }
}

pub open spec fn push_token(p: PState, t: TokenModel) -> PState {
    PState { tokens: p.tokens.push(t), ..p }
}

/// Reads a partial tag.
pub open spec fn spec_add_partial(p: PState, content: Seq<char>, tag: Seq<char>) -> Result<
    PState,
    ParseError,
> {
    let (q, c) = spec_classify(p);
    let r = apply_class(q, c);
    match spec_check_content(content.skip(1)) {
        None => Err(ParseError::EmptyTag),
        Some(name) => Ok(
            PState {
                tokens: r.tokens.push(TokenModel::Partial(name, class_indent(c), tag)),
                partials: r.partials.push(name),
                ..r
            },
        ),
    }
}

/// Reads a set-delimiter tag `=otag ctag=`.
pub open spec fn spec_set_delimiters(p: PState, content: Seq<char>) -> Result<PState, ParseError> {
    let len = content.len();
    if len > 2 && content.last() == '=' {
        match spec_check_content(content.subrange(1, len - 1)) {
            None => Err(ParseError::EmptyTag),
            Some(s) => match first_ws(s) {
                None => Err(ParseError::InvalidDelimiter),
                Some(i) => match first_non_ws(s.skip(i)) {
                    None => Err(ParseError::InvalidDelimiter),
                    Some(k) => Ok(PState { otag: s.take(i), ctag: s.skip(i).skip(k), ..p }),
                },
            },
        }
    } else {
        Err(ParseError::InvalidDelimiter)
    }
}

/// The name of a variable tag: `.` names the top of the context stack.
pub open spec fn etag_name(n: Seq<char>) -> Seq<Seq<char>> {
    if n == seq!['.'] {
        Seq::empty()
    } else {
        split_name(n)
    }
}

/// Reads the tag whose content has been gathered; the current character
/// is the last one of the closing delimiter.
pub open spec fn spec_add_tag(p: PState) -> Result<PState, ParseError> {
    let p0 = spec_bump(p);
    let content = p0.content;
    let tag = p0.otag + content + p0.ctag;
    let p1 = PState { content: Seq::empty(), ..p0 };
    let len = content.len();
    if len == 0 {
        Err(ParseError::EmptyTagContent)
    } else if content[0] == '!' {
        Ok(spec_eat_whitespace(p1).0)
    } else if content[0] == '&' {
        match spec_check_content(content.skip(1)) {
            None => Err(ParseError::EmptyTag),
            Some(n) => Ok(push_token(p1, TokenModel::UTag(split_name(n), tag))),
        }
    } else if content[0] == '{' {
        if content.last() == '}' {
            match spec_check_content(content.subrange(1, len - 1)) {
                None => Err(ParseError::EmptyTag),
                Some(n) => Ok(push_token(p1, TokenModel::UTag(split_name(n), tag))),
            }
        } else {
            Err(ParseError::UnbalancedBrace)
        }
    } else if content[0] == '#' || content[0] == '^' {
        let (p2, newlined) = spec_eat_whitespace(p1);
        match spec_check_content(content.skip(1)) {
            None => Err(ParseError::EmptyTag),
            Some(n) => Ok(
                push_token(
                    p2,
                    TokenModel::IncompleteSection(split_name(n), content[0] == '^', tag, newlined),
                ),
            ),
        }
    } else if content[0] == '/' {
        let p2 = spec_eat_whitespace(p1).0;
        match spec_check_content(content.skip(1)) {
            None => Err(ParseError::EmptyTag),
            Some(n) => match close_section(p2.tokens, split_name(n), tag, p2.otag, p2.ctag) {
                Err(e) => Err(e),
                Ok(ts) => Ok(PState { tokens: ts, ..p2 }),
            },
        }
    } else if content[0] == '>' {
        spec_add_partial(p1, content, tag)
    } else if content[0] == '=' {
        spec_set_delimiters(spec_eat_whitespace(p1).0, content)
    } else {
        match spec_check_content(content) {
            None => Err(ParseError::EmptyTag),
            Some(n) => Ok(push_token(p1, TokenModel::ETag(etag_name(n), tag))),
        }
    }
}

/// One step of the tokenizer on the current character `ch`; `curly` tells
/// whether a `{{{` tag is waiting for its inner `}`.
pub open spec fn spec_step(p: PState, ch: char, curly: bool) -> Result<(PState, bool), ParseError> {
    let tp = p.tag_position as int;
    match p.state {
        ParserState::TEXT => if p.otag.len() == 0 {
            Err(ParseError::EmptyDelimiter)
        } else if ch == p.otag[0] {
            if p.otag.len() > 1 {
                Ok((spec_bump(PState { tag_position: 1, state: ParserState::OTAG, ..p }), curly))
            } else {
                Ok((spec_bump(PState { state: ParserState::TAG, ..spec_add_text(p) }), curly))
            }
        } else {
            Ok((spec_bump(PState { content: p.content.push(ch), ..p }), curly))
        },
        ParserState::OTAG => if ch == p.otag[tp] {
            if tp == p.otag.len() - 1 {
                Ok((spec_bump(PState { state: ParserState::TAG, ..spec_add_text(p) }), false))
            } else {
                Ok((spec_bump(PState { tag_position: p.tag_position + 1, ..p }), curly))
            }
        } else {
            Ok(
                (
                    spec_bump(
                        PState {
                            state: ParserState::TEXT,
                            content: p.content + p.otag.take(tp) + seq![ch],
                            ..p
                        },
                    ),
                    curly,
                ),
            )
        },
        ParserState::TAG => if p.content.len() == 0 && ch == '{' {
            Ok((spec_bump(PState { content: p.content.push(ch), ..p }), true))
        } else if curly && ch == '}' {
            Ok((spec_bump(PState { content: p.content.push(ch), ..p }), false))
        } else if p.ctag.len() == 0 {
            Err(ParseError::EmptyDelimiter)
        } else if ch == p.ctag[0] {
            if p.ctag.len() > 1 {
                Ok((spec_bump(PState { tag_position: 1, state: ParserState::CTAG, ..p }), curly))
            } else {
                match spec_add_tag(p) {
                    Ok(q) => Ok((PState { state: ParserState::TEXT, ..q }, curly)),
                    Err(e) => Err(e),
                }
            }
        } else {
            Ok((spec_bump(PState { content: p.content.push(ch), ..p }), curly))
        },
        ParserState::CTAG => if ch == p.ctag[tp] {
            if tp == p.ctag.len() - 1 {
                match spec_add_tag(p) {
                    Ok(q) => Ok((PState { state: ParserState::TEXT, ..q }, curly)),
                    Err(e) => Err(e),
                }
            } else {
                Ok(
                    (
                        spec_bump(
                            PState {
                                state: ParserState::TAG,
                                content: p.content + p.ctag.take(tp) + seq![ch],
                                ..p
                            },
                        ),
                        curly,
                    ),
                )
            }
        } else {
            Err(ParseError::NotPartOfCtag(ch, p.ctag[tp]))
        },
    }
}

/// What is left to do at the end of the input.
pub open spec fn spec_finish(p: PState) -> Result<PState, ParseError> {
    let tp = p.tag_position as int;
    let q = match p.state {
        ParserState::TEXT => Ok(spec_add_text(p)),
        ParserState::OTAG => Ok(spec_add_text(PState { content: p.content + p.otag.take(tp), ..p })),
        ParserState::TAG => Err(ParseError::UnclosedTag),
        ParserState::CTAG => Ok(spec_add_text(PState { content: p.content + p.ctag.take(tp), ..p })),
    };
    match q {
        Err(e) => Err(e),
        Ok(r) => if last_open(r.tokens) is Some {
            Err(ParseError::UnclosedSection)
        } else {
            Ok(r)
        },
    }
}

/// How many characters are left to read, counting the current one.
pub open spec fn measure(p: PState) -> nat {
    p.rest.len() + (if p.ch is Some {
        1nat
    } else {
        0nat
    }) + (if p.lookahead is Some {
        1nat
    } else {
        0nat
    })
}

/// The tokenizer run from state `p` to the end of its input.
pub open spec fn spec_run(p: PState, curly: bool) -> Result<PState, ParseError>
    decreases measure(p),
    via run_decreases
{
    match p.ch {
        None => spec_finish(p),
        Some(c) => match spec_step(p, c, curly) {
            Ok((q, k)) => spec_run(q, k),
            Err(e) => Err(e),
        },
    }
}

#[via_fn]
proof fn run_decreases(p: PState, curly: bool) {
    match p.ch {
        None => {},
        Some(c) => {
            lemma_step_decreases(p, c, curly);
        },
    }
}

/// The tokens and partial names of `input`, compiled with the delimiters
/// `otag` and `ctag`.
pub open spec fn spec_tokenize(input: Seq<char>, otag: Seq<char>, ctag: Seq<char>) -> Result<
    (Seq<TokenModel>, Seq<Seq<char>>),
    ParseError,
> {
    match spec_run(spec_bump(initial_state(input, otag, ctag)), false) {
        Ok(p) => Ok((p.tokens, p.partials)),
        Err(e) => Err(e),
    }
}

pub proof fn lemma_bump_measure(p: PState)
    ensures
        measure(spec_bump(p)) <= measure(p),
        p.ch is Some ==> measure(spec_bump(p)) < measure(p),
{
}

pub proof fn lemma_classify_measure(p: PState)
    ensures
        measure(spec_classify(p).0) == measure(p),
{
}

pub proof fn lemma_apply_class_measure(p: PState, c: TokenClassModel)
    ensures
        measure(apply_class(p, c)) <= measure(p),
{
    lemma_bump_measure(p);
    lemma_bump_measure(spec_bump(p));
}

pub proof fn lemma_eat_whitespace_measure(p: PState)
    ensures
        measure(spec_eat_whitespace(p).0) <= measure(p),
{
    let (q, c) = spec_classify(p);
    lemma_classify_measure(p);
    lemma_apply_class_measure(q, c);
}

pub proof fn lemma_add_tag_measure(p: PState)
    requires
        p.ch is Some,
    ensures
        spec_add_tag(p) matches Ok(q) ==> measure(q) < measure(p),
{
    let p0 = spec_bump(p);
    lemma_bump_measure(p);
    let p1 = PState { content: Seq::empty(), ..p0 };
    lemma_eat_whitespace_measure(p1);
    let (q, c) = spec_classify(p1);
    lemma_classify_measure(p1);
    lemma_apply_class_measure(q, c);
}

pub proof fn lemma_step_decreases(p: PState, ch: char, curly: bool)
    requires
        p.ch == Some(ch),
    ensures
        spec_step(p, ch, curly) matches Ok((q, _)) ==> measure(q) < measure(p),
{
    lemma_add_tag_measure(p);
}

pub proof fn lemma_classify_last_ws(tokens: Seq<TokenModel>)
    ensures
        classify_last(tokens) matches TokenClassModel::WhiteSpace(s, pos) ==> {
            &&& tokens.len() > 0
            &&& tokens.last() == TokenModel::Text(s)
            &&& pos <= s.len()
        },
        !(classify_last(tokens) is NewLineWhiteSpace),
{
    if tokens.len() > 0 {
        match tokens.last() {
            TokenModel::Text(s) => {
                if s.len() > 0 {
                    lemma_last_nl_or_non_ws_bound(s);
                }
            },
            _ => {},
        }
    }
}

pub proof fn lemma_last_nl_or_non_ws_bound(s: Seq<char>)
    ensures
        last_nl_or_non_ws(s) matches Some(j) ==> 0 <= j < s.len(),
    decreases s.len(),
{
    if s.len() > 0 {
        lemma_last_nl_or_non_ws_bound(s.drop_last());
    }
}

/// A class that trims the last token comes only where there is one.
pub proof fn lemma_classify_nonempty(p: PState)
    ensures
        spec_classify(p).1 is WhiteSpace ==> spec_classify(p).0.tokens.len() > 0,
        !(spec_classify(p).1 is NewLineWhiteSpace),
{
    lemma_classify_last_ws(p.tokens);
    lemma_classify_last_ws(spec_peek(p).0.tokens);
}

pub proof fn lemma_last_open_none(ts: Seq<TokenModel>)
    ensures
        last_open(ts) is None <==> forall|i: int| 0 <= i < ts.len() ==> !is_open(#[trigger] ts[i]),
        last_open(ts) matches Some(k) ==> 0 <= k < ts.len() && is_open(ts[k]),
    decreases ts.len(),
{
    if ts.len() > 0 {
        lemma_last_open_none(ts.drop_last());
        if !is_open(ts.last()) {
            assert forall|i: int| 0 <= i < ts.len() - 1 implies ts.drop_last()[i] == ts[i] by {}
        }
    }
}

/// No token after the innermost open section is open.
pub proof fn lemma_after_last_open(ts: Seq<TokenModel>)
    ensures
        last_open(ts) matches Some(k) ==> forall|j: int| k < j < ts.len() ==> !is_open(#[trigger] ts[j]),
    decreases ts.len(),
{
    if ts.len() > 0 && !is_open(ts.last()) {
        lemma_after_last_open(ts.drop_last());
        lemma_last_open_none(ts);
        if let Some(k) = last_open(ts) {
            assert forall|j: int| k < j < ts.len() implies !is_open(#[trigger] ts[j]) by {
                if j < ts.len() - 1 {
                    assert(ts.drop_last()[j] == ts[j]);
                }
            }
        }
    }
}

} // verus!
