//! What compiling keeps of a template: the sources of its tokens, one after
//! another, give the template back.
use vstd::prelude::*;
use crate::token::{TokenModel, TokenClassModel, ParserState, ParseError, sources, token_source, is_open};
use crate::parser_spec::{
    PState, initial_state, spec_bump, spec_peek, spec_add_text, spec_classify, apply_class,
    spec_eat_whitespace, spec_add_tag, close_section, last_open, spec_step, spec_finish, spec_run,
    spec_tokenize, measure,
    lemma_step_decreases, lemma_last_open_none, lemma_after_last_open, lemma_last_nl_or_non_ws_bound,
    spec_check_content,
};
use crate::render::{default_otag, default_ctag};

verus! {

/// The text a token stands for in its template: its source, after the
/// indentation it took over where it is a partial.
pub open spec fn template_source(t: TokenModel) -> Seq<char> {
    match t {
        TokenModel::Partial(_, ind, g) => ind + g,
        _ => token_source(t),
    }
}

/// The texts that `ts` stand for, one after another.
pub open spec fn template_sources(ts: Seq<TokenModel>) -> Seq<char>
    decreases ts.len(),
{
    if ts.len() == 0 {
        Seq::empty()
    } else {
        template_sources(ts.drop_last()) + template_source(ts.last())
    }
}

/// Whether `s` has no newline.
pub open spec fn no_newline(s: Seq<char>) -> bool {
    forall|i: int| 0 <= i < s.len() ==> s[i] != '\n'
}

/// Whether no `{{` in `s` opens a comment or a delimiter change.
pub open spec fn no_comment_or_delimiter_tag(s: Seq<char>) -> bool {
    forall|i: int|
        0 <= i && i + 2 < s.len() && #[trigger] s[i] == '{' && s[i + 1] == '{' ==> s[i + 2] != '!' && s[i
            + 2] != '='
}

/// The source of a token, where an open section counts its opening tag.
spec fn open_source(t: TokenModel) -> Seq<char> {
    match t {
        TokenModel::IncompleteSection(_, _, os, _) => os,
        _ => token_source(t),
    }
}

spec fn open_sources(ts: Seq<TokenModel>) -> Seq<char>
    decreases ts.len(),
{
    if ts.len() == 0 {
        Seq::empty()
    } else {
        open_sources(ts.drop_last()) + open_source(ts.last())
    }
}

spec fn opt_char(c: Option<char>) -> Seq<char> {
    match c {
        Some(x) => seq![x],
        None => Seq::empty(),
    }
}

/// The characters the tokenizer has not consumed.
spec fn unread(p: PState) -> Seq<char> {
    opt_char(p.ch) + opt_char(p.lookahead) + p.rest
}

/// The characters consumed but not yet in a token.
spec fn pending(p: PState) -> Seq<char> {
    match p.state {
        ParserState::TEXT => p.content,
        ParserState::OTAG => p.content + p.otag.take(p.tag_position as int),
        ParserState::TAG => p.otag + p.content,
        ParserState::CTAG => p.otag + p.content + p.ctag.take(p.tag_position as int),
    }
}

/// The tokenizer state `p` accounts for every character of `s`.
spec fn tracks(p: PState, s: Seq<char>) -> bool {
    &&& p.otag == default_otag()
    &&& p.ctag == default_ctag()
    &&& (p.state == ParserState::OTAG || p.state == ParserState::CTAG) ==> p.tag_position == 1
    &&& p.lookahead is Some ==> p.ch is Some
    &&& p.ch is None ==> unread(p).len() == 0
    &&& partials_flat(p.tokens)
    &&& open_sources(p.tokens) + pending(p) + unread(p) == s
}

/// No partial among `ts` took over an indentation.
spec fn partials_flat(ts: Seq<TokenModel>) -> bool {
    forall|i: int|
        0 <= i < ts.len() ==> (#[trigger] ts[i] matches TokenModel::Partial(_, ind, _) ==> ind.len() == 0)
}

proof fn lemma_partials_flat_push(ts: Seq<TokenModel>, t: TokenModel)
    requires
        partials_flat(ts),
        t matches TokenModel::Partial(_, ind, _) ==> ind.len() == 0,
    ensures
        partials_flat(ts.push(t)),
{
    assert forall|i: int| 0 <= i < ts.push(t).len() implies (#[trigger] ts.push(t)[i] matches TokenModel::Partial(
        _,
        ind,
        _,
    ) ==> ind.len() == 0) by {
        if i < ts.len() {
            assert(ts.push(t)[i] == ts[i]);
        }
    }
}

proof fn lemma_open_sources_push(ts: Seq<TokenModel>, t: TokenModel)
    ensures
        open_sources(ts.push(t)) == open_sources(ts) + open_source(t),
{
    assert(ts.push(t).drop_last() =~= ts);
}

/// Classifying a tag line is a no-op where a character other than a
/// newline follows: the tag shares its line.
proof fn lemma_classify_some(p: PState)
    requires
        p.ch is Some,
        no_newline(unread(p)),
    ensures
        spec_classify(p).1 == TokenClassModel::Normal,
        spec_classify(p).0 == (PState { lookahead: spec_classify(p).0.lookahead, rest: spec_classify(p).0.rest, ..p }),
        unread(spec_classify(p).0) == unread(p),
{
    let c = p.ch->0;
    assert(unread(p)[0] == c);
    if c == '\r' {
        let (q, la) = spec_peek(p);
        assert(unread(q) =~= unread(p));
        if la is Some {
            assert(unread(p)[1] == la->0);
        }
    }
}

/// Classifying a tag line at the end of the input: the tag stands alone
/// only behind nothing but whitespace, which then is the only token.
proof fn lemma_classify_end(p: PState)
    requires
        p.ch is None,
        p.lookahead is None,
        p.rest.len() == 0,
        p.tokens.len() > 0 ==> (p.tokens.last() matches TokenModel::Text(x) ==> no_newline(x)),
    ensures
        spec_classify(p).0 == p,
        spec_bump(p) == p,
        ({
            let k = spec_classify(p).1;
            ||| k is Normal
            ||| k is StandAlone
            ||| (k matches TokenClassModel::WhiteSpace(x, pos) && pos == 0 && p.tokens == seq![TokenModel::Text(x)])
        }),
{
    assert(spec_bump(p) =~= p);
    let ts = p.tokens;
    if ts.len() > 0 {
        if let TokenModel::Text(x) = ts.last() {
            if x.len() > 0 {
                lemma_last_nl_or_non_ws_bound(x);
                if ts.len() == 1 {
                    assert(ts =~= seq![TokenModel::Text(x)]);
                }
            }
        }
    }
}

/// Removing the line of a standalone tag at the end of the input changes
/// nothing but the tokens.
proof fn lemma_eat_whitespace_end(p: PState)
    requires
        p.ch is None,
        p.lookahead is None,
        p.rest.len() == 0,
        p.tokens.len() > 0 ==> (p.tokens.last() matches TokenModel::Text(x) ==> no_newline(x)),
    ensures
        spec_eat_whitespace(p).0 == (PState { tokens: spec_eat_whitespace(p).0.tokens, ..p }),
        ({
            let k = spec_classify(p).1;
            ||| spec_eat_whitespace(p).0 == p
            ||| (k matches TokenClassModel::WhiteSpace(x, pos) && pos == 0 && p.tokens == seq![TokenModel::Text(x)]
                && spec_eat_whitespace(p).0.tokens == seq![TokenModel::Text(x.take(0))])
        }),
{
    lemma_classify_end(p);
    let k = spec_classify(p).1;
    if let TokenClassModel::WhiteSpace(x, pos) = k {
        assert(spec_eat_whitespace(p).0.tokens =~= seq![TokenModel::Text(x.take(0))]);
    }
}

proof fn lemma_part_no_newline(a: Seq<char>, x: Seq<char>, b: Seq<char>, s: Seq<char>)
    requires
        a + x + b == s,
        no_newline(s),
    ensures
        no_newline(x),
{
    assert forall|i: int| 0 <= i < x.len() implies x[i] != '\n' by {
        assert(s[a.len() + i] == x[i]);
    }
}

proof fn lemma_bump_unread(p: PState)
    requires
        p.ch is Some,
        p.lookahead is Some ==> p.ch is Some,
    ensures
        unread(spec_bump(p)) == unread(p).drop_first(),
        spec_bump(p).lookahead is None,
        spec_bump(p).ch is None ==> unread(spec_bump(p)).len() == 0,
{
    let q = spec_bump(p);
    assert(unread(q) =~= unread(p).drop_first());
}

proof fn lemma_open_sources_append(a: Seq<TokenModel>, b: Seq<TokenModel>)
    ensures
        open_sources(a + b) == open_sources(a) + open_sources(b),
    decreases b.len(),
{
    if b.len() == 0 {
        assert(a + b =~= a);
        assert(open_sources(a) + Seq::<char>::empty() =~= open_sources(a));
    } else {
        lemma_open_sources_append(a, b.drop_last());
        assert((a + b).drop_last() =~= a + b.drop_last());
        assert((a + b).last() == b.last());
        assert(open_sources(a) + open_sources(b.drop_last()) + open_source(b.last()) =~= open_sources(a) + (
        open_sources(b.drop_last()) + open_source(b.last())));
    }
}

/// Without open sections, the open sources are the sources.
proof fn lemma_open_sources_closed(ts: Seq<TokenModel>)
    requires
        forall|i: int| 0 <= i < ts.len() ==> !is_open(#[trigger] ts[i]),
    ensures
        open_sources(ts) == sources(ts),
    decreases ts.len(),
{
    if ts.len() > 0 {
        assert(!is_open(ts[ts.len() - 1]));
        lemma_open_sources_closed(ts.drop_last());
    }
}

/// Without open sections and indented partials, the open sources are what
/// the tokens stand for.
proof fn lemma_template_sources_closed(ts: Seq<TokenModel>)
    requires
        forall|i: int| 0 <= i < ts.len() ==> !is_open(#[trigger] ts[i]),
        forall|i: int|
            0 <= i < ts.len() ==> (#[trigger] ts[i] matches TokenModel::Partial(_, ind, _) ==> ind.len() == 0),
    ensures
        open_sources(ts) == template_sources(ts),
    decreases ts.len(),
{
    if ts.len() > 0 {
        assert(!is_open(ts[ts.len() - 1]));
        assert(ts[ts.len() - 1] == ts.last());
        if let TokenModel::Partial(_, ind, g) = ts.last() {
            assert(ind.len() == 0);
            assert(ind + g =~= g);
        }
        lemma_template_sources_closed(ts.drop_last());
    }
}


/// The last text token of a state that accounts for a text without
/// newlines has none either.
proof fn lemma_last_text_no_newline(ts: Seq<TokenModel>, rest: Seq<char>, s: Seq<char>)
    requires
        open_sources(ts) + rest == s,
        no_newline(s),
    ensures
        ts.len() > 0 ==> (ts.last() matches TokenModel::Text(x) ==> no_newline(x)),
{
    if ts.len() > 0 {
        if let TokenModel::Text(x) = ts.last() {
            assert(open_sources(ts) == open_sources(ts.drop_last()) + x);
            lemma_part_no_newline(open_sources(ts.drop_last()), x, rest, s);
        }
    }
}

/// Closing a section keeps the open sources, the closing tag after them.
proof fn lemma_close_sources(ts: Seq<TokenModel>, name: Seq<Seq<char>>, tag: Seq<char>, r: Seq<TokenModel>)
    requires
        close_section(ts, name, tag, default_otag(), default_ctag()) == Ok::<Seq<TokenModel>, ParseError>(r),
        partials_flat(ts),
    ensures
        open_sources(r) == open_sources(ts) + tag,
        partials_flat(r),
{
    lemma_last_open_none(ts);
    lemma_after_last_open(ts);
    let k = last_open(ts)->0;
    let children = ts.skip(k + 1);
    assert forall|i: int| 0 <= i < children.len() implies !is_open(#[trigger] children[i]) by {
        assert(children[i] == ts[k + 1 + i]);
    }
    lemma_open_sources_closed(children);
    assert(ts =~= ts.take(k) + seq![ts[k]] + children);
    lemma_open_sources_append(ts.take(k) + seq![ts[k]], children);
    lemma_open_sources_append(ts.take(k), seq![ts[k]]);
    assert(seq![ts[k]] =~= Seq::<TokenModel>::empty().push(ts[k]));
    lemma_open_sources_push(Seq::<TokenModel>::empty(), ts[k]);
    let sec = r.last();
    assert(r =~= ts.take(k).push(sec));
    lemma_open_sources_push(ts.take(k), sec);
    if let TokenModel::IncompleteSection(_, _, os, _) = ts[k] {
        assert(open_source(sec) == os + sources(children) + tag);
        assert(Seq::<char>::empty() + os =~= os);
        assert(open_sources(ts.take(k)) + (os + sources(children) + tag) =~= open_sources(ts.take(k)) + os
            + sources(children) + tag);
    }
    assert forall|i: int| 0 <= i < ts.take(k).len() implies (#[trigger] ts.take(k)[i] matches TokenModel::Partial(
        _,
        ind,
        _,
    ) ==> ind.len() == 0) by {
        assert(ts.take(k)[i] == ts[i]);
    }
    lemma_partials_flat_push(ts.take(k), sec);
}

/// Reading a tag (other than a comment or a delimiter change) keeps the
/// state accounting for the text, or, where the tag is the last thing in
/// the text, leads straight to tokens that account for it (or to an error).
proof fn lemma_add_tag(p: PState, s: Seq<char>, curly: bool)
    requires
        tracks(p, s),
        p.state == ParserState::CTAG,
        p.ch == Some('}'),
        no_newline(s),
        no_comment_or_delimiter_tag(s),
    ensures
        spec_add_tag(p) matches Ok(q) ==> ({
            let q2 = PState { state: ParserState::TEXT, ..q };
            ||| tracks(q2, s)
            ||| (spec_run(q2, curly) matches Ok(r) ==> r.state != ParserState::CTAG && template_sources(r.tokens) == s)
        }),
{
    let p0 = spec_bump(p);
    lemma_bump_unread(p);
    let content = p0.content;
    let tag = p0.otag + content + p0.ctag;
    let p1 = PState { content: Seq::empty(), ..p0 };
    let os = open_sources(p.tokens);
    let u = unread(p0);
    assert(unread(p)[0] == '}');
    assert(unread(p) =~= seq!['}'] + u);
    assert(p.ctag.take(1) =~= seq!['}']);
    assert(s =~= os + tag + u);
    lemma_part_no_newline(os + tag, u, Seq::empty(), s);
    assert(unread(p1) == u);
    if content.len() > 0 {
        assert(s[os.len() as int] == '{');
        assert(s[os.len() as int + 1] == '{');
        assert(s[os.len() as int + 2] == content[0]);
    }
    assert(os + (tag + u) =~= s);
    lemma_last_text_no_newline(p.tokens, tag + u, s);
    if let Ok(q) = spec_add_tag(p) {
        let q2 = PState { state: ParserState::TEXT, ..q };
        let len = content.len();
        if content[0] == '&' || content[0] == '{' || (content[0] != '#' && content[0] != '^' && content[0] != '/'
            && content[0] != '>') {
            let t = q.tokens.last();
            assert(q.tokens == p.tokens.push(t));
            lemma_open_sources_push(p.tokens, t);
            lemma_partials_flat_push(p.tokens, t);
            assert(tracks(q2, s));
        } else if content[0] == '#' || content[0] == '^' {
            let p2 = spec_eat_whitespace(p1).0;
            let t = q.tokens.last();
            if p1.ch is Some {
                lemma_classify_some(p1);
                assert(q.tokens == p.tokens.push(t));
                lemma_open_sources_push(p.tokens, t);
                lemma_partials_flat_push(p.tokens, t);
                assert(tracks(q2, s));
            } else {
                lemma_eat_whitespace_end(p1);
                assert(q2.ch is None);
                assert(q2.tokens.last() == t);
                assert(is_open(t));
                lemma_last_open_none(q2.tokens);
                assert(spec_add_text(q2) == q2);
                assert(spec_run(q2, curly) is Err);
            }
        } else if content[0] == '/' {
            let p2 = spec_eat_whitespace(p1).0;
            if p1.ch is Some {
                lemma_classify_some(p1);
                assert(p2.tokens == p.tokens);
            } else {
                lemma_eat_whitespace_end(p1);
                if p2.tokens != p.tokens {
                    lemma_last_open_none(p2.tokens);
                    assert(last_open(p2.tokens) is None);
                }
            }
            assert(p2.tokens == p.tokens);
            let n = spec_check_content(content.skip(1))->0;
            lemma_close_sources(p.tokens, crate::text::split_name(n), tag, q.tokens);
            assert(tracks(q2, s));
        } else {
            assert(content[0] == '>');
            let (c0, k) = spec_classify(p1);
            let r = apply_class(c0, k);
            let t = q.tokens.last();
            if p1.ch is Some {
                lemma_classify_some(p1);
                assert(q.tokens == p.tokens.push(t));
                lemma_open_sources_push(p.tokens, t);
                lemma_partials_flat_push(p.tokens, t);
                assert(tracks(q2, s));
            } else {
                lemma_classify_end(p1);
                if let TokenClassModel::WhiteSpace(x, pos) = k {
                    let ts = q2.tokens;
                    assert(ts =~= seq![TokenModel::Text(x.take(0)), t]);
                    assert(!is_open(ts[0]) && !is_open(ts[1]));
                    lemma_last_open_none(ts);
                    assert(spec_add_text(q2) == q2);
                    assert(ts.drop_last() =~= seq![TokenModel::Text(x.take(0))]);
                    assert(ts.drop_last().drop_last() =~= Seq::<TokenModel>::empty());
                    assert(os == x) by {
                        assert(p.tokens == seq![TokenModel::Text(x)]);
                        assert(p.tokens.drop_last() =~= Seq::<TokenModel>::empty());
                        assert(p.tokens.last() == TokenModel::Text(x));
                        assert(open_sources(p.tokens) == open_sources(p.tokens.drop_last()) + x);
                        assert(Seq::<char>::empty() + x =~= x);
                    }
                    assert(x.skip(0) =~= x);
                    assert(x.take(0) =~= Seq::<char>::empty());
                    assert(template_sources(ts.drop_last().drop_last()) == Seq::<char>::empty());
                    assert(ts.drop_last().last() == TokenModel::Text(x.take(0)));
                    assert(template_sources(ts.drop_last()) =~= Seq::<char>::empty());
                    assert(template_sources(ts) =~= x + tag);
                    assert(u.len() == 0);
                    assert(s =~= x + tag);
                } else {
                    assert(r == p1);
                    assert(q.tokens == p.tokens.push(t));
                    lemma_open_sources_push(p.tokens, t);
                    lemma_partials_flat_push(p.tokens, t);
                    assert(tracks(q2, s));
                }
            }
        }
    }
}


/// A bump after a step that accounts for the current character keeps the
/// state accounting for the text.
proof fn lemma_bump_tracks(x: PState, s: Seq<char>)
    requires
        x.otag == default_otag(),
        x.ctag == default_ctag(),
        (x.state == ParserState::OTAG || x.state == ParserState::CTAG) ==> x.tag_position == 1,
        x.lookahead is Some ==> x.ch is Some,
        x.ch is Some,
        partials_flat(x.tokens),
        open_sources(x.tokens) + pending(x) + unread(x).drop_first() == s,
    ensures
        tracks(spec_bump(x), s),
{
    lemma_bump_unread(x);
}

/// Every step but the reading of a tag keeps the state accounting for the text.
proof fn lemma_step_tracks(p: PState, c: char, curly: bool, s: Seq<char>)
    requires
        tracks(p, s),
        p.ch == Some(c),
        p.state != ParserState::CTAG,
    ensures
        spec_step(p, c, curly) matches Ok((q, _)) ==> tracks(q, s),
{
    let os = open_sources(p.tokens);
    let u = unread(p);
    assert(u[0] == c);
    assert(u =~= seq![c] + u.drop_first());
    let ud = u.drop_first();
    assert(p.otag[0] == '{' && p.otag[1] == '{' && p.ctag[0] == '}' && p.ctag[1] == '}');
    match p.state {
        ParserState::TEXT => {
            if c == '{' {
                let x = PState { tag_position: 1, state: ParserState::OTAG, ..p };
                assert(p.otag.take(1) =~= seq!['{']);
                assert(os + pending(x) + ud =~= os + p.content + u);
                lemma_bump_tracks(x, s);
            } else {
                let x = PState { content: p.content.push(c), ..p };
                assert(os + pending(x) + ud =~= os + p.content + u);
                lemma_bump_tracks(x, s);
            }
        },
        ParserState::OTAG => {
            assert(p.otag.take(1) =~= seq!['{']);
            if c == '{' {
                let a = spec_add_text(p);
                let x = PState { state: ParserState::TAG, ..a };
                if p.content.len() > 0 {
                    lemma_open_sources_push(p.tokens, TokenModel::Text(p.content));
                    lemma_partials_flat_push(p.tokens, TokenModel::Text(p.content));
                    assert(open_sources(x.tokens) + pending(x) + ud =~= os + (p.content + seq!['{']) + u);
                } else {
                    assert(open_sources(x.tokens) + pending(x) + ud =~= os + (p.content + seq!['{']) + u);
                }
                lemma_bump_tracks(x, s);
            } else {
                let x = PState { state: ParserState::TEXT, content: p.content + p.otag.take(1) + seq![c], ..p };
                assert(os + pending(x) + ud =~= os + (p.content + seq!['{']) + u);
                lemma_bump_tracks(x, s);
            }
        },
        ParserState::TAG => {
            if (p.content.len() == 0 && c == '{') || (curly && c == '}') || c != '}' {
                let x = PState { content: p.content.push(c), ..p };
                assert(os + pending(x) + ud =~= os + (p.otag + p.content) + u);
                lemma_bump_tracks(x, s);
            } else {
                let x = PState { tag_position: 1, state: ParserState::CTAG, ..p };
                assert(p.ctag.take(1) =~= seq!['}']);
                assert(os + pending(x) + ud =~= os + (p.otag + p.content) + u);
                lemma_bump_tracks(x, s);
            }
        },
        ParserState::CTAG => {},
    }
}


/// Whether `s` has no `{{{`: it has no triple tags.
pub open spec fn no_triple_brace(s: Seq<char>) -> bool {
    forall|i: int| 0 <= i && i + 2 < s.len() && #[trigger] s[i] == '{' && s[i + 1] == '{' ==> s[i + 2] != '{'
}

/// Outside a triple tag, the content of a tag being read holds no `}`.
spec fn braces_ok(p: PState, curly: bool) -> bool {
    &&& !curly
    &&& (p.state == ParserState::TAG || p.state == ParserState::CTAG) ==> forall|i: int|
        0 <= i < p.content.len() ==> #[trigger] p.content[i] != '}'
}

/// In a text without `{{{`, no step opens a triple tag, and a tag's
/// content never takes a `}`.
proof fn lemma_step_braces(p: PState, c: char, curly: bool, s: Seq<char>)
    requires
        tracks(p, s),
        p.ch == Some(c),
        p.state != ParserState::CTAG,
        no_triple_brace(s),
        braces_ok(p, curly),
    ensures
        spec_step(p, c, curly) matches Ok((q, k)) ==> braces_ok(q, k),
{
    let os = open_sources(p.tokens);
    let u = unread(p);
    assert(u[0] == c);
    if p.state == ParserState::TAG && p.content.len() == 0 && c == '{' {
        assert(pending(p) =~= seq!['{', '{']);
        assert(s[os.len() as int] == '{');
        assert(s[os.len() as int + 1] == '{');
        assert(s[os.len() as int + 2] == c);
    }
    if let Ok((q, k)) = spec_step(p, c, curly) {
        if q.state == ParserState::TAG && p.state == ParserState::TAG {
            assert forall|i: int| 0 <= i < q.content.len() implies #[trigger] q.content[i] != '}' by {
                if i < p.content.len() {
                    assert(q.content[i] == p.content[i]);
                }
            }
        }
    }
}

/// A run from a state that accounts for the text ends, where it succeeds,
/// with tokens that stand for the text, unless it ends inside a closing
/// delimiter, which only a text ending in `}` can.
proof fn lemma_run(p: PState, curly: bool, s: Seq<char>)
    requires
        tracks(p, s),
        no_newline(s),
        no_comment_or_delimiter_tag(s),
        no_triple_brace(s) ==> braces_ok(p, curly),
    ensures
        spec_run(p, curly) matches Ok(r) ==> {
            &&& r.state != ParserState::CTAG ==> template_sources(r.tokens) == s
            &&& r.state == ParserState::CTAG ==> s.len() > 0 && s.last() == '}'
            &&& r.state == ParserState::CTAG && no_triple_brace(s) ==> s.len() >= 2 && s[s.len() - 2] != '}'
        },
    decreases measure(p),
{
    let os = open_sources(p.tokens);
    match p.ch {
        None => {
            assert(unread(p) =~= Seq::<char>::empty());
            assert(os + pending(p) =~= s);
            if let Ok(r) = spec_finish(p) {
                lemma_last_open_none(r.tokens);
                if p.state == ParserState::CTAG {
                    assert(pending(p).last() == '}');
                    assert(s.last() == pending(p).last());
                    let pd = pending(p);
                    assert(pd =~= p.otag + p.content + seq!['}']);
                    assert(s[s.len() - 2] == pd[pd.len() - 2]);
                    if p.content.len() > 0 {
                        assert(pd[pd.len() - 2] == p.content[p.content.len() - 1]);
                    } else {
                        assert(pd[pd.len() - 2] == '{');
                    }
                } else {
                    let text = match p.state {
                        ParserState::OTAG => p.content + p.otag.take(p.tag_position as int),
                        _ => p.content,
                    };
                    assert(text == pending(p));
                    if text.len() > 0 {
                        lemma_open_sources_push(p.tokens, TokenModel::Text(text));
                        lemma_partials_flat_push(p.tokens, TokenModel::Text(text));
                    } else {
                        assert(os + text =~= os);
                    }
                    assert(open_sources(r.tokens) == s);
                    lemma_template_sources_closed(r.tokens);
                }
            }
        },
        Some(c) => {
            lemma_step_decreases(p, c, curly);
            if let Ok((q, k)) = spec_step(p, c, curly) {
                if p.state == ParserState::CTAG {
                    assert(c == '}');
                    lemma_add_tag(p, s, curly);
                    if tracks(q, s) {
                        lemma_run(q, k, s);
                    }
                } else {
                    lemma_step_tracks(p, c, curly, s);
                    if no_triple_brace(s) {
                        lemma_step_braces(p, c, curly, s);
                    }
                    lemma_run(q, k, s);
                }
            }
        },
    }
}

/// The state just before the first character of a text accounts for it.
proof fn lemma_start_tracks(s: Seq<char>)
    ensures
        tracks(spec_bump(initial_state(s, default_otag(), default_ctag())), s),
{
    let p = initial_state(s, default_otag(), default_ctag());
    let q = spec_bump(p);
    assert(open_sources(Seq::<TokenModel>::empty()) == Seq::<char>::empty());
    assert(unread(q) =~= s);
    assert(Seq::<char>::empty() + Seq::<char>::empty() + s =~= s);
}

/// A template without newlines, comments or delimiter changes, compiled
/// with the default delimiters: where compiling succeeds without ending
/// inside a closing delimiter, the texts its tokens stand for (each
/// token's source, a partial's after the indentation it took over) give the
/// template back; compiling can end inside a closing delimiter only where
/// the template ends in `}`.
pub proof fn law_compiled_sources_give_back_template(s: Seq<char>)
    requires
        no_newline(s),
        no_comment_or_delimiter_tag(s),
    ensures
        spec_run(spec_bump(initial_state(s, default_otag(), default_ctag())), false) matches Ok(r) ==> {
            &&& r.state != ParserState::CTAG ==> template_sources(r.tokens) == s
            &&& r.state == ParserState::CTAG ==> s.len() > 0 && s.last() == '}'
            &&& r.state == ParserState::CTAG && no_triple_brace(s) ==> s.len() >= 2 && s[s.len() - 2] != '}'
        },
{
    lemma_start_tracks(s);
    lemma_run(spec_bump(initial_state(s, default_otag(), default_ctag())), false, s);
}

/// A template without newlines, comments or delimiter changes that does
/// not end in `}`, or ends in `}}` and has no triple tag: the tokens it
/// compiles to, where it compiles, stand for the whole template, one after
/// another.
pub proof fn law_tokens_give_back_template(s: Seq<char>)
    requires
        no_newline(s),
        no_comment_or_delimiter_tag(s),
        s.len() == 0 || s.last() != '}' || (no_triple_brace(s) && s.len() >= 2 && s[s.len() - 2] == '}'),
    ensures
        spec_tokenize(s, default_otag(), default_ctag()) matches Ok((ts, _)) ==> template_sources(ts) == s,
{
    law_compiled_sources_give_back_template(s);
}


/// The template `{{#a}}x{{/a}}`, or `{{^a}}x{{/a}}` where `inverted`.
pub open spec fn section_template(inverted: bool, x: Seq<char>) -> Seq<char> {
    section_open_tag(inverted) + x + section_close_tag()
}

pub open spec fn section_open_tag(inverted: bool) -> Seq<char> {
    seq!['{', '{', if inverted { '^' } else { '#' }, 'a', '}', '}']
}

pub open spec fn section_close_tag() -> Seq<char> {
    seq!['{', '{', '/', 'a', '}', '}']
}

/// The name `a` as a tag's name.
pub open spec fn name_a() -> Seq<Seq<char>> {
    crate::text::split_name(crate::text::trim(seq!['a']))
}

/// The section that `section_template(inverted, x)` compiles to.
pub open spec fn section_token(inverted: bool, x: Seq<char>) -> TokenModel {
    TokenModel::Section(
        name_a(),
        inverted,
        seq![TokenModel::Text(x)],
        default_otag(),
        section_open_tag(inverted),
        x,
        section_close_tag(),
        default_ctag(),
    )
}

proof fn lemma_trim_a()
    ensures
        crate::text::trim(seq!['a']) == seq!['a'],
{
    let a = seq!['a'];
    assert(!crate::text::is_ws('a'));
    assert(crate::text::trim_start(a) == a);
    assert(a.last() == 'a');
    assert(crate::text::trim_end(a) == a);
}

/// Running over text that holds no `{` gathers it and stops at the next `{`.
proof fn lemma_plain_steps(p: PState, x: Seq<char>, tail: Seq<char>, curly: bool)
    requires
        p.state == ParserState::TEXT,
        p.otag == default_otag(),
        p.ch is Some,
        p.lookahead is Some ==> p.ch is Some,
        unread(p) == x + tail,
        x.len() > 0,
        tail.len() > 0,
        forall|i: int| 0 <= i < x.len() ==> x[i] != '{',
    ensures
        spec_run(p, curly) == spec_run(
            PState {
                ch: Some(tail[0]),
                lookahead: None,
                rest: tail.drop_first(),
                content: p.content + x,
                ..p
            },
            curly,
        ),
    decreases x.len(),
{
    let c = x[0];
    assert(unread(p)[0] == c);
    let y = PState { content: p.content.push(c), ..p };
    let q = spec_bump(y);
    assert(spec_step(p, c, curly) == Ok::<(PState, bool), ParseError>((q, curly)));
    lemma_bump_unread(y);
    assert(unread(y) == unread(p));
    assert(unread(q) =~= x.drop_first() + tail);
    if x.len() == 1 {
        assert(x.drop_first() + tail =~= tail);
        assert(q.ch is Some);
        assert(unread(q) == seq![q.ch->0] + q.rest);
        assert(q.ch == Some(tail[0]));
        assert(q.rest =~= tail.drop_first());
        assert(p.content.push(c) =~= p.content + x);
        assert(q == (PState { ch: Some(tail[0]), lookahead: None, rest: tail.drop_first(), content: p.content + x, ..p }));
    } else {
        assert(q.ch is Some);
        lemma_plain_steps(q, x.drop_first(), tail, curly);
        assert(p.content.push(c) + x.drop_first() =~= p.content + x);
    }
}


spec fn open_inc(inverted: bool) -> TokenModel {
    TokenModel::IncompleteSection(name_a(), inverted, section_open_tag(inverted), false)
}

/// The state before the last `}` of the opening tag.
spec fn state_opened(inverted: bool, x: Seq<char>) -> PState {
    PState {
        rest: section_template(inverted, x).skip(6),
        ch: Some('}'),
        lookahead: None,
        content: seq![if inverted { '^' } else { '#' }, 'a'],
        state: ParserState::CTAG,
        otag: default_otag(),
        ctag: default_ctag(),
        tag_position: 1,
        tokens: Seq::empty(),
        partials: Seq::empty(),
    }
}

/// The state at the first `{` of the closing tag.
spec fn state_texted(inverted: bool, x: Seq<char>) -> PState {
    PState {
        rest: section_close_tag().drop_first(),
        ch: Some('{'),
        lookahead: None,
        content: x,
        state: ParserState::TEXT,
        otag: default_otag(),
        ctag: default_ctag(),
        tag_position: 1,
        tokens: seq![open_inc(inverted)],
        partials: Seq::empty(),
    }
}

proof fn lemma_section_open(inverted: bool, x: Seq<char>)
    requires
        x.len() > 0,
    ensures
        spec_run(spec_bump(initial_state(section_template(inverted, x), default_otag(), default_ctag())), false)
            == spec_run(state_opened(inverted, x), false),
{
    let o = default_otag();
    let c = default_ctag();
    let op = if inverted { '^' } else { '#' };
    let t = section_template(inverted, x);
    assert(t[0] == '{' && t[1] == '{' && t[2] == op && t[3] == 'a' && t[4] == '}' && t[5] == '}');
    let p0 = PState {
        rest: t.skip(1),
        ch: Some('{'),
        lookahead: None,
        content: Seq::empty(),
        state: ParserState::TEXT,
        otag: o,
        ctag: c,
        tag_position: 0,
        tokens: Seq::empty(),
        partials: Seq::empty(),
    };
    assert(t.drop_first() =~= t.skip(1));
    assert(spec_bump(initial_state(t, o, c)) == p0);
    let p1 = PState { rest: t.skip(2), ch: Some('{'), tag_position: 1, state: ParserState::OTAG, ..p0 };
    assert(t.skip(1)[0] == '{');
    assert(t.skip(1).drop_first() =~= t.skip(2));
    assert(spec_step(p0, '{', false) == Ok::<(PState, bool), ParseError>((p1, false)));
    assert(spec_run(p0, false) == spec_run(p1, false));
    let p2 = PState { rest: t.skip(3), ch: Some(op), state: ParserState::TAG, ..p1 };
    assert(t.skip(2)[0] == op);
    assert(t.skip(2).drop_first() =~= t.skip(3));
    assert(spec_step(p1, '{', false) == Ok::<(PState, bool), ParseError>((p2, false)));
    assert(spec_run(p1, false) == spec_run(p2, false));
    let p3 = PState { rest: t.skip(4), ch: Some('a'), content: seq![op], ..p2 };
    assert(t.skip(3)[0] == 'a');
    assert(t.skip(3).drop_first() =~= t.skip(4));
    assert(Seq::<char>::empty().push(op) =~= seq![op]);
    assert(spec_step(p2, op, false) == Ok::<(PState, bool), ParseError>((p3, false)));
    assert(spec_run(p2, false) == spec_run(p3, false));
    let p4 = PState { rest: t.skip(5), ch: Some('}'), content: seq![op, 'a'], ..p3 };
    assert(t.skip(4)[0] == '}');
    assert(t.skip(4).drop_first() =~= t.skip(5));
    assert(seq![op].push('a') =~= seq![op, 'a']);
    assert(spec_step(p3, 'a', false) == Ok::<(PState, bool), ParseError>((p4, false)));
    assert(spec_run(p3, false) == spec_run(p4, false));
    assert(t.skip(5)[0] == '}');
    assert(t.skip(5).drop_first() =~= t.skip(6));
    assert(spec_step(p4, '}', false) == Ok::<(PState, bool), ParseError>((state_opened(inverted, x), false)));
    assert(spec_run(p4, false) == spec_run(state_opened(inverted, x), false));
}

#[verifier::rlimit(40)]
proof fn lemma_section_read_open_tag(inverted: bool, x: Seq<char>)
    requires
        x.len() > 0,
        forall|i: int| 0 <= i < x.len() ==> x[i] != '{' && x[i] != '\n',
    ensures
        spec_run(state_opened(inverted, x), false) == spec_run(state_texted(inverted, x), false),
{
    let o = default_otag();
    let c = default_ctag();
    let op = if inverted { '^' } else { '#' };
    let close = section_close_tag();
    let t = section_template(inverted, x);
    let n = x.len();
    let p5 = state_opened(inverted, x);
    let b5 = spec_bump(p5);
    assert(t.skip(6) =~= x + close);
    assert(b5.ch == Some(x[0]));
    let content = seq![op, 'a'];
    assert(o + content + c =~= section_open_tag(inverted));
    let p1x = PState { content: Seq::empty(), ..b5 };
    assert(unread(p1x) =~= x + close);
    assert(no_newline(x + close)) by {
        assert forall|i: int| 0 <= i < (x + close).len() implies (x + close)[i] != '\n' by {
            if i < n {
                assert((x + close)[i] == x[i]);
            } else {
                assert((x + close)[i] == close[i - n]);
            }
        }
    }
    lemma_classify_some(p1x);
    let q6 = spec_eat_whitespace(p1x).0;
    lemma_trim_a();
    assert(content.skip(1) =~= seq!['a']);
    let inc = open_inc(inverted);
    assert(Seq::<TokenModel>::empty().push(inc) =~= seq![inc]);
    let p6 = PState { state: ParserState::TEXT, tokens: seq![inc], ..q6 };
    assert(spec_step(p5, '}', false) == Ok::<(PState, bool), ParseError>((p6, false)));
    assert(unread(p6) == x + close);
    assert forall|i: int| 0 <= i < x.len() implies x[i] != '{' by {}
    lemma_plain_steps(p6, x, close, false);
    assert(p6.content + x =~= x);
    assert((PState { ch: Some(close[0]), lookahead: None, rest: close.drop_first(), content: p6.content + x, ..p6 })
        == state_texted(inverted, x));
}

#[verifier::rlimit(40)]
proof fn lemma_section_read_close_tag(inverted: bool, x: Seq<char>)
    requires
        x.len() > 0,
        forall|i: int| 0 <= i < x.len() ==> x[i] != '{' && x[i] != '\n',
    ensures
        spec_run(state_texted(inverted, x), false) matches Ok(r) && r.tokens == seq![section_token(inverted, x)]
            && r.partials == Seq::<Seq<char>>::empty(),
{
    let o = default_otag();
    let c = default_ctag();
    let close = section_close_tag();
    let inc = open_inc(inverted);
    let p7 = state_texted(inverted, x);
    let p8 = PState { ch: Some('{'), rest: close.skip(2), tag_position: 1, state: ParserState::OTAG, ..p7 };
    assert(close.drop_first()[0] == '{');
    assert(close.drop_first().drop_first() =~= close.skip(2));
    assert(spec_step(p7, '{', false) == Ok::<(PState, bool), ParseError>((p8, false)));
    assert(spec_run(p7, false) == spec_run(p8, false));
    let txt = TokenModel::Text(x);
    let p9 = PState { ch: Some('/'), rest: close.skip(3), state: ParserState::TAG, tokens: seq![inc, txt], content: Seq::empty(), ..p8 };
    assert(close.skip(2)[0] == '/');
    assert(close.skip(2).drop_first() =~= close.skip(3));
    assert(seq![inc].push(txt) =~= seq![inc, txt]);
    assert(spec_step(p8, '{', false) == Ok::<(PState, bool), ParseError>((p9, false)));
    assert(spec_run(p8, false) == spec_run(p9, false));
    let p10 = PState { ch: Some('a'), rest: close.skip(4), content: seq!['/'], ..p9 };
    assert(close.skip(3)[0] == 'a');
    assert(close.skip(3).drop_first() =~= close.skip(4));
    assert(Seq::<char>::empty().push('/') =~= seq!['/']);
    assert(spec_step(p9, '/', false) == Ok::<(PState, bool), ParseError>((p10, false)));
    assert(spec_run(p9, false) == spec_run(p10, false));
    let p11 = PState { ch: Some('}'), rest: close.skip(5), content: seq!['/', 'a'], ..p10 };
    assert(close.skip(4)[0] == '}');
    assert(close.skip(4).drop_first() =~= close.skip(5));
    assert(seq!['/'].push('a') =~= seq!['/', 'a']);
    assert(spec_step(p10, 'a', false) == Ok::<(PState, bool), ParseError>((p11, false)));
    assert(spec_run(p10, false) == spec_run(p11, false));
    let p12 = PState { ch: Some('}'), rest: close.skip(6), tag_position: 1, state: ParserState::CTAG, ..p11 };
    assert(close.skip(5)[0] == '}');
    assert(close.skip(5).drop_first() =~= close.skip(6));
    assert(spec_step(p11, '}', false) == Ok::<(PState, bool), ParseError>((p12, false)));
    assert(spec_run(p11, false) == spec_run(p12, false));
    assert(close.skip(6) =~= Seq::<char>::empty());
    lemma_close_step(inverted, x, p12);
}

#[verifier::rlimit(40)]
proof fn lemma_close_step(inverted: bool, x: Seq<char>, p12: PState)
    requires
        x.len() > 0,
        forall|i: int| 0 <= i < x.len() ==> x[i] != '{' && x[i] != '\n',
        p12 == (PState {
            rest: Seq::empty(),
            ch: Some('}'),
            lookahead: None,
            content: seq!['/', 'a'],
            state: ParserState::CTAG,
            otag: default_otag(),
            ctag: default_ctag(),
            tag_position: 1,
            tokens: seq![open_inc(inverted), TokenModel::Text(x)],
            partials: Seq::empty(),
        }),
    ensures
        spec_run(p12, false) matches Ok(r) && r.tokens == seq![section_token(inverted, x)]
            && r.partials == Seq::<Seq<char>>::empty(),
{
    let o = default_otag();
    let c = default_ctag();
    let close = section_close_tag();
    let inc = open_inc(inverted);
    let txt = TokenModel::Text(x);
    let b12 = spec_bump(p12);
    assert(b12.ch is None);
    let p1y = PState { content: Seq::empty(), ..b12 };
    assert(o + seq!['/', 'a'] + c =~= close);
    assert(seq!['/', 'a'].skip(1) =~= seq!['a']);
    lemma_trim_a();
    lemma_classify_end(p1y);
    assert(seq![inc, txt].last() == txt);
    lemma_last_nl_or_non_ws_bound(x);
    assert(spec_eat_whitespace(p1y).0 == p1y);
    let sec = section_token(inverted, x);
    assert(last_open(seq![inc, txt]) == Some(0int)) by {
        assert(seq![inc, txt].drop_last() =~= seq![inc]);
        assert(seq![inc].last() == inc);
        assert(is_open(inc));
        assert(!is_open(txt));
        assert(last_open(seq![inc]) == Some(0int));
    }
    assert(seq![inc, txt].skip(1) =~= seq![txt]);
    assert(sources(seq![txt]) =~= x) by {
        assert(seq![txt].drop_last() =~= Seq::<TokenModel>::empty());
        assert(sources(Seq::<TokenModel>::empty()) == Seq::<char>::empty());
        assert(seq![txt].last() == txt);
        assert(Seq::<char>::empty() + x =~= x);
    }
    assert(seq![inc, txt].take(0).push(sec) =~= seq![sec]);
    let p13 = PState { state: ParserState::TEXT, tokens: seq![sec], ..p1y };
    assert(spec_step(p12, '}', false) == Ok::<(PState, bool), ParseError>((p13, false)));
    assert(last_open(seq![sec]) is None) by {
        assert(seq![sec].drop_last() =~= Seq::<TokenModel>::empty());
        assert(last_open(Seq::<TokenModel>::empty()) is None);
        assert(seq![sec].last() == sec);
        assert(!is_open(sec));
    }
    assert(spec_add_text(p13) == p13);
    assert(spec_run(p13, false) == Ok::<PState, ParseError>(p13));
}

/// `{{#a}}x{{/a}}` (or `{{^a}}x{{/a}}`), for a nonempty `x` without `{`
/// or newlines, compiles to one section named `a` whose only child is the
/// text `x`, and refers to no partial.
pub proof fn law_section_template_compiles(inverted: bool, x: Seq<char>)
    requires
        x.len() > 0,
        forall|i: int| 0 <= i < x.len() ==> x[i] != '{' && x[i] != '\n',
    ensures
        spec_tokenize(section_template(inverted, x), default_otag(), default_ctag()) == Ok::<
            (Seq<TokenModel>, Seq<Seq<char>>),
            ParseError,
        >((seq![section_token(inverted, x)], Seq::empty())),
{
    lemma_section_open(inverted, x);
    lemma_section_read_open_tag(inverted, x);
    lemma_section_read_close_tag(inverted, x);
}


/// What a run leaves: the tokens and partial names, or the error.
spec fn run_out(r: Result<PState, ParseError>) -> Result<(Seq<TokenModel>, Seq<Seq<char>>), ParseError> {
    match r {
        Ok(q) => Ok((q.tokens, q.partials)),
        Err(e) => Err(e),
    }
}

/// Outside a delimiter, how far a delimiter had matched before does not
/// change what a run leaves.
proof fn lemma_run_tag_position(p: PState, q: PState, curly: bool)
    requires
        q == (PState { tag_position: q.tag_position, ..p }),
        p.state == ParserState::TEXT || p.state == ParserState::TAG,
        p.otag.len() > 1,
        p.ctag.len() > 1,
    ensures
        run_out(spec_run(p, curly)) == run_out(spec_run(q, curly)),
    decreases measure(p),
{
    if let Some(c) = p.ch {
        lemma_step_decreases(p, c, curly);
        if let Ok((p2, k)) = spec_step(p, c, curly) {
            let (q2, k2) = spec_step(q, c, curly)->Ok_0;
            assert(k2 == k);
            if p2 != q2 {
                lemma_run_tag_position(p2, q2, k);
            }
        }
    }
}

/// In a tag, characters other than braces are gathered into its content.
proof fn lemma_tag_steps(p: PState, y: Seq<char>, tail: Seq<char>)
    requires
        p.state == ParserState::TAG,
        p.ctag == default_ctag(),
        p.ch is Some,
        p.lookahead is None,
        unread(p) == y + tail,
        y.len() > 0,
        tail.len() > 0,
        forall|i: int| 0 <= i < y.len() ==> y[i] != '{' && y[i] != '}',
    ensures
        spec_run(p, false) == spec_run(
            PState { ch: Some(tail[0]), lookahead: None, rest: tail.drop_first(), content: p.content + y, ..p },
            false,
        ),
    decreases y.len(),
{
    let c = y[0];
    assert(unread(p)[0] == c);
    let x = PState { content: p.content.push(c), ..p };
    let q = spec_bump(x);
    assert(spec_step(p, c, false) == Ok::<(PState, bool), ParseError>((q, false)));
    lemma_bump_unread(x);
    assert(unread(x) == unread(p));
    assert(unread(q) =~= y.drop_first() + tail);
    if y.len() == 1 {
        assert(y.drop_first() + tail =~= tail);
        assert(unread(q) == seq![q.ch->0] + q.rest);
        assert(q.rest =~= tail.drop_first());
        assert(p.content.push(c) =~= p.content + y);
        assert(q == (PState { ch: Some(tail[0]), lookahead: None, rest: tail.drop_first(), content: p.content + y, ..p }));
    } else {
        lemma_tag_steps(q, y.drop_first(), tail);
        assert(p.content.push(c) + y.drop_first() =~= p.content + y);
    }
}

/// The template `{{` + y + `}}` + rest.
pub open spec fn leading_tag(y: Seq<char>, rest: Seq<char>) -> Seq<char> {
    seq!['{', '{'] + y + seq!['}', '}'] + rest
}

/// Reading a leading tag `{{y}}` brings the tokenizer to its last `}`,
/// with `y` gathered.
proof fn lemma_leading_tag(y: Seq<char>, rest: Seq<char>)
    requires
        y.len() > 0,
        forall|i: int| 0 <= i < y.len() ==> y[i] != '{' && y[i] != '}',
    ensures
        spec_run(spec_bump(initial_state(leading_tag(y, rest), default_otag(), default_ctag())), false) == spec_run(
            PState {
                rest: rest,
                ch: Some('}'),
                lookahead: None,
                content: y,
                state: ParserState::CTAG,
                otag: default_otag(),
                ctag: default_ctag(),
                tag_position: 1,
                tokens: Seq::empty(),
                partials: Seq::empty(),
            },
            false,
        ),
{
    let o = default_otag();
    let c = default_ctag();
    let t = leading_tag(y, rest);
    let n = y.len();
    assert(t[0] == '{' && t[1] == '{');
    let p0 = PState {
        rest: t.skip(1),
        ch: Some('{'),
        lookahead: None,
        content: Seq::empty(),
        state: ParserState::TEXT,
        otag: o,
        ctag: c,
        tag_position: 0,
        tokens: Seq::empty(),
        partials: Seq::empty(),
    };
    assert(t.drop_first() =~= t.skip(1));
    assert(spec_bump(initial_state(t, o, c)) == p0);
    let p1 = PState { rest: t.skip(2), ch: Some('{'), tag_position: 1, state: ParserState::OTAG, ..p0 };
    assert(t.skip(1)[0] == '{');
    assert(t.skip(1).drop_first() =~= t.skip(2));
    assert(spec_step(p0, '{', false) == Ok::<(PState, bool), ParseError>((p1, false)));
    assert(spec_run(p0, false) == spec_run(p1, false));
    let p2 = PState { rest: t.skip(3), ch: Some(y[0]), state: ParserState::TAG, ..p1 };
    assert(t.skip(2)[0] == y[0]);
    assert(t.skip(2).drop_first() =~= t.skip(3));
    assert(spec_step(p1, '{', false) == Ok::<(PState, bool), ParseError>((p2, false)));
    assert(spec_run(p1, false) == spec_run(p2, false));
    let tail = seq!['}', '}'] + rest;
    assert(unread(p2) =~= y + tail);
    lemma_tag_steps(p2, y, tail);
    let p3 = PState { ch: Some(tail[0]), lookahead: None, rest: tail.drop_first(), content: p2.content + y, ..p2 };
    assert(p2.content + y =~= y);
    assert(tail.drop_first() =~= seq!['}'] + rest);
    let p4 = PState { rest: rest, ch: Some('}'), tag_position: 1, state: ParserState::CTAG, content: y, ..p3 };
    assert((seq!['}'] + rest)[0] == '}');
    assert((seq!['}'] + rest).drop_first() =~= rest);
    assert(spec_step(p3, '}', false) == Ok::<(PState, bool), ParseError>((p4, false)));
    assert(spec_run(p3, false) == spec_run(p4, false));
}


/// The state after a leading tag that stands alone on its line and has
/// been read, its line removed, before `b`.
spec fn after_leading_line(b: Seq<char>, otag: Seq<char>, ctag: Seq<char>) -> PState {
    PState {
        rest: if b.len() > 0 { b.drop_first() } else { b },
        ch: if b.len() > 0 { Some(b[0]) } else { None },
        lookahead: None,
        content: Seq::empty(),
        state: ParserState::TEXT,
        otag,
        ctag,
        tag_position: 1,
        tokens: Seq::empty(),
        partials: Seq::empty(),
    }
}

/// Compiling from that state leaves what compiling `b` alone leaves.
proof fn lemma_after_leading_line(b: Seq<char>, otag: Seq<char>, ctag: Seq<char>)
    requires
        otag.len() > 1,
        ctag.len() > 1,
    ensures
        run_out(spec_run(after_leading_line(b, otag, ctag), false)) == spec_tokenize(b, otag, ctag),
{
    let s0 = spec_bump(initial_state(b, otag, ctag));
    assert(after_leading_line(b, otag, ctag) == (PState { tag_position: 1, ..s0 }));
    lemma_run_tag_position(s0, after_leading_line(b, otag, ctag), false);
}

/// A comment that stands alone on the first line leaves no trace: the
/// template `{{!x}}` + newline + `b` compiles to what `b` alone compiles to,
/// for every `b` and every comment text `x` without braces.
pub proof fn law_standalone_comment_leaves_no_trace(x: Seq<char>, b: Seq<char>)
    requires
        forall|i: int| 0 <= i < x.len() ==> x[i] != '{' && x[i] != '}',
    ensures
        spec_tokenize(leading_tag(seq!['!'] + x, seq!['\n'] + b), default_otag(), default_ctag()) == spec_tokenize(
            b,
            default_otag(),
            default_ctag(),
        ),
{
    let o = default_otag();
    let c = default_ctag();
    let y = seq!['!'] + x;
    assert forall|i: int| 0 <= i < y.len() implies y[i] != '{' && y[i] != '}' by {
        if i > 0 {
            assert(y[i] == x[i - 1]);
        }
    }
    let rest = seq!['\n'] + b;
    lemma_leading_tag(y, rest);
    let p4 = PState {
        rest: rest,
        ch: Some('}'),
        lookahead: None,
        content: y,
        state: ParserState::CTAG,
        otag: o,
        ctag: c,
        tag_position: 1,
        tokens: Seq::empty(),
        partials: Seq::empty(),
    };
    let p0 = spec_bump(p4);
    assert(rest[0] == '\n');
    assert(rest.drop_first() =~= b);
    assert(p0.ch == Some('\n'));
    let p1 = PState { content: Seq::empty(), ..p0 };
    assert(y[0] == '!');
    assert(spec_classify(p1) == (p1, TokenClassModel::StandAlone));
    let q = spec_eat_whitespace(p1).0;
    assert(q == spec_bump(p1));
    assert(spec_add_tag(p4) == Ok::<PState, ParseError>(q));
    let s = after_leading_line(b, o, c);
    assert(PState { state: ParserState::TEXT, ..q } == s);
    assert(spec_step(p4, '}', false) == Ok::<(PState, bool), ParseError>((s, false)));
    assert(spec_run(p4, false) == spec_run(s, false));
    lemma_after_leading_line(b, o, c);
}

/// The delimiters `<%` and `%>`.
pub open spec fn angle_otag() -> Seq<char> {
    seq!['<', '%']
}

pub open spec fn angle_ctag() -> Seq<char> {
    seq!['%', '>']
}

/// A delimiter change that stands alone on the first line leaves no trace
/// but the new delimiters: the template `{{=<% %>=}}` + newline + `b`
/// compiles to what `b` alone compiles to with the delimiters `<%` and
/// `%>`, for every `b`.
pub proof fn law_standalone_delimiter_change(b: Seq<char>)
    ensures
        spec_tokenize(
            leading_tag(seq!['=', '<', '%', ' ', '%', '>', '='], seq!['\n'] + b),
            default_otag(),
            default_ctag(),
        ) == spec_tokenize(b, angle_otag(), angle_ctag()),
{
    let o = default_otag();
    let c = default_ctag();
    let y = seq!['=', '<', '%', ' ', '%', '>', '='];
    let rest = seq!['\n'] + b;
    lemma_leading_tag(y, rest);
    let p4 = PState {
        rest: rest,
        ch: Some('}'),
        lookahead: None,
        content: y,
        state: ParserState::CTAG,
        otag: o,
        ctag: c,
        tag_position: 1,
        tokens: Seq::empty(),
        partials: Seq::empty(),
    };
    let p0 = spec_bump(p4);
    assert(rest[0] == '\n');
    assert(rest.drop_first() =~= b);
    let p1 = PState { content: Seq::empty(), ..p0 };
    assert(spec_classify(p1) == (p1, TokenClassModel::StandAlone));
    let q = spec_eat_whitespace(p1).0;
    assert(q == spec_bump(p1));
    // the delimiters
    let inner = y.subrange(1, 6);
    assert(inner =~= seq!['<', '%', ' ', '%', '>']);
    assert(!crate::text::is_ws('<') && !crate::text::is_ws('>') && !crate::text::is_ws('%') && crate::text::is_ws(' '));
    assert(crate::text::trim_start(inner) == inner);
    assert(inner.last() == '>');
    assert(crate::text::trim_end(inner) == inner);
    assert(spec_check_content(inner) == Some(inner));
    assert(inner.drop_first() =~= seq!['%', ' ', '%', '>']);
    assert(inner.drop_first().drop_first() =~= seq![' ', '%', '>']);
    assert(crate::text::first_ws(seq![' ', '%', '>']) == Some(0int));
    assert(crate::text::first_ws(inner.drop_first()) == Some(1int));
    assert(crate::text::first_ws(inner) == Some(2int));
    assert(inner.skip(2) =~= seq![' ', '%', '>']);
    assert(seq![' ', '%', '>'].drop_first() =~= seq!['%', '>']);
    assert(crate::text::first_non_ws(seq!['%', '>']) == Some(0int));
    assert(crate::text::first_non_ws(inner.skip(2)) == Some(1int));
    assert(inner.take(2) =~= angle_otag());
    assert(inner.skip(2).skip(1) =~= angle_ctag());
    assert(y.last() == '=');
    assert(y[0] == '=');
    let r = PState { otag: angle_otag(), ctag: angle_ctag(), ..q };
    assert(spec_add_tag(p4) == Ok::<PState, ParseError>(r));
    let s = after_leading_line(b, angle_otag(), angle_ctag());
    assert(PState { state: ParserState::TEXT, ..r } == s);
    assert(spec_step(p4, '}', false) == Ok::<(PState, bool), ParseError>((s, false)));
    assert(spec_run(p4, false) == spec_run(s, false));
    lemma_after_leading_line(b, angle_otag(), angle_ctag());
}


/// Plain text up to the end of the input becomes the last text token.
proof fn lemma_plain_to_end(p: PState, b: Seq<char>, curly: bool)
    requires
        p.state == ParserState::TEXT,
        p.otag.len() > 0,
        p.lookahead is None,
        unread(p) == b,
        p.ch is None ==> b.len() == 0,
        forall|i: int| 0 <= i < b.len() ==> b[i] != p.otag[0],
        last_open(p.tokens) is None,
    ensures
        spec_run(p, curly) matches Ok(r) && r.tokens == (if p.content + b == Seq::<char>::empty() {
            p.tokens
        } else {
            p.tokens.push(TokenModel::Text(p.content + b))
        }) && r.partials == p.partials,
    decreases b.len(),
{
    if b.len() == 0 {
        assert(p.content + b =~= p.content);
        assert(p.ch is None);
        if p.content.len() > 0 {
            lemma_last_open_none(p.tokens);
            lemma_last_open_none(p.tokens.push(TokenModel::Text(p.content)));
            assert forall|i: int| 0 <= i < p.tokens.push(TokenModel::Text(p.content)).len() implies !is_open(
                #[trigger] p.tokens.push(TokenModel::Text(p.content))[i],
            ) by {
                if i < p.tokens.len() {
                    assert(p.tokens.push(TokenModel::Text(p.content))[i] == p.tokens[i]);
                }
            }
        } else {
            assert(p.content =~= Seq::<char>::empty());
        }
    } else {
        let c = b[0];
        assert(unread(p)[0] == c);
        assert(p.ch == Some(c));
        let x = PState { content: p.content.push(c), ..p };
        let q = spec_bump(x);
        assert(spec_step(p, c, curly) == Ok::<(PState, bool), ParseError>((q, curly)));
        lemma_bump_unread(x);
        assert(unread(x) == unread(p));
        assert(unread(q) =~= b.drop_first());
        lemma_plain_to_end(q, b.drop_first(), curly);
        assert(p.content.push(c) + b.drop_first() =~= p.content + b);
    }
}

/// Where `w` is whitespace without newlines, the last newline or
/// non-whitespace character of `a` + newline + `w` is that newline.
proof fn lemma_last_nl_before_ws(a: Seq<char>, w: Seq<char>)
    requires
        forall|i: int| 0 <= i < w.len() ==> crate::text::is_ws(w[i]) && w[i] != '\n',
    ensures
        crate::text::last_nl_or_non_ws(a + seq!['\n'] + w) == Some(a.len() as int),
    decreases w.len(),
{
    let s = a + seq!['\n'] + w;
    if w.len() == 0 {
        assert(s.last() == '\n');
    } else {
        assert(s.last() == w.last());
        assert(s.drop_last() =~= a + seq!['\n'] + w.drop_last());
        lemma_last_nl_before_ws(a, w.drop_last());
    }
}

/// A comment alone on its line, after some text: the template `a`, a
/// newline, whitespace `w`, `{{!x}}`, a newline and `b` (with no `{` in `a`
/// or `b`) compiles to the text `a` and its newline, followed by `b`: the
/// comment's line, with the whitespace before the comment and the newline
/// after it, leaves no trace.
#[verifier::rlimit(50)]
pub proof fn law_standalone_comment_line(a: Seq<char>, w: Seq<char>, x: Seq<char>, b: Seq<char>)
    requires
        forall|i: int| 0 <= i < a.len() ==> a[i] != '{',
        forall|i: int| 0 <= i < w.len() ==> crate::text::is_ws(w[i]) && w[i] != '\n',
        forall|i: int| 0 <= i < x.len() ==> x[i] != '{' && x[i] != '}',
        forall|i: int| 0 <= i < b.len() ==> b[i] != '{',
    ensures
        spec_tokenize(
            a + seq!['\n'] + w + leading_tag(seq!['!'] + x, seq!['\n'] + b),
            default_otag(),
            default_ctag(),
        ) == Ok::<(Seq<TokenModel>, Seq<Seq<char>>), ParseError>(
            (
                if b.len() == 0 {
                    seq![TokenModel::Text(a + seq!['\n'])]
                } else {
                    seq![TokenModel::Text(a + seq!['\n']), TokenModel::Text(b)]
                },
                Seq::empty(),
            ),
        ),
{
    let o = default_otag();
    let c = default_ctag();
    let pre = a + seq!['\n'] + w;
    let y = seq!['!'] + x;
    assert forall|i: int| 0 <= i < y.len() implies y[i] != '{' && y[i] != '}' by {
        if i > 0 {
            assert(y[i] == x[i - 1]);
        }
    }
    let rest = seq!['\n'] + b;
    let tail = leading_tag(y, rest);
    let t = pre + tail;
    assert(a + seq!['\n'] + w + tail =~= t);
    assert forall|i: int| 0 <= i < pre.len() implies pre[i] != '{' by {
        if i < a.len() {
            assert(pre[i] == a[i]);
        } else if i == a.len() {
        } else {
            assert(pre[i] == w[i - a.len() - 1]);
            assert(crate::text::is_ws(w[i - a.len() - 1]));
        }
    }
    let p0 = spec_bump(initial_state(t, o, c));
    assert(t[0] == pre[0]);
    assert(unread(p0) =~= t);
    assert(tail[0] == '{');
    lemma_plain_steps(p0, pre, tail, false);
    let p1 = PState { ch: Some(tail[0]), lookahead: None, rest: tail.drop_first(), content: p0.content + pre, ..p0 };
    assert(p0.content + pre =~= pre);
    // the opening delimiter
    let p2 = PState { ch: Some('{'), rest: tail.skip(2), tag_position: 1, state: ParserState::OTAG, ..p1 };
    assert(tail.drop_first()[0] == '{');
    assert(tail.drop_first().drop_first() =~= tail.skip(2));
    assert(spec_step(p1, '{', false) == Ok::<(PState, bool), ParseError>((p2, false)));
    assert(spec_run(p1, false) == spec_run(p2, false));
    let txt = TokenModel::Text(pre);
    let p3 = PState { ch: Some(y[0]), rest: tail.skip(3), state: ParserState::TAG, content: Seq::empty(), tokens: seq![txt], ..p2 };
    assert(tail.skip(2)[0] == y[0]);
    assert(tail.skip(2).drop_first() =~= tail.skip(3));
    assert(Seq::<TokenModel>::empty().push(txt) =~= seq![txt]);
    assert(spec_step(p2, '{', false) == Ok::<(PState, bool), ParseError>((p3, false)));
    assert(spec_run(p2, false) == spec_run(p3, false));
    // the comment's content
    let ctail = seq!['}', '}'] + rest;
    assert(unread(p3) =~= y + ctail);
    lemma_tag_steps(p3, y, ctail);
    let p4 = PState { ch: Some(ctail[0]), lookahead: None, rest: ctail.drop_first(), content: p3.content + y, ..p3 };
    assert(p3.content + y =~= y);
    assert(ctail.drop_first() =~= seq!['}'] + rest);
    let p5 = PState { rest: rest, ch: Some('}'), tag_position: 1, state: ParserState::CTAG, content: y, ..p4 };
    assert((seq!['}'] + rest)[0] == '}');
    assert((seq!['}'] + rest).drop_first() =~= rest);
    assert(spec_step(p4, '}', false) == Ok::<(PState, bool), ParseError>((p5, false)));
    assert(spec_run(p4, false) == spec_run(p5, false));
    // the closing delimiter: the comment's line goes
    let b0 = spec_bump(p5);
    assert(rest[0] == '\n');
    assert(rest.drop_first() =~= b);
    let q1 = PState { content: Seq::empty(), ..b0 };
    lemma_last_nl_before_ws(a, w);
    let an = a + seq!['\n'];
    assert(pre.take(a.len() as int + 1) =~= an);
    let q = spec_eat_whitespace(q1).0;
    assert(q.tokens == seq![TokenModel::Text(an)]) by {
        assert(seq![txt].last() == txt);
        if w.len() == 0 {
            assert(pre =~= an);
        } else {
            assert(seq![txt].drop_last() =~= Seq::<TokenModel>::empty());
            assert(Seq::<TokenModel>::empty().push(TokenModel::Text(an)) =~= seq![TokenModel::Text(an)]);
        }
    }
    assert(y[0] == '!');
    assert(spec_add_tag(p5) == Ok::<PState, ParseError>(q));
    let p6 = PState { state: ParserState::TEXT, ..q };
    assert(spec_step(p5, '}', false) == Ok::<(PState, bool), ParseError>((p6, false)));
    assert(spec_run(p5, false) == spec_run(p6, false));
    // the text after
    assert(unread(p6) =~= b);
    assert(last_open(seq![TokenModel::Text(an)]) is None) by {
        assert(seq![TokenModel::Text(an)].drop_last() =~= Seq::<TokenModel>::empty());
        assert(seq![TokenModel::Text(an)].last() == TokenModel::Text(an));
        assert(last_open(Seq::<TokenModel>::empty()) is None);
    }
    lemma_plain_to_end(p6, b, false);
    assert(p6.content + b =~= b);
    if b.len() > 0 {
        assert(seq![TokenModel::Text(an)].push(TokenModel::Text(b)) =~= seq![TokenModel::Text(an), TokenModel::Text(b)]);
    } else {
        assert(b =~= Seq::<char>::empty());
    }
}

/// A delimiter change alone on its line, after some text: the template
/// `a`, a newline, whitespace `w`, `{{=<% %>=}}`, a newline and `b` (with
/// no `{` in `a` and no `<` in `b`) compiles to the text `a` and its
/// newline, followed by `b`: the tag's line, with the whitespace before it
/// and the newline after it, leaves no trace.
#[verifier::rlimit(50)]
pub proof fn law_standalone_delimiter_line(a: Seq<char>, w: Seq<char>, b: Seq<char>)
    requires
        forall|i: int| 0 <= i < a.len() ==> a[i] != '{',
        forall|i: int| 0 <= i < w.len() ==> crate::text::is_ws(w[i]) && w[i] != '\n',
        forall|i: int| 0 <= i < b.len() ==> b[i] != '<',
    ensures
        spec_tokenize(
            a + seq!['\n'] + w + leading_tag(seq!['=', '<', '%', ' ', '%', '>', '='], seq!['\n'] + b),
            default_otag(),
            default_ctag(),
        ) == Ok::<(Seq<TokenModel>, Seq<Seq<char>>), ParseError>(
            (
                if b.len() == 0 {
                    seq![TokenModel::Text(a + seq!['\n'])]
                } else {
                    seq![TokenModel::Text(a + seq!['\n']), TokenModel::Text(b)]
                },
                Seq::empty(),
            ),
        ),
{
    let o = default_otag();
    let c = default_ctag();
    let pre = a + seq!['\n'] + w;
    let y = seq!['=', '<', '%', ' ', '%', '>', '='];
    let rest = seq!['\n'] + b;
    let tail = leading_tag(y, rest);
    let t = pre + tail;
    assert(a + seq!['\n'] + w + tail =~= t);
    assert forall|i: int| 0 <= i < pre.len() implies pre[i] != '{' by {
        if i < a.len() {
            assert(pre[i] == a[i]);
        } else if i == a.len() {
        } else {
            assert(pre[i] == w[i - a.len() - 1]);
            assert(crate::text::is_ws(w[i - a.len() - 1]));
        }
    }
    let p0 = spec_bump(initial_state(t, o, c));
    assert(t[0] == pre[0]);
    assert(unread(p0) =~= t);
    assert(tail[0] == '{');
    lemma_plain_steps(p0, pre, tail, false);
    let p1 = PState { ch: Some(tail[0]), lookahead: None, rest: tail.drop_first(), content: p0.content + pre, ..p0 };
    assert(p0.content + pre =~= pre);
    // the opening delimiter
    let p2 = PState { ch: Some('{'), rest: tail.skip(2), tag_position: 1, state: ParserState::OTAG, ..p1 };
    assert(tail.drop_first()[0] == '{');
    assert(tail.drop_first().drop_first() =~= tail.skip(2));
    assert(spec_step(p1, '{', false) == Ok::<(PState, bool), ParseError>((p2, false)));
    assert(spec_run(p1, false) == spec_run(p2, false));
    let txt = TokenModel::Text(pre);
    let p3 = PState { ch: Some(y[0]), rest: tail.skip(3), state: ParserState::TAG, content: Seq::empty(), tokens: seq![txt], ..p2 };
    assert(tail.skip(2)[0] == y[0]);
    assert(tail.skip(2).drop_first() =~= tail.skip(3));
    assert(Seq::<TokenModel>::empty().push(txt) =~= seq![txt]);
    assert(spec_step(p2, '{', false) == Ok::<(PState, bool), ParseError>((p3, false)));
    assert(spec_run(p2, false) == spec_run(p3, false));
    // the comment's content
    let ctail = seq!['}', '}'] + rest;
    assert(unread(p3) =~= y + ctail);
    lemma_tag_steps(p3, y, ctail);
    let p4 = PState { ch: Some(ctail[0]), lookahead: None, rest: ctail.drop_first(), content: p3.content + y, ..p3 };
    assert(p3.content + y =~= y);
    assert(ctail.drop_first() =~= seq!['}'] + rest);
    let p5 = PState { rest: rest, ch: Some('}'), tag_position: 1, state: ParserState::CTAG, content: y, ..p4 };
    assert((seq!['}'] + rest)[0] == '}');
    assert((seq!['}'] + rest).drop_first() =~= rest);
    assert(spec_step(p4, '}', false) == Ok::<(PState, bool), ParseError>((p5, false)));
    assert(spec_run(p4, false) == spec_run(p5, false));
    // the closing delimiter: the comment's line goes
    let b0 = spec_bump(p5);
    assert(rest[0] == '\n');
    assert(rest.drop_first() =~= b);
    let q1 = PState { content: Seq::empty(), ..b0 };
    lemma_last_nl_before_ws(a, w);
    let an = a + seq!['\n'];
    assert(pre.take(a.len() as int + 1) =~= an);
    let q = spec_eat_whitespace(q1).0;
    assert(q.tokens == seq![TokenModel::Text(an)]) by {
        assert(seq![txt].last() == txt);
        if w.len() == 0 {
            assert(pre =~= an);
        } else {
            assert(seq![txt].drop_last() =~= Seq::<TokenModel>::empty());
            assert(Seq::<TokenModel>::empty().push(TokenModel::Text(an)) =~= seq![TokenModel::Text(an)]);
        }
    }
    lemma_angle_delimiters();
    assert(y[0] == '=');
    assert(y.last() == '=');
    let r = PState { otag: angle_otag(), ctag: angle_ctag(), ..q };
    assert(spec_add_tag(p5) == Ok::<PState, ParseError>(r));
    let p6 = PState { state: ParserState::TEXT, ..r };
    assert(spec_step(p5, '}', false) == Ok::<(PState, bool), ParseError>((p6, false)));
    assert(spec_run(p5, false) == spec_run(p6, false));
    // the text after
    assert(unread(p6) =~= b);
    assert(last_open(seq![TokenModel::Text(an)]) is None) by {
        assert(seq![TokenModel::Text(an)].drop_last() =~= Seq::<TokenModel>::empty());
        assert(seq![TokenModel::Text(an)].last() == TokenModel::Text(an));
        assert(last_open(Seq::<TokenModel>::empty()) is None);
    }
    lemma_plain_to_end(p6, b, false);
    assert(p6.content + b =~= b);
    if b.len() > 0 {
        assert(seq![TokenModel::Text(an)].push(TokenModel::Text(b)) =~= seq![TokenModel::Text(an), TokenModel::Text(b)]);
    } else {
        assert(b =~= Seq::<char>::empty());
    }
}


/// The content of `{{=<% %>=}}` sets the delimiters `<%` and `%>`.
proof fn lemma_angle_delimiters()
    ensures
        ({
            let inner = seq!['=', '<', '%', ' ', '%', '>', '='].subrange(1, 6);
            &&& spec_check_content(inner) == Some(inner)
            &&& crate::text::first_ws(inner) == Some(2int)
            &&& crate::text::first_non_ws(inner.skip(2)) == Some(1int)
            &&& inner.take(2) == angle_otag()
            &&& inner.skip(2).skip(1) == angle_ctag()
        }),
{
    let y = seq!['=', '<', '%', ' ', '%', '>', '='];
    let inner = y.subrange(1, 6);
    assert(inner =~= seq!['<', '%', ' ', '%', '>']);
    assert(!crate::text::is_ws('<') && !crate::text::is_ws('>') && !crate::text::is_ws('%') && crate::text::is_ws(' '));
    assert(crate::text::trim_start(inner) == inner);
    assert(inner.last() == '>');
    assert(crate::text::trim_end(inner) == inner);
    assert(inner.drop_first() =~= seq!['%', ' ', '%', '>']);
    assert(inner.drop_first().drop_first() =~= seq![' ', '%', '>']);
    assert(crate::text::first_ws(seq![' ', '%', '>']) == Some(0int));
    assert(crate::text::first_ws(inner.drop_first()) == Some(1int));
    assert(inner.skip(2) =~= seq![' ', '%', '>']);
    assert(seq![' ', '%', '>'].drop_first() =~= seq!['%', '>']);
    assert(crate::text::first_non_ws(seq!['%', '>']) == Some(0int));
    assert(inner.take(2) =~= angle_otag());
    assert(inner.skip(2).skip(1) =~= angle_ctag());
}
} // verus!
