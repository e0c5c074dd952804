//! Properties of the tokenizer, the renderer and their helpers that hold
//! for all inputs.
use vstd::prelude::*;
use crate::text::{escape_html, escape_char};
use crate::token::{TokenModel, ParserState, sources, is_open};
use crate::data::{Data, find_path};
use crate::parser_spec::{
    PState, spec_tokenize, spec_run, spec_step, spec_bump, spec_add_text, last_open,
    initial_state, spec_classify, apply_class, spec_eat_whitespace, close_section, spec_add_tag,
    measure, lemma_step_decreases, skip_newline, lemma_classify_nonempty, lemma_last_open_none,
    lemma_after_last_open,
};
use crate::render::{
    Outcome, RCtx, render_tokens, render_token, render_items, then, section_outcome,
    inverted_section_outcome, value_rank, indent_text, first_line_len, lemma_first_nl_bound,
};
use crate::token::tokens_view;
use crate::template::next_unknown;
use crate::data::Lambda;
use crate::render::RenderError;
use crate::render_rel::{Trace, tokens_by, join_res, append_res, renders, text_output};
use crate::render::{default_otag, default_ctag};
use crate::source_laws::{section_template, section_token, section_open_tag, section_close_tag, name_a, law_section_template_compiles};

verus! {

/// The state of the tokenizer after it has read `input[..k]` of a text
/// in which the opening delimiter never starts.
spec fn plain_state(input: Seq<char>, otag: Seq<char>, ctag: Seq<char>, k: int) -> PState {
    PState {
        rest: if k < input.len() { input.skip(k + 1) } else { Seq::empty() },
        ch: if k < input.len() { Some(input[k]) } else { None },
        lookahead: None,
        content: input.take(k),
        state: ParserState::TEXT,
        otag,
        ctag,
        tag_position: 0,
        tokens: Seq::empty(),
        partials: Seq::empty(),
    }
}

/// The tokens of a text in which the opening delimiter never starts.
pub open spec fn plain_tokens(input: Seq<char>) -> Seq<TokenModel> {
    if input.len() > 0 {
        seq![TokenModel::Text(input)]
    } else {
        Seq::empty()
    }
}

proof fn lemma_plain_run(input: Seq<char>, otag: Seq<char>, ctag: Seq<char>, k: int, curly: bool)
    requires
        otag.len() > 0,
        0 <= k <= input.len(),
        forall|i: int| 0 <= i < input.len() ==> input[i] != otag[0],
    ensures
        spec_run(plain_state(input, otag, ctag, k), curly) matches Ok(q) && q.tokens == plain_tokens(input)
            && q.partials == Seq::<Seq<char>>::empty(),
    decreases input.len() - k,
{
    let p = plain_state(input, otag, ctag, k);
    if k < input.len() {
        let c = input[k];
        let q = spec_bump(PState { content: p.content.push(c), ..p });
        assert(input.take(k).push(c) =~= input.take(k + 1));
        if k + 1 < input.len() {
            assert(input.skip(k + 1)[0] == input[k + 1]);
            assert(input.skip(k + 1).drop_first() =~= input.skip(k + 2));
        }
        assert(q == plain_state(input, otag, ctag, k + 1));
        assert(spec_step(p, c, curly) == Ok::<(PState, bool), crate::token::ParseError>((q, curly)));
        lemma_plain_run(input, otag, ctag, k + 1, curly);
    } else {
        assert(input.take(k) =~= input);
        let r = spec_add_text(p);
        if input.len() > 0 {
            assert(r.tokens =~= seq![TokenModel::Text(input)]);
            assert(r.tokens.drop_last() =~= Seq::<TokenModel>::empty());
        } else {
            assert(r.tokens =~= Seq::<TokenModel>::empty());
        }
        assert(last_open(r.tokens) is None);
    }
}

/// A template in which the first character of the opening delimiter never
/// occurs compiles to one text token holding all of it (none for the empty
/// template), and refers to no partial.
pub proof fn law_plain_text_compiles_to_text(input: Seq<char>, otag: Seq<char>, ctag: Seq<char>)
    requires
        otag.len() > 0,
        forall|i: int| 0 <= i < input.len() ==> input[i] != otag[0],
    ensures
        spec_tokenize(input, otag, ctag) == Ok::<(Seq<TokenModel>, Seq<Seq<char>>), crate::token::ParseError>(
            (plain_tokens(input), Seq::empty()),
        ),
{
    let p0 = spec_bump(initial_state(input, otag, ctag));
    if input.len() > 0 {
        assert(input.drop_first() =~= input.skip(1));
    }
    assert(input.take(0) =~= Seq::<char>::empty());
    assert(p0 == plain_state(input, otag, ctag, 0));
    lemma_plain_run(input, otag, ctag, 0, false);
}

/// Text tokens render to their text where no indentation is in force.
pub proof fn law_text_renders_as_is<L>(s: Seq<char>, rc: RCtx<L>, fuel: nat)
    requires
        rc.indent.len() == 0,
    ensures
        render_tokens(plain_tokens(s), rc, fuel) == Outcome::Done(s),
{
    if s.len() > 0 {
        let ts = seq![TokenModel::Text(s)];
        assert(ts.drop_last() =~= Seq::<TokenModel>::empty());
        assert(ts.last() == TokenModel::Text(s));
        assert(render_tokens(Seq::<TokenModel>::empty(), rc, fuel) == Outcome::Done(Seq::<char>::empty()));
        assert(render_token(TokenModel::Text(s), rc, fuel) == Outcome::Done(s));
        assert(Seq::<char>::empty() + s =~= s);
        assert(render_tokens(ts, rc, fuel) == then(render_tokens(ts.drop_last(), rc, fuel), render_token(ts.last(), rc, fuel)));
    } else {
        assert(s =~= Seq::<char>::empty());
    }
}

/// A template in which the opening delimiter never starts renders to
/// itself, whatever the data.
pub proof fn law_plain_text_renders_to_itself<L>(input: Seq<char>, otag: Seq<char>, ctag: Seq<char>, rc: RCtx<L>, fuel: nat)
    requires
        otag.len() > 0,
        forall|i: int| 0 <= i < input.len() ==> input[i] != otag[0],
        rc.indent.len() == 0,
    ensures
        spec_tokenize(input, otag, ctag) matches Ok((ts, _)) && render_tokens(ts, rc, fuel) == Outcome::Done(input),
{
    law_plain_text_compiles_to_text(input, otag, ctag);
    law_text_renders_as_is(input, rc, fuel);
}

/// Escaping replaces each character on its own: it distributes over
/// concatenation.
pub proof fn law_escape_concat(a: Seq<char>, b: Seq<char>)
    ensures
        escape_html(a + b) == escape_html(a) + escape_html(b),
    decreases b.len(),
{
    if b.len() == 0 {
        assert(a + b =~= a);
        assert(escape_html(a) + escape_html(b) =~= escape_html(a));
    } else {
        law_escape_concat(a, b.drop_last());
        assert((a + b).drop_last() =~= a + b.drop_last());
        assert((a + b).last() == b.last());
        assert(escape_html(a) + escape_html(b) =~= escape_html(a) + escape_html(b.drop_last()) + escape_char(b.last()));
    }
}

/// Whether `c` is one of the characters that escaping replaces.
pub open spec fn is_special(c: char) -> bool {
    c == '<' || c == '>' || c == '&' || c == '"' || c == '\''
}

/// Escaped text holds none of `<`, `>`, `"` and `'`.
pub proof fn law_escape_removes_markup(s: Seq<char>)
    ensures
        forall|i: int| 0 <= i < escape_html(s).len() ==> {
            let c = #[trigger] escape_html(s)[i];
            c != '<' && c != '>' && c != '"' && c != '\''
        },
    decreases s.len(),
{
    if s.len() > 0 {
        law_escape_removes_markup(s.drop_last());
        let e = escape_html(s.drop_last());
        let x = escape_char(s.last());
        assert forall|i: int| 0 <= i < escape_html(s).len() implies {
            let c = #[trigger] escape_html(s)[i];
            c != '<' && c != '>' && c != '"' && c != '\''
        } by {
            if i < e.len() {
                assert(escape_html(s)[i] == e[i]);
            } else {
                assert(escape_html(s)[i] == x[i - e.len()]);
            }
        }
    }
}

/// Text without any of the five special characters is left as it is.
pub proof fn law_escape_plain_identity(s: Seq<char>)
    requires
        forall|i: int| 0 <= i < s.len() ==> !is_special(#[trigger] s[i]),
    ensures
        escape_html(s) == s,
    decreases s.len(),
{
    if s.len() > 0 {
        assert(!is_special(s[s.len() - 1]));
        law_escape_plain_identity(s.drop_last());
        assert(s.drop_last().push(s.last()) =~= s);
    }
}

/// A section and an inverted section over a boolean render their children
/// in exactly the opposite cases.
pub proof fn law_sections_complement<L>(
    path: Seq<Seq<char>>,
    children: Seq<TokenModel>,
    otag: Seq<char>,
    osection: Seq<char>,
    src: Seq<char>,
    csection: Seq<char>,
    ctag: Seq<char>,
    rc: RCtx<L>,
    fuel: nat,
    b: bool,
)
    requires
        find_path(rc.stack, path) == Ok::<Option<Data<L>>, ()>(Some(Data::Bool(b))),
    ensures
        render_token(TokenModel::Section(path, false, children, otag, osection, src, csection, ctag), rc, fuel)
            == if b { render_tokens(children, rc, fuel) } else { Outcome::Done(Seq::empty()) },
        render_token(TokenModel::Section(path, true, children, otag, osection, src, csection, ctag), rc, fuel)
            == if b { Outcome::Done(Seq::empty()) } else { render_tokens(children, rc, fuel) },
{
}

/// A name to look up that is missing renders an inverted section's
/// children and nothing for a section.
pub proof fn law_missing_name_sections<L>(
    path: Seq<Seq<char>>,
    children: Seq<TokenModel>,
    otag: Seq<char>,
    osection: Seq<char>,
    src: Seq<char>,
    csection: Seq<char>,
    ctag: Seq<char>,
    rc: RCtx<L>,
    fuel: nat,
)
    requires
        find_path(rc.stack, path) == Ok::<Option<Data<L>>, ()>(None),
    ensures
        render_token(TokenModel::Section(path, false, children, otag, osection, src, csection, ctag), rc, fuel)
            == Outcome::Done(Seq::empty()),
        render_token(TokenModel::Section(path, true, children, otag, osection, src, csection, ctag), rc, fuel)
            == render_tokens(children, rc, fuel),
{
}

proof fn lemma_text_output_nonempty(x: Seq<char>, indent: Seq<char>)
    requires
        x.len() > 0,
    ensures
        text_output(x, indent).len() > 0,
{
    if indent.len() > 0 {
        lemma_first_nl_bound(x);
        let n = first_line_len(x);
        assert(n >= 1);
        assert(indent_text(x, indent).len() >= x.take(n).len());
    }
}

/// Children that are one text render that text, whatever the stack.
proof fn lemma_text_children<L>(x: Seq<char>, rc: RCtx<L>, fuel: nat)
    ensures
        render_tokens(seq![TokenModel::Text(x)], rc, fuel) == Outcome::Done(text_output(x, rc.indent)),
{
    let ts = seq![TokenModel::Text(x)];
    assert(ts.drop_last() =~= Seq::<TokenModel>::empty());
    assert(render_tokens(Seq::<TokenModel>::empty(), rc, fuel) == Outcome::Done(Seq::<char>::empty()));
    assert(ts.last() == TokenModel::Text(x));
    assert(render_token(TokenModel::Text(x), rc, fuel) == Outcome::Done(text_output(x, rc.indent)));
    assert(Seq::<char>::empty() + text_output(x, rc.indent) =~= text_output(x, rc.indent));
}

/// One text rendered once per item gives something exactly where there is an item.
proof fn lemma_text_items<L>(x: Seq<char>, items: Seq<Data<L>>, rc: RCtx<L>, fuel: nat)
    requires
        x.len() > 0,
    ensures
        render_items(seq![TokenModel::Text(x)], items, rc, fuel) matches Outcome::Done(out) && (out.len() > 0
            <==> items.len() > 0),
    decreases items.len(),
{
    if items.len() > 0 {
        lemma_text_items(x, items.drop_last(), rc, fuel);
        let inner = RCtx { stack: rc.stack.push(items.last()), ..rc };
        lemma_text_children(x, inner, fuel);
        lemma_text_output_nonempty(x, rc.indent);
    }
}

/// Over a boolean, a list, a map or a missing name, a section and an
/// inverted section whose children are the same nonempty text complement
/// each other: exactly one of them renders something, and the inverted one
/// renders the text or nothing.
pub proof fn law_sections_complement_text<L>(
    path: Seq<Seq<char>>,
    x: Seq<char>,
    otag: Seq<char>,
    osection: Seq<char>,
    src: Seq<char>,
    csection: Seq<char>,
    ctag: Seq<char>,
    rc: RCtx<L>,
    fuel: nat,
)
    requires
        x.len() > 0,
        find_path(rc.stack, path) matches Ok(found) && (found matches Some(v) ==> (v is Bool || v is Vec
            || v is Dict)),
    ensures
        ({
            let children = seq![TokenModel::Text(x)];
            let sec = render_token(TokenModel::Section(path, false, children, otag, osection, src, csection, ctag), rc, fuel);
            let inv = render_token(TokenModel::Section(path, true, children, otag, osection, src, csection, ctag), rc, fuel);
            &&& sec matches Outcome::Done(a)
            &&& inv matches Outcome::Done(b)
            &&& (a.len() > 0 <==> b.len() == 0)
            &&& (b == text_output(x, rc.indent) || b.len() == 0)
        }),
{
    let children = seq![TokenModel::Text(x)];
    lemma_text_children(x, rc, fuel);
    lemma_text_output_nonempty(x, rc.indent);
    if let Ok(Some(v)) = find_path(rc.stack, path) {
        match v {
            Data::Vec(xs) => {
                lemma_text_items(x, xs@, rc, fuel);
            },
            Data::Dict(_) => {
                lemma_text_children(x, RCtx { stack: rc.stack.push(v), ..rc }, fuel);
            },
            _ => {},
        }
    }
}

/// The partial that compiling looks at next is one not known yet, and every
/// name skipped on the way is known: no partial is compiled twice.
pub proof fn law_next_partial_is_new(queue: Seq<Seq<char>>, from: int, known: Set<Seq<char>>)
    requires
        0 <= from,
    ensures
        next_unknown(queue, from, known) matches Some(i) ==> {
            &&& from <= i < queue.len()
            &&& !known.contains(queue[i])
            &&& forall|j: int| from <= j < i ==> known.contains(#[trigger] queue[j])
        },
        next_unknown(queue, from, known) is None ==> forall|j: int| from <= j < queue.len() ==> known.contains(#[trigger] queue[j]),
    decreases queue.len() - from,
{
    if from < queue.len() && known.contains(queue[from]) {
        law_next_partial_is_new(queue, from + 1, known);
    }
}

/// A section token caches, as its source, the concatenation of its
/// children's sources; none of its children is an unclosed section; and
/// the same holds of the sections among them.
pub open spec fn token_wf(t: TokenModel) -> bool
    decreases t,
{
    match t {
        TokenModel::Section(_, _, children, _, _, src, _, _) => {
            &&& src == sources(children)
            &&& forall|i: int| 0 <= i < children.len() ==> !is_open(#[trigger] children[i])
            &&& forall|i: int| 0 <= i < children.len() ==> token_wf(#[trigger] children[i])
        },
        _ => true,
    }
}

pub open spec fn tokens_wf(ts: Seq<TokenModel>) -> bool {
    forall|i: int| 0 <= i < ts.len() ==> token_wf(#[trigger] ts[i])
}

proof fn lemma_wf_push(ts: Seq<TokenModel>, t: TokenModel)
    requires
        tokens_wf(ts),
        token_wf(t),
    ensures
        tokens_wf(ts.push(t)),
{
    assert forall|i: int| 0 <= i < ts.push(t).len() implies token_wf(#[trigger] ts.push(t)[i]) by {
        if i < ts.len() {
            assert(ts.push(t)[i] == ts[i]);
        }
    }
}

proof fn lemma_wf_drop_last(ts: Seq<TokenModel>)
    requires
        tokens_wf(ts),
        ts.len() > 0,
    ensures
        tokens_wf(ts.drop_last()),
{
    assert forall|i: int| 0 <= i < ts.drop_last().len() implies token_wf(#[trigger] ts.drop_last()[i]) by {
        assert(ts.drop_last()[i] == ts[i]);
    }
}

proof fn lemma_wf_apply_class(p: PState, c: crate::token::TokenClassModel)
    requires
        tokens_wf(p.tokens),
        c is WhiteSpace ==> p.tokens.len() > 0,
        !(c is NewLineWhiteSpace),
    ensures
        tokens_wf(apply_class(p, c).tokens),
{
    let q = skip_newline(p);
    assert(q.tokens == p.tokens);
    match c {
        crate::token::TokenClassModel::WhiteSpace(s, pos) => {
            lemma_wf_drop_last(p.tokens);
            lemma_wf_push(p.tokens.drop_last(), TokenModel::Text(s.take(pos as int)));
        },
        _ => {},
    }
}

proof fn lemma_wf_eat_whitespace(p: PState)
    requires
        tokens_wf(p.tokens),
    ensures
        tokens_wf(spec_eat_whitespace(p).0.tokens),
{
    let (q, c) = spec_classify(p);
    assert(q.tokens == p.tokens);
    lemma_classify_nonempty(p);
    lemma_wf_apply_class(q, c);
}

proof fn lemma_wf_close_section(
    tokens: Seq<TokenModel>,
    name: Seq<Seq<char>>,
    tag: Seq<char>,
    otag: Seq<char>,
    ctag: Seq<char>,
)
    requires
        tokens_wf(tokens),
    ensures
        close_section(tokens, name, tag, otag, ctag) matches Ok(ts) ==> tokens_wf(ts),
{
    lemma_last_open_bound(tokens);
    lemma_after_last_open(tokens);
    match last_open(tokens) {
        None => {},
        Some(k) => {
            let children = tokens.skip(k + 1);
            assert forall|i: int| 0 <= i < children.len() implies token_wf(#[trigger] children[i]) && !is_open(children[i]) by {
                assert(children[i] == tokens[i + k + 1]);
            }
            assert forall|i: int| 0 <= i < tokens.take(k).len() implies token_wf(#[trigger] tokens.take(k)[i]) by {
                assert(tokens.take(k)[i] == tokens[i]);
            }
            match tokens[k] {
                TokenModel::IncompleteSection(sname, inverted, osection, _) => {
                    let sec = TokenModel::Section(name, inverted, children, otag, osection, sources(children), tag, ctag);
                    assert(token_wf(sec));
                    lemma_wf_push(tokens.take(k), sec);
                },
                _ => {},
            }
        },
    }
}

proof fn lemma_last_open_bound(ts: Seq<TokenModel>)
    ensures
        last_open(ts) matches Some(k) ==> 0 <= k < ts.len(),
    decreases ts.len(),
{
    if ts.len() > 0 {
        lemma_last_open_bound(ts.drop_last());
    }
}

proof fn lemma_wf_add_tag(p: PState)
    requires
        tokens_wf(p.tokens),
    ensures
        spec_add_tag(p) matches Ok(q) ==> tokens_wf(q.tokens),
{
    let p0 = spec_bump(p);
    let content = p0.content;
    let tag = p0.otag + content + p0.ctag;
    let p1 = PState { content: Seq::empty(), ..p0 };
    lemma_wf_eat_whitespace(p1);
    let (q, c) = spec_classify(p1);
    lemma_classify_nonempty(p1);
    lemma_wf_apply_class(q, c);
    let p2 = spec_eat_whitespace(p1).0;
    if content.len() > 0 {
        lemma_wf_push(p1.tokens, TokenModel::UTag(Seq::empty(), tag));
        if content[0] == '/' {
            match crate::parser_spec::spec_check_content(content.skip(1)) {
                Some(n) => {
                    lemma_wf_close_section(p2.tokens, crate::text::split_name(n), tag, p2.otag, p2.ctag);
                },
                None => {},
            }
        }
        match crate::parser_spec::spec_check_content(content.skip(1)) {
            Some(n) => {
                lemma_wf_push(p1.tokens, TokenModel::UTag(crate::text::split_name(n), tag));
                lemma_wf_push(p2.tokens, TokenModel::IncompleteSection(crate::text::split_name(n), content[0] == '^', tag, spec_eat_whitespace(p1).1));
                let r = apply_class(q, c);
                lemma_wf_push(r.tokens, TokenModel::Partial(n, crate::parser_spec::class_indent(c), tag));
            },
            None => {},
        }
        if content.len() >= 2 {
            match crate::parser_spec::spec_check_content(content.subrange(1, content.len() - 1)) {
                Some(n) => {
                    lemma_wf_push(p1.tokens, TokenModel::UTag(crate::text::split_name(n), tag));
                },
                None => {},
            }
        }
        match crate::parser_spec::spec_check_content(content) {
            Some(n) => {
                lemma_wf_push(p1.tokens, TokenModel::ETag(crate::parser_spec::etag_name(n), tag));
            },
            None => {},
        }
    }
}

proof fn lemma_wf_step(p: PState, ch: char, curly: bool)
    requires
        tokens_wf(p.tokens),
    ensures
        spec_step(p, ch, curly) matches Ok((q, _)) ==> tokens_wf(q.tokens),
{
    lemma_wf_add_tag(p);
    if p.content.len() > 0 {
        lemma_wf_push(p.tokens, TokenModel::Text(p.content));
    }
}

proof fn lemma_wf_run(p: PState, curly: bool)
    requires
        tokens_wf(p.tokens),
    ensures
        spec_run(p, curly) matches Ok(q) ==> tokens_wf(q.tokens) && last_open(q.tokens) is None,
    decreases measure(p),
{
    match p.ch {
        None => {
            let tp = p.tag_position as int;
            let c = match p.state {
                ParserState::OTAG => p.content + p.otag.take(tp),
                ParserState::CTAG => p.content + p.ctag.take(tp),
                _ => p.content,
            };
            if c.len() > 0 {
                lemma_wf_push(p.tokens, TokenModel::Text(c));
            }
        },
        Some(c) => {
            lemma_wf_step(p, c, curly);
            lemma_step_decreases(p, c, curly);
            match spec_step(p, c, curly) {
                Ok((q, k)) => {
                    lemma_wf_run(q, k);
                },
                Err(_) => {},
            }
        },
    }
}

/// Compiling produces well-formed tokens: no unclosed section at any
/// depth, and every section caches, as its source, the concatenation of
/// its children's sources (so that a lambda gets the section's text back).
pub proof fn law_compiled_tokens_well_formed(input: Seq<char>, otag: Seq<char>, ctag: Seq<char>)
    ensures
        spec_tokenize(input, otag, ctag) matches Ok((ts, _)) ==> {
            &&& tokens_wf(ts)
            &&& forall|i: int| 0 <= i < ts.len() ==> !is_open(#[trigger] ts[i])
        },
{
    let p0 = spec_bump(initial_state(input, otag, ctag));
    assert(tokens_wf(p0.tokens));
    lemma_wf_run(p0, false);
    match spec_run(p0, false) {
        Ok(q) => {
            lemma_last_open_none(q.tokens);
        },
        Err(_) => {},
    }
}

/// Rendering one thing after another associates.
pub proof fn law_then_associative(x: Outcome, y: Outcome, z: Outcome)
    ensures
        then(then(x, y), z) == then(x, then(y, z)),
{
    match (x, y, z) {
        (Outcome::Done(p), Outcome::Done(q), Outcome::Done(r)) => {
            assert(p + q + r =~= p + (q + r));
        },
        _ => {},
    }
}

/// Rendering a sequence of tokens renders its parts one after the other.
pub proof fn law_render_concat<L>(a: Seq<TokenModel>, b: Seq<TokenModel>, rc: RCtx<L>, fuel: nat)
    ensures
        render_tokens(a + b, rc, fuel) == then(render_tokens(a, rc, fuel), render_tokens(b, rc, fuel)),
    decreases b.len(),
{
    if b.len() == 0 {
        assert(a + b =~= a);
        match render_tokens(a, rc, fuel) {
            Outcome::Done(x) => {
                assert(x + Seq::<char>::empty() =~= x);
            },
            _ => {},
        }
    } else {
        law_render_concat(a, b.drop_last(), rc, fuel);
        assert((a + b).drop_last() =~= a + b.drop_last());
        assert((a + b).last() == b.last());
        law_then_associative(
            render_tokens(a, rc, fuel),
            render_tokens(b.drop_last(), rc, fuel),
            render_token(b.last(), rc, fuel),
        );
    }
}

proof fn lemma_mono_tokens<L>(ts: Seq<TokenModel>, rc: RCtx<L>, fuel: nat)
    ensures
        render_tokens(ts, rc, fuel) is Done ==> render_tokens(ts, rc, fuel + 1) == render_tokens(ts, rc, fuel),
    decreases fuel, ts, 0int,
{
    if ts.len() > 0 {
        assert(ts.drop_last() == ts.subrange(0, ts.len() - 1));
        lemma_mono_tokens(ts.drop_last(), rc, fuel);
        lemma_mono_token(ts.last(), rc, fuel);
    }
}

proof fn lemma_mono_items<L>(children: Seq<TokenModel>, items: Seq<Data<L>>, rc: RCtx<L>, fuel: nat)
    ensures
        render_items(children, items, rc, fuel) is Done ==> render_items(children, items, rc, fuel + 1)
            == render_items(children, items, rc, fuel),
    decreases fuel, children, items.len(),
{
    if items.len() > 0 {
        lemma_mono_items(children, items.drop_last(), rc, fuel);
        lemma_mono_tokens(children, RCtx { stack: rc.stack.push(items.last()), ..rc }, fuel);
    }
}

proof fn lemma_mono_sections<L>(value: Data<L>, children: Seq<TokenModel>, rc: RCtx<L>, fuel: nat)
    ensures
        section_outcome(value, children, rc, fuel) is Done ==> section_outcome(value, children, rc, fuel + 1)
            == section_outcome(value, children, rc, fuel),
        inverted_section_outcome(value, children, rc, fuel) is Done ==> inverted_section_outcome(
            value,
            children,
            rc,
            fuel + 1,
        ) == inverted_section_outcome(value, children, rc, fuel),
    decreases fuel, children, value_rank(value),
{
    lemma_mono_tokens(children, rc, fuel);
    match value {
        Data::Vec(vs) => {
            lemma_mono_items(children, vs@, rc, fuel);
        },
        Data::Dict(_) => {
            lemma_mono_tokens(children, RCtx { stack: rc.stack.push(value), ..rc }, fuel);
        },
        _ => {},
    }
}

proof fn lemma_mono_token<L>(t: TokenModel, rc: RCtx<L>, fuel: nat)
    ensures
        render_token(t, rc, fuel) is Done ==> render_token(t, rc, fuel + 1) == render_token(t, rc, fuel),
    decreases fuel, t, 0int,
{
    match t {
        TokenModel::Section(path, inverted, children, _, _, _, _, _) => {
            lemma_mono_tokens(children, rc, fuel);
            match find_path(rc.stack, path) {
                Ok(Some(value)) => {
                    lemma_mono_sections(value, children, rc, fuel);
                },
                _ => {},
            }
        },
        TokenModel::Partial(name, ind, _) => {
            if rc.partials.contains_key(name) && fuel > 0 {
                lemma_mono_tokens(
                    tokens_view(rc.partials[name]@),
                    RCtx { indent: rc.indent + ind, ..rc },
                    (fuel - 1) as nat,
                );
            }
        },
        _ => {},
    }
}

/// Output that renders within some depth of nested partials renders the
/// same with any greater depth: the depth limit never changes an output,
/// it can only stop one.
pub proof fn law_render_depth_monotone<L>(ts: Seq<TokenModel>, rc: RCtx<L>, f1: nat, f2: nat)
    requires
        f1 <= f2,
        render_tokens(ts, rc, f1) is Done,
    ensures
        render_tokens(ts, rc, f2) == render_tokens(ts, rc, f1),
    decreases f2 - f1,
{
    if f1 < f2 {
        lemma_mono_tokens(ts, rc, f1);
        law_render_depth_monotone(ts, rc, f1 + 1, f2);
    }
}


/// Joining results one after another does not depend on how they are grouped.
proof fn lemma_join_assoc(
    a: Option<Result<Seq<char>, RenderError>>,
    b: Option<Result<Seq<char>, RenderError>>,
    c: Option<Result<Seq<char>, RenderError>>,
)
    ensures
        join_res(join_res(a, b), c) == join_res(a, join_res(b, c)),
{
    if let Some(Ok(x)) = a {
        if let Some(Ok(y)) = b {
            if let Some(Ok(z)) = c {
                assert(x + y + z =~= x + (y + z));
            }
        }
    }
}

/// Along a trace, rendering two runs of tokens one after the other gives
/// what rendering the first gives, followed (where it succeeded) by what
/// rendering the second gives.
pub proof fn law_tokens_by_concat<L: Lambda>(
    a: Seq<TokenModel>,
    b: Seq<TokenModel>,
    rc: RCtx<L>,
    fuel: nat,
    wa: Seq<Trace>,
    wb: Seq<Trace>,
)
    requires
        wa.len() == a.len(),
        wb.len() == b.len(),
    ensures
        tokens_by(a + b, rc, fuel, Trace::Node(wa + wb)) == join_res(
            tokens_by(a, rc, fuel, Trace::Node(wa)),
            tokens_by(b, rc, fuel, Trace::Node(wb)),
        ),
    decreases b.len(),
{
    if b.len() == 0 {
        assert(a + b =~= a);
        assert(wa + wb =~= wa);
        if let Some(Ok(x)) = tokens_by(a, rc, fuel, Trace::Node(wa)) {
            assert(x + Seq::<char>::empty() =~= x);
        }
    } else {
        law_tokens_by_concat(a, b.drop_last(), rc, fuel, wa, wb.drop_last());
        assert((a + b).drop_last() =~= a + b.drop_last());
        assert((wa + wb).drop_last() =~= wa + wb.drop_last());
        assert((a + b).last() == b.last());
        assert((wa + wb).last() == wb.last());
        lemma_join_assoc(
            tokens_by(a, rc, fuel, Trace::Node(wa)),
            tokens_by(b.drop_last(), rc, fuel, Trace::Node(wb.drop_last())),
            crate::render_rel::token_by(b.last(), rc, fuel, wb.last()),
        );
    }
}

/// Rendering two runs of tokens one after the other may give exactly what
/// rendering the first may give where it fails, or what it may give
/// followed by what rendering the second may give.
pub proof fn law_renders_concat<L: Lambda>(
    a: Seq<TokenModel>,
    b: Seq<TokenModel>,
    rc: RCtx<L>,
    fuel: nat,
    r: Result<Seq<char>, RenderError>,
)
    ensures
        renders(a + b, rc, fuel, r) <==> (
        (exists|e: RenderError| r == Err::<Seq<char>, RenderError>(e) && #[trigger] renders(a, rc, fuel, Err(e)))
            || (exists|x: Seq<char>, r2: Result<Seq<char>, RenderError>|
            #[trigger] renders(a, rc, fuel, Ok(x)) && #[trigger] renders(b, rc, fuel, r2) && r == append_res(x, r2))),
{
    if renders(a + b, rc, fuel, r) {
        let w = choose|w: Trace| #[trigger] tokens_by(a + b, rc, fuel, w) == Some(r);
        let ws = w->Node_0;
        let wa = ws.take(a.len() as int);
        let wb = ws.skip(a.len() as int);
        assert(wa + wb =~= ws);
        law_tokens_by_concat(a, b, rc, fuel, wa, wb);
        match tokens_by(a, rc, fuel, Trace::Node(wa)) {
            Some(Err(e)) => {
                assert(renders(a, rc, fuel, Err(e)));
            },
            Some(Ok(x)) => {
                let r2 = tokens_by(b, rc, fuel, Trace::Node(wb))->0;
                assert(renders(a, rc, fuel, Ok(x)));
                assert(renders(b, rc, fuel, r2));
            },
            None => {},
        }
    }
    if exists|e: RenderError| r == Err::<Seq<char>, RenderError>(e) && #[trigger] renders(a, rc, fuel, Err(e)) {
        let e = choose|e: RenderError| r == Err::<Seq<char>, RenderError>(e) && #[trigger] renders(a, rc, fuel, Err(e));
        let wa0 = choose|w: Trace| #[trigger] tokens_by(a, rc, fuel, w) == Some(Err::<Seq<char>, RenderError>(e));
        let wa = wa0->Node_0;
        let wb = Seq::new(b.len(), |i: int| Trace::Node(Seq::empty()));
        law_tokens_by_concat(a, b, rc, fuel, wa, wb);
        assert(tokens_by(a + b, rc, fuel, Trace::Node(wa + wb)) == Some(r));
    }
    if exists|x: Seq<char>, r2: Result<Seq<char>, RenderError>|
        #[trigger] renders(a, rc, fuel, Ok(x)) && #[trigger] renders(b, rc, fuel, r2) && r == append_res(x, r2) {
        let (x, r2) = choose|x: Seq<char>, r2: Result<Seq<char>, RenderError>|
            #[trigger] renders(a, rc, fuel, Ok(x)) && #[trigger] renders(b, rc, fuel, r2) && r == append_res(x, r2);
        let wa0 = choose|w: Trace| #[trigger] tokens_by(a, rc, fuel, w) == Some(Ok::<Seq<char>, RenderError>(x));
        let wb0 = choose|w: Trace| #[trigger] tokens_by(b, rc, fuel, w) == Some(r2);
        law_tokens_by_concat(a, b, rc, fuel, wa0->Node_0, wb0->Node_0);
        assert(tokens_by(a + b, rc, fuel, Trace::Node(wa0->Node_0 + wb0->Node_0)) == Some(r));
    }
}


/// A single token renders as the token does.
proof fn lemma_render_single<L>(t: TokenModel, rc: RCtx<L>, fuel: nat)
    ensures
        render_token(t, rc, fuel) matches Outcome::Done(y) ==> render_tokens(seq![t], rc, fuel) == Outcome::Done(y),
{
    let ts = seq![t];
    assert(ts.drop_last() =~= Seq::<TokenModel>::empty());
    assert(ts.last() == t);
    assert(render_tokens(Seq::<TokenModel>::empty(), rc, fuel) == Outcome::Done(Seq::<char>::empty()));
    if let Outcome::Done(y) = render_token(t, rc, fuel) {
        assert(Seq::<char>::empty() + y =~= y);
    }
}

/// The templates `{{#a}}x{{/a}}` and `{{^a}}x{{/a}}`, for a nonempty `x`
/// without `{` or newlines, rendered where `a` finds a boolean, a list, a
/// map or nothing: both compile, exactly one of them renders something,
/// and the inverted one renders the text or nothing.
pub proof fn law_section_templates_complement<L>(x: Seq<char>, rc: RCtx<L>, fuel: nat)
    requires
        x.len() > 0,
        forall|i: int| 0 <= i < x.len() ==> x[i] != '{' && x[i] != '\n',
        find_path(rc.stack, name_a()) matches Ok(found) && (found matches Some(v) ==> (v is Bool || v is Vec
            || v is Dict)),
    ensures
        spec_tokenize(section_template(false, x), default_otag(), default_ctag()) matches Ok((t1, _))
            && spec_tokenize(section_template(true, x), default_otag(), default_ctag()) matches Ok((t2, _))
            && render_tokens(t1, rc, fuel) matches Outcome::Done(a)
            && render_tokens(t2, rc, fuel) matches Outcome::Done(b)
            && (a.len() > 0 <==> b.len() == 0)
            && (b == text_output(x, rc.indent) || b.len() == 0),
{
    law_section_template_compiles(false, x);
    law_section_template_compiles(true, x);
    let o = default_otag();
    let c = default_ctag();
    law_sections_complement_text(name_a(), x, o, section_open_tag(false), x, section_close_tag(), c, rc, fuel);
    law_sections_complement_text(name_a(), x, o, section_open_tag(true), x, section_close_tag(), c, rc, fuel);
    lemma_render_single(section_token(false, x), rc, fuel);
    lemma_render_single(section_token(true, x), rc, fuel);
}


/// Whether a value makes an inverted section render its children: false,
/// or an empty list.
pub open spec fn is_falsy<L>(v: Data<L>) -> bool {
    v == Data::<L>::Bool(false) || (v matches Data::Vec(xs) && xs@.len() == 0)
}

/// An inverted section renders its children exactly where its name finds
/// false, an empty list or nothing; any other value (true, a string, a
/// nonempty list, a map, a lambda) makes it render nothing, whatever its
/// children.
pub proof fn law_inverted_section<L: Lambda>(
    path: Seq<Seq<char>>,
    children: Seq<TokenModel>,
    otag: Seq<char>,
    osection: Seq<char>,
    src: Seq<char>,
    csection: Seq<char>,
    ctag: Seq<char>,
    rc: RCtx<L>,
    fuel: nat,
    w: Trace,
)
    requires
        find_path(rc.stack, path) is Ok,
    ensures
        ({
            let t = TokenModel::Section(path, true, children, otag, osection, src, csection, ctag);
            let found = find_path(rc.stack, path)->Ok_0;
            &&& (found matches Some(v) && !is_falsy(v)) ==> render_token(t, rc, fuel) == Outcome::Done(Seq::<char>::empty())
                && crate::render_rel::token_by(t, rc, fuel, w) == Some(Ok::<Seq<char>, RenderError>(Seq::empty()))
            &&& (found is None || (found matches Some(v) && is_falsy(v))) ==> render_token(t, rc, fuel)
                == render_tokens(children, rc, fuel) && crate::render_rel::token_by(t, rc, fuel, w) == tokens_by(
                children,
                rc,
                fuel,
                w,
            )
        }),
{
}

/// Indentation accumulates: a partial whose tokens are one text, rendered
/// under the indentation `i`, gives that text with each line that is not
/// empty indented by `i` followed by the partial's own indentation.
pub proof fn law_partial_indentation<L: Lambda>(
    name: Seq<char>,
    ind: Seq<char>,
    tag: Seq<char>,
    v: Seq<char>,
    rc: RCtx<L>,
    fuel: nat,
    w: Trace,
)
    requires
        rc.partials.contains_key(name),
        tokens_view(rc.partials[name]@) == seq![TokenModel::Text(v)],
        fuel > 0,
    ensures
        render_token(TokenModel::Partial(name, ind, tag), rc, fuel) == Outcome::Done(text_output(v, rc.indent + ind)),
        crate::render_rel::token_by(TokenModel::Partial(name, ind, tag), rc, fuel, w) matches Some(r) ==> r == Ok::<
            Seq<char>,
            RenderError,
        >(text_output(v, rc.indent + ind)),
{
    let rc2 = RCtx { indent: rc.indent + ind, ..rc };
    lemma_text_children(v, rc2, (fuel - 1) as nat);
    let ts = seq![TokenModel::Text(v)];
    if let Trace::Node(ws) = w {
        if ws.len() == 1 {
            assert(ts.drop_last() =~= Seq::<TokenModel>::empty());
            assert(ws.drop_last() =~= Seq::<Trace>::empty());
            assert(ts.last() == TokenModel::Text(v));
            assert(Seq::<char>::empty() + text_output(v, rc2.indent) =~= text_output(v, rc2.indent));
            assert(tokens_by(ts.drop_last(), rc2, (fuel - 1) as nat, Trace::Node(ws.drop_last())) == Some(
                Ok::<Seq<char>, RenderError>(Seq::empty()),
            ));
            assert(crate::render_rel::token_by(TokenModel::Text(v), rc2, (fuel - 1) as nat, ws.last()) == Some(
                Ok::<Seq<char>, RenderError>(text_output(v, rc2.indent)),
            ));
            assert(tokens_by(ts, rc2, (fuel - 1) as nat, w) == Some(Ok::<Seq<char>, RenderError>(text_output(v, rc2.indent))));
        }
    }
}

/// Through two levels of partials, the indentations add up: a partial `a`
/// at indentation `i1` whose only token is a partial `b` at indentation
/// `i2`, whose only token is the text `v`, renders `v` indented by `i1`
/// followed by `i2`.
pub proof fn law_nested_partial_indentation<L: Lambda>(
    a: Seq<char>,
    b: Seq<char>,
    i1: Seq<char>,
    i2: Seq<char>,
    tag_a: Seq<char>,
    tag_b: Seq<char>,
    v: Seq<char>,
    rc: RCtx<L>,
    fuel: nat,
)
    requires
        rc.partials.contains_key(a),
        rc.partials.contains_key(b),
        tokens_view(rc.partials[a]@) == seq![TokenModel::Partial(b, i2, tag_b)],
        tokens_view(rc.partials[b]@) == seq![TokenModel::Text(v)],
        rc.indent.len() == 0,
        fuel > 1,
    ensures
        render_tokens(seq![TokenModel::Partial(a, i1, tag_a)], rc, fuel) == Outcome::Done(text_output(v, i1 + i2)),
{
    let rc1 = RCtx { indent: rc.indent + i1, ..rc };
    law_partial_indentation(b, i2, tag_b, v, rc1, (fuel - 1) as nat, Trace::Node(Seq::empty()));
    assert(rc.indent + i1 =~= i1);
    assert(rc1.indent + i2 =~= i1 + i2);
    lemma_render_single(TokenModel::Partial(b, i2, tag_b), rc1, (fuel - 1) as nat);
    lemma_render_single(TokenModel::Partial(a, i1, tag_a), rc, fuel);
}

} // verus!
