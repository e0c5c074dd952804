//! Rendering compiled tokens against a stack of data values.
use vstd::prelude::*;
use vstd::hash_map::StringHashMap;
use crate::text::{escape_html, escape_html_string, chars_of, string_of_range};
use crate::token::{Token, TokenModel, ParseError, token_view, tokens_view, lemma_tokens_view_len, lemma_tokens_view_index};
use crate::data::{Data, Lambda, find_path, stack_view, find};
use crate::parser::tokenize;
use crate::parser_spec::spec_tokenize;
use crate::render_rel::{
    Trace, res_view, wrap_res, variable_res, lambda_by, tokens_by, token_by, items_by,
    section_by, inverted_by, renders, token_renders, section_renders, inverted_renders, lambda_renders,
    lemma_token_lambda,
};

verus! {

broadcast use vstd::string::group_string_axioms;

/// Why a template cannot be rendered against some data.
#[derive(Clone, Copy, Debug, PartialEq, Eq, Structural)]
pub enum RenderError {
    /// A name was looked up in a context that is not a map.
    ContextNotAMap,
    /// A variable names a value that is neither a string nor a lambda.
    NotAString,
    /// A section names a string.
    NotASection,
    /// A token stands for a section that was never closed.
    IncompleteSection,
    /// Partials or lambdas nest deeper than the limit.
    TooDeep,
    /// A lambda returned text that does not compile.
    Lambda(ParseError),
}

/// What rendering gives: the output, an error, or nothing that can be
/// known in advance because a lambda was called on the way.
pub enum Outcome {
    Done(Seq<char>),
    Fail(RenderError),
    Depends,
}

/// The outcome of rendering one thing after another.
pub open spec fn then(a: Outcome, b: Outcome) -> Outcome {
    match a {
        Outcome::Fail(e) => Outcome::Fail(e),
        Outcome::Done(x) => match b {
            Outcome::Done(y) => Outcome::Done(x + y),
            Outcome::Fail(e) => Outcome::Fail(e),
            Outcome::Depends => Outcome::Depends,
        },
        Outcome::Depends => Outcome::Depends,
    }
}

/// The rendering context: the partials, the stack of data values (the
/// innermost last), and the indentation of the partial being rendered.
#[verifier::reject_recursive_types(L)]
pub struct RCtx<L> {
    pub partials: Map<Seq<char>, Vec<Token>>,
    pub stack: Seq<Data<L>>,
    pub indent: Seq<char>,
}

/// Index of the first newline of `v`.
pub open spec fn first_nl(v: Seq<char>) -> Option<int>
    decreases v.len(),
{
    if v.len() == 0 {
        None
    } else if v[0] == '\n' {
        Some(0)
    } else {
        match first_nl(v.drop_first()) {
            Some(i) => Some(i + 1),
            None => None,
        }
    }
}

pub proof fn lemma_first_nl_bound(v: Seq<char>)
    ensures
        first_nl(v) matches Some(i) ==> 0 <= i < v.len() && v[i] == '\n',
    decreases v.len(),
{
    if v.len() > 0 && v[0] != '\n' {
        lemma_first_nl_bound(v.drop_first());
    }
}

/// The length of the first line of `v`, its newline included.
pub open spec fn first_line_len(v: Seq<char>) -> int {
    match first_nl(v) {
        Some(i) => i + 1,
        None => v.len() as int,
    }
}

/// `v` with `indent` put before each line that is not empty.
pub open spec fn indent_text(v: Seq<char>, indent: Seq<char>) -> Seq<char>
    decreases v.len(),
{
    if v.len() == 0 {
        Seq::empty()
    } else {
        let n = first_line_len(v);
        proof {
            lemma_first_nl_bound(v);
        }
        let line = v.take(n);
        (if line[0] != '\n' {
            indent
        } else {
            Seq::empty()
        }) + line + indent_text(v.skip(n), indent)
    }
}

/// The outcome of rendering `ts` in `rc`, with at most `fuel` nested
/// expansions of partials.
pub open spec fn render_tokens<L>(ts: Seq<TokenModel>, rc: RCtx<L>, fuel: nat) -> Outcome
    decreases fuel, ts, 0int,
{
    if ts.len() == 0 {
        Outcome::Done(Seq::empty())
    } else {
        proof {
            assert(ts.drop_last() == ts.subrange(0, ts.len() - 1));
        }
        then(render_tokens(ts.drop_last(), rc, fuel), render_token(ts.last(), rc, fuel))
    }
}

/// The outcome of rendering the children of a section once for each of `items`.
pub open spec fn render_items<L>(
    children: Seq<TokenModel>,
    items: Seq<Data<L>>,
    rc: RCtx<L>,
    fuel: nat,
) -> Outcome
    decreases fuel, children, items.len(),
{
    if items.len() == 0 {
        Outcome::Done(Seq::empty())
    } else {
        then(
            render_items(children, items.drop_last(), rc, fuel),
            render_tokens(children, RCtx { stack: rc.stack.push(items.last()), ..rc }, fuel),
        )
    }
}

/// The outcome of the string that a variable's value stands for: the
/// string itself; a lambda's output cannot be known in advance.
pub open spec fn utag_outcome<L>(value: Data<L>) -> Outcome {
    match value {
        Data::Str(s) => Outcome::Done(s@),
        Data::Fun(_) => Outcome::Depends,
        _ => Outcome::Fail(RenderError::NotAString),
    }
}

/// `o` with its output escaped.
pub open spec fn escaped(o: Outcome) -> Outcome {
    match o {
        Outcome::Done(s) => Outcome::Done(escape_html(s)),
        _ => o,
    }
}

/// The outcome of a variable that looking up its name gave `found`: the
/// string of the value (escaped where `escape`), after the indentation.
pub open spec fn render_variable<L>(found: Result<Option<Data<L>>, ()>, escape: bool, rc: RCtx<L>) -> Outcome {
    match found {
        Err(_) => Outcome::Fail(RenderError::ContextNotAMap),
        Ok(None) => Outcome::Done(Seq::empty()),
        Ok(Some(value)) => then(
            Outcome::Done(rc.indent),
            if escape {
                escaped(utag_outcome(value))
            } else {
                utag_outcome(value)
            },
        ),
    }
}

/// How many renderings of the children a section value may ask for, plus one.
pub open spec fn value_rank<L>(value: Data<L>) -> int {
    match value {
        Data::Vec(vs) => vs@.len() as int + 1,
        _ => 1,
    }
}

/// The outcome of a section whose name finds `value`: its children, once
/// for a true boolean or a map (on top of the stack), once per item of a
/// list, nothing for false.
pub open spec fn section_outcome<L>(value: Data<L>, children: Seq<TokenModel>, rc: RCtx<L>, fuel: nat) -> Outcome
    decreases fuel, children, value_rank(value),
{
    match value {
        Data::Bool(b) => if b {
            render_tokens(children, rc, fuel)
        } else {
            Outcome::Done(Seq::empty())
        },
        Data::Vec(vs) => render_items(children, vs@, rc, fuel),
        Data::Dict(_) => render_tokens(children, RCtx { stack: rc.stack.push(value), ..rc }, fuel),
        Data::Fun(_) => Outcome::Depends,
        Data::Str(_) => Outcome::Fail(RenderError::NotASection),
    }
}

/// The outcome of an inverted section whose name finds `value`: its
/// children for false or an empty list, nothing otherwise.
pub open spec fn inverted_section_outcome<L>(value: Data<L>, children: Seq<TokenModel>, rc: RCtx<L>, fuel: nat) -> Outcome
    decreases fuel, children, 1int,
{
    match value {
        Data::Bool(b) => if b {
            Outcome::Done(Seq::empty())
        } else {
            render_tokens(children, rc, fuel)
        },
        Data::Vec(xs) => if xs@.len() == 0 {
            render_tokens(children, rc, fuel)
        } else {
            Outcome::Done(Seq::empty())
        },
        _ => Outcome::Done(Seq::empty()),
    }
}

/// The outcome of rendering one token in `rc`.
pub open spec fn render_token<L>(t: TokenModel, rc: RCtx<L>, fuel: nat) -> Outcome
    decreases fuel, t, 0int,
{
    match t {
        TokenModel::Text(v) => Outcome::Done(
            if rc.indent.len() == 0 {
                v
            } else {
                indent_text(v, rc.indent)
            },
        ),
        TokenModel::ETag(path, _) => render_variable(find_path(rc.stack, path), true, rc),
        TokenModel::UTag(path, _) => render_variable(find_path(rc.stack, path), false, rc),
        TokenModel::Section(path, inverted, children, _, _, _, _, _) => match find_path(
            rc.stack,
            path,
        ) {
            Err(_) => Outcome::Fail(RenderError::ContextNotAMap),
            Ok(None) => if inverted {
                render_tokens(children, rc, fuel)
            } else {
                Outcome::Done(Seq::empty())
            },
            Ok(Some(value)) => if inverted {
                inverted_section_outcome(value, children, rc, fuel)
            } else {
                section_outcome(value, children, rc, fuel)
            },
        },
        TokenModel::Partial(name, ind, _) => if rc.partials.contains_key(name) {
            if fuel == 0 {
                Outcome::Fail(RenderError::TooDeep)
            } else {
                render_tokens(
                    tokens_view(rc.partials[name]@),
                    RCtx { indent: rc.indent + ind, ..rc },
                    (fuel - 1) as nat,
                )
            }
        } else {
            Outcome::Done(Seq::empty())
        },
        TokenModel::IncompleteSection(_, _, _, _) => Outcome::Fail(RenderError::IncompleteSection),
    }
}

/// The outcome of compiling `text` with the delimiters `otag` and `ctag`
/// and rendering it in `rc`: what a lambda's result turns into.
pub open spec fn render_text<L>(text: Seq<char>, otag: Seq<char>, ctag: Seq<char>, rc: RCtx<L>, fuel: nat) -> Outcome {
    match spec_tokenize(text, otag, ctag) {
        Err(e) => Outcome::Fail(RenderError::Lambda(e)),
        Ok((ts, _)) => render_tokens(ts, rc, fuel),
    }
}

/// Whether an executable result agrees with an outcome.
pub open spec fn agrees(r: Result<String, RenderError>, o: Outcome) -> bool {
    match o {
        Outcome::Done(s) => r matches Ok(x) && x@ == s,
        Outcome::Fail(e) => r == Err::<String, RenderError>(e),
        Outcome::Depends => true,
    }
}

/// The opening delimiter that the output of a variable's lambda is compiled with.
pub open spec fn default_otag() -> Seq<char> {
    seq!['{', '{']
}

/// The closing delimiter that the output of a variable's lambda is compiled with.
pub open spec fn default_ctag() -> Seq<char> {
    seq!['}', '}']
}

/// The state that rendering carries: the partials, the stack of data
/// values, and the current indentation.
#[verifier::reject_recursive_types(L)]
pub struct RenderContext<'a, L> {
    pub partials: &'a StringHashMap<Vec<Token>>,
    pub stack: Vec<&'a Data<L>>,
    pub indent: String,
}

impl<'a, L> RenderContext<'a, L> {
    pub open spec fn view(&self) -> RCtx<L> {
        RCtx { partials: self.partials@, stack: stack_view(self.stack@), indent: self.indent@ }
    }
}

/// `stack` with `v` on top.
fn pushed<'a, L>(stack: &Vec<&'a Data<L>>, v: &'a Data<L>) -> (r: Vec<&'a Data<L>>)
    ensures
        stack_view(r@) == stack_view(stack@).push(*v),
{
    let mut r: Vec<&'a Data<L>> = Vec::new();
    let mut i: usize = 0;
    while i < stack.len()
        invariant
            i <= stack.len(),
            r@ == stack@.take(i as int),
        decreases stack.len() - i,
    {
        r.push(stack[i]);
        i += 1;
        assert(r@ =~= stack@.take(i as int));
    }
    r.push(v);
    assert(r@ =~= stack@.push(v));
    assert(stack_view(r@) =~= stack_view(stack@).push(*v));
    r
}

/// `value` with `indent` put before each line that is not empty.
pub fn indent_lines(value: &String, indent: &String) -> (r: String)
    ensures
        r@ == indent_text(value@, indent@),
{
    let v = chars_of(value.as_str());
    let mut out = String::new();
    let mut pos: usize = 0;
    let len = v.len();
    assert(v@.skip(0) =~= v@);
    while pos < len
        invariant
            pos <= len == v.len(),
            v@ == value@,
            out@ + indent_text(v@.skip(pos as int), indent@) == indent_text(v@, indent@),
        decreases len - pos,
    {
        let ghost rest = v@.skip(pos as int);
        let mut i = pos;
        while i < len && v[i] != '\n'
            invariant
                pos <= i <= len == v.len(),
                rest == v@.skip(pos as int),
                first_nl(rest) == match first_nl(v@.skip(i as int)) {
                    Some(k) => Some(k + (i - pos)),
                    None => None,
                },
            decreases len - i,
        {
            assert(v@.skip(i as int).drop_first() =~= v@.skip(i + 1));
            i += 1;
        }
        let end = if i < len {
            i + 1
        } else {
            len
        };
        proof {
            if i < len {
                assert(v@.skip(i as int)[0] == '\n');
            } else {
                assert(v@.skip(i as int) =~= Seq::<char>::empty());
            }
            assert(first_line_len(rest) == end - pos);
            lemma_first_nl_bound(rest);
        }
        let line = string_of_range(&v, pos, end);
        if v[pos] != '\n' {
            out.append(indent.as_str());
        }
        out.append(line.as_str());
        proof {
            assert(rest.take(end - pos) =~= v@.subrange(pos as int, end as int));
            assert(rest.skip(end - pos) =~= v@.skip(end as int));
            assert(rest[0] == v@[pos as int]);
        }
        pos = end;
    }
    assert(v@.skip(len as int) =~= Seq::<char>::empty());
    out
}

/// Renders `ts` in `ctx`, with at most `fuel` nested expansions of partials
/// and lambdas.
pub fn render_helper<'a, L: Lambda>(ts: &Vec<Token>, ctx: &RenderContext<'a, L>, fuel: usize) -> (r: Result<
    String,
    RenderError,
>)
    ensures
        agrees(r, render_tokens(tokens_view(ts@), ctx.view(), fuel as nat)),
        renders(tokens_view(ts@), ctx.view(), fuel as nat, res_view(r)),
    decreases 3 * fuel + 2, tokens_view(ts@), 0int,
{
    let ghost tv = tokens_view(ts@);
    let ghost rc = ctx.view();
    let ghost mut ws: Seq<Trace> = Seq::empty();
    proof {
        lemma_tokens_view_len(ts@);
        assert(tv.take(0) =~= Seq::<TokenModel>::empty());
    }
    let mut out = String::new();
    let mut i: usize = 0;
    while i < ts.len()
        invariant
            i <= ts.len() == tv.len(),
            tv == tokens_view(ts@),
            rc == ctx.view(),
            render_tokens(tv.take(i as int), ctx.view(), fuel as nat) matches Outcome::Done(s) ==> out@ == s,
            !(render_tokens(tv.take(i as int), ctx.view(), fuel as nat) is Fail),
            ws.len() == i,
            tokens_by(tv.take(i as int), rc, fuel as nat, Trace::Node(ws)) == Some(
                Ok::<Seq<char>, RenderError>(out@),
            ),
        decreases ts.len() - i,
    {
        proof {
            lemma_tokens_view_index(ts@, i as int);
            assert(tv.take(i + 1).drop_last() =~= tv.take(i as int));
            assert(tv.take(i + 1).last() == tv[i as int]);
            assert(decreases_to!(tv => tv[i as int]));
        }
        let res = render_one(&ts[i], ctx, fuel);
        let ghost wt = choose|w: Trace| #[trigger] token_by(tv[i as int], rc, fuel as nat, w) == Some(res_view(res));
        proof {
            assert(ws.push(wt).drop_last() =~= ws);
            assert(ws.push(wt).last() == wt);
        }
        match res {
            Ok(s) => {
                out.append(s.as_str());
                proof {
                    ws = ws.push(wt);
                }
            },
            Err(e) => {
                proof {
                    lemma_render_tokens_prefix_fail(tv, ctx.view(), fuel as nat, i + 1);
                    let full = ws.push(wt) + Seq::new((tv.len() - i - 1) as nat, |j: int| Trace::Node(Seq::empty()));
                    assert(full.take(i + 1) =~= ws.push(wt));
                    lemma_tokens_by_prefix_err(tv, rc, fuel as nat, full, i + 1, e);
                    assert(tokens_by(tv, rc, fuel as nat, Trace::Node(full)) == Some(res_view(Err::<String, RenderError>(e))));
                }
                return Err(e);
            },
        }
        i += 1;
    }
    assert(tv.take(ts.len() as int) =~= tv);
    assert(tokens_by(tv, rc, fuel as nat, Trace::Node(ws)) == Some(res_view(Ok::<String, RenderError>(out))));
    Ok(out)
}

/// Along a trace, rendering fails on the whole where it fails on a prefix.
proof fn lemma_tokens_by_prefix_err<L: Lambda>(
    ts: Seq<TokenModel>,
    rc: RCtx<L>,
    fuel: nat,
    ws: Seq<Trace>,
    k: int,
    e: RenderError,
)
    requires
        0 <= k <= ts.len(),
        ws.len() == ts.len(),
        tokens_by(ts.take(k), rc, fuel, Trace::Node(ws.take(k))) == Some(Err::<Seq<char>, RenderError>(e)),
    ensures
        tokens_by(ts, rc, fuel, Trace::Node(ws)) == Some(Err::<Seq<char>, RenderError>(e)),
    decreases ts.len(),
{
    if k < ts.len() {
        assert(ts.drop_last().take(k) =~= ts.take(k));
        assert(ws.drop_last().take(k) =~= ws.take(k));
        lemma_tokens_by_prefix_err(ts.drop_last(), rc, fuel, ws.drop_last(), k, e);
    } else {
        assert(ts.take(k) =~= ts);
        assert(ws.take(k) =~= ws);
    }
}

/// Along traces, rendering a list fails on the whole where it fails on a prefix.
proof fn lemma_items_by_prefix_err<L: Lambda>(
    children: Seq<TokenModel>,
    items: Seq<Data<L>>,
    rc: RCtx<L>,
    fuel: nat,
    ws: Seq<Trace>,
    k: int,
    e: RenderError,
)
    requires
        0 <= k <= items.len(),
        ws.len() == items.len(),
        items_by(children, items.take(k), rc, fuel, ws.take(k)) == Some(Err::<Seq<char>, RenderError>(e)),
    ensures
        items_by(children, items, rc, fuel, ws) == Some(Err::<Seq<char>, RenderError>(e)),
    decreases items.len(),
{
    if k < items.len() {
        assert(items.drop_last().take(k) =~= items.take(k));
        assert(ws.drop_last().take(k) =~= ws.take(k));
        lemma_items_by_prefix_err(children, items.drop_last(), rc, fuel, ws.drop_last(), k, e);
    } else {
        assert(items.take(k) =~= items);
        assert(ws.take(k) =~= ws);
    }
}

/// Rendering fails on the whole where it fails on a prefix.
proof fn lemma_render_tokens_prefix_fail<L>(ts: Seq<TokenModel>, rc: RCtx<L>, fuel: nat, k: int)
    requires
        0 <= k <= ts.len(),
    ensures
        render_tokens(ts.take(k), rc, fuel) is Fail ==> render_tokens(ts, rc, fuel) == render_tokens(ts.take(k), rc, fuel),
        render_tokens(ts.take(k), rc, fuel) is Depends ==> render_tokens(ts, rc, fuel) is Depends,
    decreases ts.len(),
{
    if k < ts.len() {
        assert(ts.drop_last().take(k) =~= ts.take(k));
        lemma_render_tokens_prefix_fail(ts.drop_last(), rc, fuel, k);
    } else {
        assert(ts.take(k) =~= ts);
    }
}

/// Renders one token in `ctx`.
pub fn render_one<'a, L: Lambda>(t: &Token, ctx: &RenderContext<'a, L>, fuel: usize) -> (r: Result<
    String,
    RenderError,
>)
    ensures
        agrees(r, render_token(token_view(*t), ctx.view(), fuel as nat)),
        token_renders(token_view(*t), ctx.view(), fuel as nat, res_view(r)),
    decreases 3 * fuel + 2, token_view(*t), 0int,
{
    let ghost tm = token_view(*t);
    let ghost rc = ctx.view();
    let ghost any = Trace::Node(Seq::empty());
    match t {
        Token::Text(value) => {
            let r = if ctx.indent.as_str().is_empty() {
                Ok(value.clone())
            } else {
                Ok(indent_lines(value, &ctx.indent))
            };
            proof {
                assert(token_by(tm, rc, fuel as nat, any) == Some(res_view(r)));
            }
            r
        },
        Token::ETag(path, _) => {
            match find(&ctx.stack, path) {
                Err(()) => {
                    proof {
                        assert(token_by(tm, rc, fuel as nat, any) == Some(res_view(Err::<String, RenderError>(RenderError::ContextNotAMap))));
                    }
                    Err(RenderError::ContextNotAMap)
                },
                Ok(None) => {
                    proof {
                        assert(token_by(tm, rc, fuel as nat, any) == Some(Ok::<Seq<char>, RenderError>(Seq::empty())));
                    }
                    Ok(String::new())
                },
                Ok(Some(value)) => {
                    let res = render_etag(value, ctx, fuel);
                    let r = match &res {
                        Err(e) => Err(*e),
                        Ok(v) => {
                            let mut out = ctx.indent.clone();
                            out.append(v.as_str());
                            Ok(out)
                        },
                    };
                    proof {
                        lemma_variable_token(tm, rc, fuel as nat, true, *value, res, r);
                    }
                    r
                },
            }
        },
        Token::UTag(path, _) => {
            match find(&ctx.stack, path) {
                Err(()) => {
                    proof {
                        assert(token_by(tm, rc, fuel as nat, any) == Some(res_view(Err::<String, RenderError>(RenderError::ContextNotAMap))));
                    }
                    Err(RenderError::ContextNotAMap)
                },
                Ok(None) => {
                    proof {
                        assert(token_by(tm, rc, fuel as nat, any) == Some(Ok::<Seq<char>, RenderError>(Seq::empty())));
                    }
                    Ok(String::new())
                },
                Ok(Some(value)) => {
                    let res = render_utag(value, ctx, fuel);
                    let r = match &res {
                        Err(e) => Err(*e),
                        Ok(v) => {
                            let mut out = ctx.indent.clone();
                            out.append(v.as_str());
                            Ok(out)
                        },
                    };
                    proof {
                        lemma_variable_token(tm, rc, fuel as nat, false, *value, res, r);
                    }
                    r
                },
            }
        },
        Token::Section(path, inverted, children, otag, _, src, _, ctag) => {
            proof {
                assert(decreases_to!(token_view(*t) => tokens_view(children@)));
            }
            let found = find(&ctx.stack, path);
            match found {
                Err(()) => {
                    proof {
                        assert(token_by(tm, rc, fuel as nat, any) == Some(res_view(Err::<String, RenderError>(RenderError::ContextNotAMap))));
                    }
                    Err(RenderError::ContextNotAMap)
                },
                Ok(None) => {
                    if *inverted {
                        let r = render_helper(children, ctx, fuel);
                        proof {
                            let w = choose|w: Trace| #[trigger] tokens_by(tokens_view(children@), rc, fuel as nat, w) == Some(res_view(r));
                            assert(token_by(tm, rc, fuel as nat, w) == Some(res_view(r)));
                        }
                        r
                    } else {
                        proof {
                            assert(token_by(tm, rc, fuel as nat, any) == Some(Ok::<Seq<char>, RenderError>(Seq::empty())));
                        }
                        Ok(String::new())
                    }
                },
                Ok(Some(value)) => {
                    if *inverted {
                        let r = render_inverted_section(value, children, ctx, fuel);
                        proof {
                            let w = choose|w: Trace| #[trigger] inverted_by(*value, tokens_view(children@), rc, fuel as nat, w) == Some(res_view(r));
                            assert(token_by(tm, rc, fuel as nat, w) == Some(res_view(r)));
                        }
                        r
                    } else {
                        let r = render_section(value, src, otag, ctag, children, ctx, fuel);
                        proof {
                            if let Data::Fun(f) = value {
                                let w = choose|w: Trace| #[trigger] lambda_by(*f, src@, otag@, ctag@, rc, fuel as nat, w) matches Some(b) && res_view(r) == wrap_res(b, false, Seq::empty());
                                lemma_token_lambda(tm, rc, fuel as nat, w);
                                assert(token_by(tm, rc, fuel as nat, w) == Some(res_view(r)));
                            } else {
                                let w = choose|w: Trace| #[trigger] section_by(*value, tokens_view(children@), rc, fuel as nat, w) == Some(res_view(r));
                                assert(token_by(tm, rc, fuel as nat, w) == Some(res_view(r)));
                            }
                        }
                        r
                    }
                },
            }
        },
        Token::Partial(name, ind, _) => {
            match ctx.partials.get(name.as_str()) {
                None => {
                    proof {
                        assert(token_by(tm, rc, fuel as nat, any) == Some(Ok::<Seq<char>, RenderError>(Seq::empty())));
                    }
                    Ok(String::new())
                },
                Some(tokens) => {
                    if fuel == 0 {
                        proof {
                            assert(token_by(tm, rc, fuel as nat, any) == Some(res_view(Err::<String, RenderError>(RenderError::TooDeep))));
                        }
                        return Err(RenderError::TooDeep);
                    }
                    let mut indent = ctx.indent.clone();
                    indent.append(ind.as_str());
                    let inner = RenderContext { partials: ctx.partials, stack: copy_stack(&ctx.stack), indent };
                    let r = render_helper(tokens, &inner, fuel - 1);
                    proof {
                        assert(inner.view() == (RCtx { indent: rc.indent + ind@, ..rc }));
                        assert(*tokens == rc.partials[name@]);
                        let w = choose|w: Trace| #[trigger] tokens_by(tokens_view(tokens@), inner.view(), (fuel - 1) as nat, w) == Some(res_view(r));
                        assert(token_by(tm, rc, fuel as nat, w) == Some(res_view(r)));
                    }
                    r
                },
            }
        },
        Token::IncompleteSection(_, _, _, _) => {
            proof {
                assert(token_by(tm, rc, fuel as nat, any) == Some(res_view(Err::<String, RenderError>(RenderError::IncompleteSection))));
            }
            Err(RenderError::IncompleteSection)
        },
    }
}

/// `prefix` put before a result that a wrapped result gave.
proof fn lemma_prefix_wrap(
    b: Result<Seq<char>, RenderError>,
    escape: bool,
    prefix: Seq<char>,
    res: Result<String, RenderError>,
    r: Result<String, RenderError>,
)
    requires
        res_view(res) == wrap_res(b, escape, Seq::empty()),
        res is Err ==> r == res,
        res matches Ok(v) ==> r matches Ok(x) && x@ == prefix + v@,
    ensures
        res_view(r) == wrap_res(b, escape, prefix),
{
    if let Ok(y) = b {
        let z = if escape {
            escape_html(y)
        } else {
            y
        };
        assert(Seq::<char>::empty() + z =~= z);
    }
}

/// What a variable token gives, from what its value gives.
proof fn lemma_variable_token<L: Lambda>(
    tm: TokenModel,
    rc: RCtx<L>,
    fuel: nat,
    escape: bool,
    value: Data<L>,
    res: Result<String, RenderError>,
    r: Result<String, RenderError>,
)
    requires
        tm matches TokenModel::ETag(p, _) ==> escape && find_path(rc.stack, p) == Ok::<Option<Data<L>>, ()>(Some(value)),
        tm matches TokenModel::UTag(p, _) ==> !escape && find_path(rc.stack, p) == Ok::<Option<Data<L>>, ()>(Some(value)),
        tm is ETag || tm is UTag,
        value matches Data::Fun(f) ==> lambda_renders(f, Seq::empty(), default_otag(), default_ctag(), escape, Seq::empty(), rc, fuel, res_view(res)),
        !(value is Fun) ==> res_view(res) == variable_res(Ok::<Option<Data<L>>, ()>(Some(value)), escape, Seq::empty()),
        res is Err ==> r == res,
        res matches Ok(v) ==> r matches Ok(x) && x@ == rc.indent + v@,
    ensures
        token_renders(tm, rc, fuel, res_view(r)),
{
    if let Data::Fun(f) = value {
        let w = choose|w: Trace| #[trigger] lambda_by(f, Seq::empty(), default_otag(), default_ctag(), rc, fuel, w) matches Some(b) && res_view(res) == wrap_res(b, escape, Seq::empty());
        let b = lambda_by(f, Seq::empty(), default_otag(), default_ctag(), rc, fuel, w)->0;
        lemma_prefix_wrap(b, escape, rc.indent, res, r);
        lemma_token_lambda(tm, rc, fuel, w);
        assert(token_by(tm, rc, fuel, w) == Some(res_view(r)));
    } else {
        let b = match value {
            Data::Str(x) => Ok::<Seq<char>, RenderError>(x@),
            _ => Err::<Seq<char>, RenderError>(RenderError::NotAString),
        };
        lemma_prefix_wrap(b, escape, rc.indent, res, r);
        assert(token_by(tm, rc, fuel, Trace::Node(Seq::empty())) == Some(res_view(r)));
    }
}

/// The string that a variable's value stands for: a string, or what a
/// lambda's output renders to.
fn render_utag<'a, L: Lambda>(value: &Data<L>, ctx: &RenderContext<'a, L>, fuel: usize) -> (r: Result<String, RenderError>)
    ensures
        agrees(r, utag_outcome(*value)),
        *value matches Data::Fun(f) ==> lambda_renders(
            f,
            Seq::empty(),
            default_otag(),
            default_ctag(),
            false,
            Seq::empty(),
            ctx.view(),
            fuel as nat,
            res_view(r),
        ),
        !(*value is Fun) ==> res_view(r) == variable_res(Ok::<Option<Data<L>>, ()>(Some(*value)), false, Seq::empty()),
    decreases 3 * fuel + 1, Seq::<TokenModel>::empty(), 1int,
{
    match value {
        Data::Str(s) => {
            proof {
                assert(Seq::<char>::empty() + s@ =~= s@);
            }
            Ok(s.clone())
        },
        Data::Fun(f) => {
            if fuel == 0 {
                proof {
                    assert(lambda_by(*f, Seq::empty(), default_otag(), default_ctag(), ctx.view(), 0, Trace::Node(Seq::empty()))
                        == Some(Err::<Seq<char>, RenderError>(RenderError::TooDeep)));
                }
                return Err(RenderError::TooDeep);
            }
            proof {
                reveal_strlit("{{");
                reveal_strlit("}}");
                assert("{{"@ =~= default_otag());
                assert("}}"@ =~= default_ctag());
            }
            render_fun(f, &String::new(), &String::from_str("{{"), &String::from_str("}}"), ctx, fuel)
        },
        _ => Err(RenderError::NotAString),
    }
}

/// The escaped string that a variable's value stands for.
fn render_etag<'a, L: Lambda>(value: &Data<L>, ctx: &RenderContext<'a, L>, fuel: usize) -> (r: Result<String, RenderError>)
    ensures
        agrees(r, escaped(utag_outcome(*value))),
        *value matches Data::Fun(f) ==> lambda_renders(
            f,
            Seq::empty(),
            default_otag(),
            default_ctag(),
            true,
            Seq::empty(),
            ctx.view(),
            fuel as nat,
            res_view(r),
        ),
        !(*value is Fun) ==> res_view(r) == variable_res(Ok::<Option<Data<L>>, ()>(Some(*value)), true, Seq::empty()),
    decreases 3 * fuel + 1, Seq::<TokenModel>::empty(), 2int,
{
    let res = render_utag(value, ctx, fuel);
    let r = match &res {
        Err(e) => Err(*e),
        Ok(s) => Ok(escape_html_string(s)),
    };
    proof {
        let rc = ctx.view();
        if let Data::Fun(f) = value {
            let w = choose|w: Trace| #[trigger] lambda_by(*f, Seq::empty(), default_otag(), default_ctag(), rc, fuel as nat, w) matches Some(b) && res_view(res) == wrap_res(b, false, Seq::empty());
            let b = lambda_by(*f, Seq::empty(), default_otag(), default_ctag(), rc, fuel as nat, w)->0;
            if let Ok(y) = b {
                assert(Seq::<char>::empty() + y =~= y);
                assert(Seq::<char>::empty() + escape_html(y) =~= escape_html(y));
            }
            assert(res_view(r) == wrap_res(b, true, Seq::empty()));
        } else if let Data::Str(x) = value {
            assert(Seq::<char>::empty() + x@ =~= x@);
            assert(Seq::<char>::empty() + escape_html(x@) =~= escape_html(x@));
        }
    }
    r
}

/// Renders an inverted section whose name finds `value`.
fn render_inverted_section<'a, L: Lambda>(value: &'a Data<L>, children: &Vec<Token>, ctx: &RenderContext<'a, L>, fuel: usize) -> (r: Result<
    String,
    RenderError,
>)
    ensures
        agrees(r, inverted_section_outcome(*value, tokens_view(children@), ctx.view(), fuel as nat)),
        inverted_renders(*value, tokens_view(children@), ctx.view(), fuel as nat, res_view(r)),
    decreases 3 * fuel + 2, tokens_view(children@), 1int,
{
    let ghost ct = tokens_view(children@);
    let ghost rc = ctx.view();
    let ghost any = Trace::Node(Seq::empty());
    let nothing = match value {
        Data::Bool(b) => *b,
        Data::Vec(xs) => xs.len() != 0,
        _ => true,
    };
    if nothing {
        proof {
            assert(inverted_by(*value, ct, rc, fuel as nat, any) == Some(Ok::<Seq<char>, RenderError>(Seq::empty())));
        }
        Ok(String::new())
    } else {
        let r = render_helper(children, ctx, fuel);
        proof {
            let w = choose|w: Trace| #[trigger] tokens_by(ct, rc, fuel as nat, w) == Some(res_view(r));
            assert(inverted_by(*value, ct, rc, fuel as nat, w) == Some(res_view(r)));
        }
        r
    }
}

/// Renders a section whose name finds `value`; `src`, `otag` and `ctag`
/// are what a lambda gets and compiles with.
fn render_section<'a, L: Lambda>(
    value: &'a Data<L>,
    src: &String,
    otag: &String,
    ctag: &String,
    children: &Vec<Token>,
    ctx: &RenderContext<'a, L>,
    fuel: usize,
) -> (r: Result<String, RenderError>)
    ensures
        agrees(r, section_outcome(*value, tokens_view(children@), ctx.view(), fuel as nat)),
        !(*value is Fun) ==> section_renders(*value, tokens_view(children@), ctx.view(), fuel as nat, res_view(r)),
        *value matches Data::Fun(f) ==> lambda_renders(
            f,
            src@,
            otag@,
            ctag@,
            false,
            Seq::empty(),
            ctx.view(),
            fuel as nat,
            res_view(r),
        ),
    decreases 3 * fuel + 2, tokens_view(children@), value_rank(*value),
{
    let ghost ct = tokens_view(children@);
    let ghost rc = ctx.view();
    let ghost any = Trace::Node(Seq::empty());
    match value {
        Data::Bool(b) => {
            if *b {
                let r = render_helper(children, ctx, fuel);
                proof {
                    let w = choose|w: Trace| #[trigger] tokens_by(ct, rc, fuel as nat, w) == Some(res_view(r));
                    assert(section_by(*value, ct, rc, fuel as nat, w) == Some(res_view(r)));
                }
                r
            } else {
                proof {
                    assert(section_by(*value, ct, rc, fuel as nat, any) == Some(Ok::<Seq<char>, RenderError>(Seq::empty())));
                }
                Ok(String::new())
            }
        },
        Data::Vec(vs) => {
            let mut out = String::new();
            let mut i: usize = 0;
            let ghost mut ws: Seq<Trace> = Seq::empty();
            proof {
                assert(vs@.take(0) =~= Seq::<Data<L>>::empty());
            }
            #[verifier::loop_isolation(false)]
            while i < vs.len()
                invariant
                    i <= vs.len(),
                    render_items(tokens_view(children@), vs@.take(i as int), ctx.view(), fuel as nat)
                        matches Outcome::Done(s) ==> out@ == s,
                    !(render_items(tokens_view(children@), vs@.take(i as int), ctx.view(), fuel as nat) is Fail),
                    ws.len() == i,
                    items_by(ct, vs@.take(i as int), rc, fuel as nat, ws) == Some(Ok::<Seq<char>, RenderError>(out@)),
                decreases vs.len() - i,
            {
                let item_ctx = RenderContext {
                    partials: ctx.partials,
                    stack: pushed(&ctx.stack, &vs[i]),
                    indent: ctx.indent.clone(),
                };
                proof {
                    assert(vs@.take(i + 1).drop_last() =~= vs@.take(i as int));
                    assert(vs@.take(i + 1).last() == vs@[i as int]);
                    assert(item_ctx.view() == (RCtx { stack: ctx.view().stack.push(vs@[i as int]), ..ctx.view() }));
                }
                let res = render_helper(children, &item_ctx, fuel);
                let ghost wt = choose|w: Trace| #[trigger] tokens_by(ct, item_ctx.view(), fuel as nat, w) == Some(res_view(res));
                proof {
                    assert(ws.push(wt).drop_last() =~= ws);
                    assert(ws.push(wt).last() == wt);
                }
                match res {
                    Ok(s) => {
                        out.append(s.as_str());
                        proof {
                            ws = ws.push(wt);
                        }
                    },
                    Err(e) => {
                        proof {
                            lemma_render_items_prefix_fail(tokens_view(children@), vs@, ctx.view(), fuel as nat, i + 1);
                            let full = ws.push(wt) + Seq::new((vs@.len() - i - 1) as nat, |j: int| Trace::Node(Seq::empty()));
                            assert(full.take(i + 1) =~= ws.push(wt));
                            lemma_items_by_prefix_err(ct, vs@, rc, fuel as nat, full, i + 1, e);
                            assert(section_by(*value, ct, rc, fuel as nat, Trace::Node(full)) == Some(res_view(Err::<String, RenderError>(e))));
                        }
                        return Err(e);
                    },
                }
                i += 1;
            }
            assert(vs@.take(vs.len() as int) =~= vs@);
            assert(section_by(*value, ct, rc, fuel as nat, Trace::Node(ws)) == Some(res_view(Ok::<String, RenderError>(out))));
            Ok(out)
        },
        Data::Dict(_) => {
            let inner = RenderContext {
                partials: ctx.partials,
                stack: pushed(&ctx.stack, value),
                indent: ctx.indent.clone(),
            };
            let r = render_helper(children, &inner, fuel);
            proof {
                assert(inner.view() == (RCtx { stack: rc.stack.push(*value), ..rc }));
                let w = choose|w: Trace| #[trigger] tokens_by(ct, inner.view(), fuel as nat, w) == Some(res_view(r));
                assert(section_by(*value, ct, rc, fuel as nat, w) == Some(res_view(r)));
            }
            r
        },
        Data::Fun(f) => {
            if fuel == 0 {
                proof {
                    assert(lambda_by(*f, src@, otag@, ctag@, rc, 0, any) == Some(Err::<Seq<char>, RenderError>(RenderError::TooDeep)));
                }
                return Err(RenderError::TooDeep);
            }
            render_fun(f, src, otag, ctag, ctx, fuel)
        },
        Data::Str(_) => {
            proof {
                assert(section_by(*value, ct, rc, fuel as nat, any) == Some(res_view(Err::<String, RenderError>(RenderError::NotASection))));
            }
            Err(RenderError::NotASection)
        },
    }
}

proof fn lemma_render_items_prefix_fail<L>(children: Seq<TokenModel>, items: Seq<Data<L>>, rc: RCtx<L>, fuel: nat, k: int)
    requires
        0 <= k <= items.len(),
    ensures
        render_items(children, items.take(k), rc, fuel) is Fail ==> render_items(children, items, rc, fuel) == render_items(children, items.take(k), rc, fuel),
        render_items(children, items.take(k), rc, fuel) is Depends ==> render_items(children, items, rc, fuel) is Depends,
    decreases items.len(),
{
    if k < items.len() {
        assert(items.drop_last().take(k) =~= items.take(k));
        lemma_render_items_prefix_fail(children, items.drop_last(), rc, fuel, k);
    } else {
        assert(items.take(k) =~= items);
    }
}

/// A copy of `stack`.
fn copy_stack<'a, L>(stack: &Vec<&'a Data<L>>) -> (r: Vec<&'a Data<L>>)
    ensures
        r@ == stack@,
{
    let mut r: Vec<&'a Data<L>> = Vec::new();
    let mut i: usize = 0;
    while i < stack.len()
        invariant
            i <= stack.len(),
            r@ == stack@.take(i as int),
        decreases stack.len() - i,
    {
        r.push(stack[i]);
        i += 1;
        assert(r@ =~= stack@.take(i as int));
    }
    assert(r@ =~= stack@);
    r
}

/// Compiles `text` with the delimiters `otag` and `ctag`, and renders it
/// in `ctx`: what the result of a lambda turns into.
pub fn render_compiled<'a, L: Lambda>(text: &String, otag: &String, ctag: &String, ctx: &RenderContext<'a, L>, fuel: usize) -> (r: Result<String, RenderError>)
    ensures
        agrees(r, render_text(text@, otag@, ctag@, ctx.view(), fuel as nat)),
        match spec_tokenize(text@, otag@, ctag@) {
            Err(e) => r == Err::<String, RenderError>(RenderError::Lambda(e)),
            Ok((ts, _)) => renders(ts, ctx.view(), fuel as nat, res_view(r)),
        },
    decreases 3 * fuel + 3, Seq::<TokenModel>::empty(), 0int,
{
    match tokenize(text.as_str(), otag.as_str(), ctag.as_str()) {
        Err(e) => Err(RenderError::Lambda(e)),
        Ok((tokens, _)) => render_helper(&tokens, ctx, fuel),
    }
}

/// Calls the lambda `f` on `src` and renders what it returns: whatever text
/// came back (one that `f` may return for `src`), the result is what
/// compiling it with `otag` and `ctag` and rendering it in `ctx`, one level
/// deeper, gives.
fn render_fun<'a, L: Lambda>(f: &L, src: &String, otag: &String, ctag: &String, ctx: &RenderContext<'a, L>, fuel: usize) -> (r: Result<String, RenderError>)
    requires
        fuel > 0,
    ensures
        lambda_renders(*f, src@, otag@, ctag@, false, Seq::empty(), ctx.view(), fuel as nat, res_view(r)),
    decreases 3 * fuel + 1, Seq::<TokenModel>::empty(), 0int,
{
    let text = f.call(src.clone());
    let r = render_compiled(&text, otag, ctag, ctx, fuel - 1);
    proof {
        let rc = ctx.view();
        assert(f.called(src@, text@));
        let w = match spec_tokenize(text@, otag@, ctag@) {
            Err(_) => Trace::Call(text@, Seq::empty()),
            Ok((ts, _)) => {
                let wi = choose|w: Trace| #[trigger] tokens_by(ts, rc, (fuel - 1) as nat, w) == Some(res_view(r));
                Trace::Call(text@, wi->Node_0)
            },
        };
        assert(lambda_by(*f, src@, otag@, ctag@, rc, fuel as nat, w) == Some(res_view(r)));
        if let Ok(y) = res_view(r) {
            assert(Seq::<char>::empty() + y =~= y);
        }
    }
    r
}

} // verus!
