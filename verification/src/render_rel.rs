//! What rendering may give, lambdas included. A trace records, for each
//! lambda that rendering calls, the text it returned; given a trace,
//! rendering is a function of the tokens and the context, and a trace is
//! admissible where each recorded text is one that its lambda may return.
//! What rendering may give is what it gives along some admissible trace.
use vstd::prelude::*;
use crate::text::escape_html;
use crate::token::{TokenModel, tokens_view};
use crate::data::{Data, Lambda, find_path};
use crate::parser_spec::spec_tokenize;
use crate::render::{RCtx, RenderError, indent_text, default_otag, default_ctag, value_rank};

verus! {

/// The texts that the lambdas called while rendering returned, laid out
/// as the rendering goes: a node holds one trace per token (or per item of
/// a list); a call holds the text a lambda returned and the traces of the
/// tokens that text compiled to.
pub enum Trace {
    Node(Seq<Trace>),
    Call(Seq<char>, Seq<Trace>),
}

/// A rendering result as a value: the output, or an error.
pub open spec fn res_view(r: Result<String, RenderError>) -> Result<Seq<char>, RenderError> {
    match r {
        Ok(s) => Ok(s@),
        Err(e) => Err(e),
    }
}

/// `a` followed by the result `b`.
pub open spec fn append_res(a: Seq<char>, b: Result<Seq<char>, RenderError>) -> Result<Seq<char>, RenderError> {
    match b {
        Ok(y) => Ok(a + y),
        Err(e) => Err(e),
    }
}

/// `prefix` followed by the result `b`, its output escaped where `escape`.
pub open spec fn wrap_res(b: Result<Seq<char>, RenderError>, escape: bool, prefix: Seq<char>) -> Result<
    Seq<char>,
    RenderError,
> {
    match b {
        Ok(y) => Ok(prefix + if escape {
            escape_html(y)
        } else {
            y
        }),
        Err(e) => Err(e),
    }
}

/// One result after another, each along its own trace: nothing where a
/// trace is not admissible, the first error, or the outputs joined.
pub open spec fn join_res(
    a: Option<Result<Seq<char>, RenderError>>,
    b: Option<Result<Seq<char>, RenderError>>,
) -> Option<Result<Seq<char>, RenderError>> {
    match a {
        None => None,
        Some(Err(e)) => Some(Err(e)),
        Some(Ok(x)) => match b {
            None => None,
            Some(y) => Some(append_res(x, y)),
        },
    }
}

/// What a text token gives under the indentation `indent`.
pub open spec fn text_output(v: Seq<char>, indent: Seq<char>) -> Seq<char> {
    if indent.len() == 0 {
        v
    } else {
        indent_text(v, indent)
    }
}

/// The call of a lambda that rendering the token `t` makes, where its name
/// finds one: the lambda, the text it gets, the delimiters its output is
/// compiled with, whether that output is escaped, and what goes before it.
pub open spec fn lambda_call<L: Lambda>(t: TokenModel, rc: RCtx<L>) -> Option<
    (L, Seq<char>, Seq<char>, Seq<char>, bool, Seq<char>),
> {
    match t {
        TokenModel::ETag(path, _) => match find_path(rc.stack, path) {
            Ok(Some(Data::Fun(f))) => Some((f, Seq::empty(), default_otag(), default_ctag(), true, rc.indent)),
            _ => None,
        },
        TokenModel::UTag(path, _) => match find_path(rc.stack, path) {
            Ok(Some(Data::Fun(f))) => Some((f, Seq::empty(), default_otag(), default_ctag(), false, rc.indent)),
            _ => None,
        },
        TokenModel::Section(path, inverted, _, otag, _, src, _, ctag) => if inverted {
            None
        } else {
            match find_path(rc.stack, path) {
                Ok(Some(Data::Fun(f))) => Some((f, src, otag, ctag, false, Seq::empty())),
                _ => None,
            }
        },
        _ => None,
    }
}

/// The result of a variable whose name's lookup gave `found`, where the
/// value is not a lambda: the string (escaped where `escape`) after the
/// indentation.
pub open spec fn variable_res<L>(found: Result<Option<Data<L>>, ()>, escape: bool, indent: Seq<char>) -> Result<
    Seq<char>,
    RenderError,
> {
    match found {
        Err(_) => Err(RenderError::ContextNotAMap),
        Ok(None) => Ok(Seq::empty()),
        Ok(Some(Data::Str(x))) => wrap_res(Ok(x@), escape, indent),
        Ok(Some(_)) => Err(RenderError::NotAString),
    }
}

/// What calling the lambda `f` on `src` gives along the trace `w`: at the
/// depth limit, `TooDeep` without a call; otherwise the trace holds the
/// text `f` returned, which must be one that `f` may return for `src`, and
/// the result is that of compiling the text with `otag` and `ctag` and
/// rendering it in `rc` one level deeper.
pub open spec fn lambda_by<L: Lambda>(
    f: L,
    src: Seq<char>,
    otag: Seq<char>,
    ctag: Seq<char>,
    rc: RCtx<L>,
    fuel: nat,
    w: Trace,
) -> Option<Result<Seq<char>, RenderError>> {
    if fuel == 0 {
        Some(Err(RenderError::TooDeep))
    } else {
        match w {
            Trace::Call(text, inner) => if !f.called(src, text) {
                None
            } else {
                match spec_tokenize(text, otag, ctag) {
                    Err(e) => Some(Err(RenderError::Lambda(e))),
                    Ok((ts, _)) => tokens_by(ts, rc, (fuel - 1) as nat, Trace::Node(inner)),
                }
            },
            _ => None,
        }
    }
}

/// What rendering `ts` in `rc`, with at most `fuel` nested expansions,
/// gives along the trace `w`: the tokens one after another, up to the
/// first error; nothing where the trace is not admissible.
pub open spec fn tokens_by<L: Lambda>(ts: Seq<TokenModel>, rc: RCtx<L>, fuel: nat, w: Trace) -> Option<
    Result<Seq<char>, RenderError>,
>
    decreases fuel, ts, 0int,
{
    match w {
        Trace::Node(ws) => if ws.len() != ts.len() {
            None
        } else if ts.len() == 0 {
            Some(Ok(Seq::empty()))
        } else {
            proof {
                assert(ts.drop_last() == ts.subrange(0, ts.len() - 1));
            }
            join_res(
                tokens_by(ts.drop_last(), rc, fuel, Trace::Node(ws.drop_last())),
                token_by(ts.last(), rc, fuel, ws.last()),
            )
        },
        _ => None,
    }
}

/// What rendering the children of a section once per item of `items`
/// gives along the traces `ws`, one per item.
pub open spec fn items_by<L: Lambda>(
    children: Seq<TokenModel>,
    items: Seq<Data<L>>,
    rc: RCtx<L>,
    fuel: nat,
    ws: Seq<Trace>,
) -> Option<Result<Seq<char>, RenderError>>
    decreases fuel, children, items.len(),
{
    if ws.len() != items.len() {
        None
    } else if items.len() == 0 {
        Some(Ok(Seq::empty()))
    } else {
        join_res(
            items_by(children, items.drop_last(), rc, fuel, ws.drop_last()),
            tokens_by(children, RCtx { stack: rc.stack.push(items.last()), ..rc }, fuel, ws.last()),
        )
    }
}

/// What a section whose name finds `value` (not a lambda) gives along `w`:
/// its children once for a true boolean or a map (on top of the stack),
/// once per item of a list, nothing for false.
pub open spec fn section_by<L: Lambda>(
    value: Data<L>,
    children: Seq<TokenModel>,
    rc: RCtx<L>,
    fuel: nat,
    w: Trace,
) -> Option<Result<Seq<char>, RenderError>>
    decreases fuel, children, value_rank(value),
{
    match value {
        Data::Bool(b) => if b {
            tokens_by(children, rc, fuel, w)
        } else {
            Some(Ok(Seq::empty()))
        },
        Data::Vec(vs) => match w {
            Trace::Node(ws) => items_by(children, vs@, rc, fuel, ws),
            _ => None,
        },
        Data::Dict(_) => tokens_by(children, RCtx { stack: rc.stack.push(value), ..rc }, fuel, w),
        Data::Fun(_) => None,
        Data::Str(_) => Some(Err(RenderError::NotASection)),
    }
}

/// What an inverted section whose name finds `value` gives along `w`: its
/// children for false or an empty list, nothing otherwise.
pub open spec fn inverted_by<L: Lambda>(
    value: Data<L>,
    children: Seq<TokenModel>,
    rc: RCtx<L>,
    fuel: nat,
    w: Trace,
) -> Option<Result<Seq<char>, RenderError>>
    decreases fuel, children, 1int,
{
    match value {
        Data::Bool(b) => if b {
            Some(Ok(Seq::empty()))
        } else {
            tokens_by(children, rc, fuel, w)
        },
        Data::Vec(xs) => if xs@.len() == 0 {
            tokens_by(children, rc, fuel, w)
        } else {
            Some(Ok(Seq::empty()))
        },
        _ => Some(Ok(Seq::empty())),
    }
}

/// What rendering the token `t` in `rc` gives along the trace `w`.
pub open spec fn token_by<L: Lambda>(t: TokenModel, rc: RCtx<L>, fuel: nat, w: Trace) -> Option<
    Result<Seq<char>, RenderError>,
>
    decreases fuel, t, 2int,
{
    match lambda_call(t, rc) {
        Some((f, src, otag, ctag, escape, prefix)) => {
            let inner = if fuel == 0 {
                Some(Err(RenderError::TooDeep))
            } else {
                match w {
                    Trace::Call(text, tw) => if !f.called(src, text) {
                        None
                    } else {
                        match spec_tokenize(text, otag, ctag) {
                            Err(e) => Some(Err(RenderError::Lambda(e))),
                            Ok((ts, _)) => tokens_by(ts, rc, (fuel - 1) as nat, Trace::Node(tw)),
                        }
                    },
                    _ => None,
                }
            };
            match inner {
                Some(b) => Some(wrap_res(b, escape, prefix)),
                None => None,
            }
        },
        None => match t {
            TokenModel::Text(v) => Some(Ok(text_output(v, rc.indent))),
            TokenModel::ETag(path, _) => Some(variable_res(find_path(rc.stack, path), true, rc.indent)),
            TokenModel::UTag(path, _) => Some(variable_res(find_path(rc.stack, path), false, rc.indent)),
            TokenModel::Section(path, inverted, children, _, _, _, _, _) => match find_path(rc.stack, path) {
                Err(_) => Some(Err(RenderError::ContextNotAMap)),
                Ok(None) => if inverted {
                    tokens_by(children, rc, fuel, w)
                } else {
                    Some(Ok(Seq::empty()))
                },
                Ok(Some(value)) => if inverted {
                    inverted_by(value, children, rc, fuel, w)
                } else {
                    section_by(value, children, rc, fuel, w)
                },
            },
            TokenModel::Partial(name, ind, _) => if rc.partials.contains_key(name) {
                if fuel == 0 {
                    Some(Err(RenderError::TooDeep))
                } else {
                    tokens_by(tokens_view(rc.partials[name]@), RCtx { indent: rc.indent + ind, ..rc }, (fuel - 1) as nat, w)
                }
            } else {
                Some(Ok(Seq::empty()))
            },
            TokenModel::IncompleteSection(_, _, _, _) => Some(Err(RenderError::IncompleteSection)),
        },
    }
}

/// Whether rendering `ts` in `rc` with at most `fuel` nested expansions
/// may give `r`: it does along some admissible trace.
pub open spec fn renders<L: Lambda>(ts: Seq<TokenModel>, rc: RCtx<L>, fuel: nat, r: Result<Seq<char>, RenderError>) -> bool {
    exists|w: Trace| #[trigger] tokens_by(ts, rc, fuel, w) == Some(r)
}

/// Whether rendering the token `t` may give `r`.
pub open spec fn token_renders<L: Lambda>(t: TokenModel, rc: RCtx<L>, fuel: nat, r: Result<Seq<char>, RenderError>) -> bool {
    exists|w: Trace| #[trigger] token_by(t, rc, fuel, w) == Some(r)
}

/// Whether a section whose name finds `value` may give `r`.
pub open spec fn section_renders<L: Lambda>(
    value: Data<L>,
    children: Seq<TokenModel>,
    rc: RCtx<L>,
    fuel: nat,
    r: Result<Seq<char>, RenderError>,
) -> bool {
    exists|w: Trace| #[trigger] section_by(value, children, rc, fuel, w) == Some(r)
}

/// Whether an inverted section whose name finds `value` may give `r`.
pub open spec fn inverted_renders<L: Lambda>(
    value: Data<L>,
    children: Seq<TokenModel>,
    rc: RCtx<L>,
    fuel: nat,
    r: Result<Seq<char>, RenderError>,
) -> bool {
    exists|w: Trace| #[trigger] inverted_by(value, children, rc, fuel, w) == Some(r)
}

/// Whether calling the lambda `f` on `src`, and compiling and rendering
/// what it returns, may give the result `b` before it is wrapped, and `r`
/// is `prefix` followed by that result, escaped where `escape`.
pub open spec fn lambda_renders<L: Lambda>(
    f: L,
    src: Seq<char>,
    otag: Seq<char>,
    ctag: Seq<char>,
    escape: bool,
    prefix: Seq<char>,
    rc: RCtx<L>,
    fuel: nat,
    r: Result<Seq<char>, RenderError>,
) -> bool {
    exists|w: Trace| #[trigger] lambda_by(f, src, otag, ctag, rc, fuel, w) matches Some(b) && r == wrap_res(b, escape, prefix)
}

/// Rendering a token that calls a lambda is that call, wrapped.
pub proof fn lemma_token_lambda<L: Lambda>(t: TokenModel, rc: RCtx<L>, fuel: nat, w: Trace)
    requires
        lambda_call(t, rc) is Some,
    ensures
        ({
            let (f, src, otag, ctag, escape, prefix) = lambda_call(t, rc)->0;
            token_by(t, rc, fuel, w) == match lambda_by(f, src, otag, ctag, rc, fuel, w) {
                Some(b) => Some(wrap_res(b, escape, prefix)),
                None => None,
            }
        }),
{
}

} // verus!
