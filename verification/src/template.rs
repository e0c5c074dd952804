//! Contexts, compiled templates, and the bookkeeping of compiling a
//! template together with the partials it refers to.
use vstd::prelude::*;
use vstd::hash_map::StringHashMap;
use std::path::PathBuf;
use crate::text::strings_view;
use crate::token::{Token, TokenModel, ParseError, tokens_view};
use crate::data::{Data, Lambda, stack_view};
use crate::parser::tokenize;
use crate::parser_spec::spec_tokenize;
use crate::render::{Outcome, RenderError, RenderContext, RCtx, agrees, render_tokens, render_helper};
use crate::render_rel::{renders, res_view};

verus! {

broadcast use vstd::string::group_string_axioms;

/// `std::path::PathBuf`, declared so that a context can carry a path;
/// nothing is claimed of its contents.
#[verifier::external_type_specification]
#[verifier::external_body]
pub struct ExPathBuf(PathBuf);

/// `Clone::clone` of `std::path::PathBuf`, which copies a path; nothing is
/// claimed of the copy.
pub assume_specification[<PathBuf as Clone>::clone](path: &PathBuf) -> PathBuf;

/// The shared metadata needed to compile and render a mustache template:
/// where partials are found, and the extension of their files.
#[derive(Clone)]
pub struct Context {
    template_path: PathBuf,
    template_extension: String,
}

/// The extension of template files.
pub open spec fn default_extension() -> Seq<char> {
    seq!['m', 'u', 's', 't', 'a', 'c', 'h', 'e']
}

impl Context {
    pub closed spec fn path_view(&self) -> PathBuf {
        self.template_path
    }

    pub closed spec fn extension_view(&self) -> Seq<char> {
        self.template_extension@
    }

    /// A context whose templates are found under `path`.
    pub fn new(path: PathBuf) -> (c: Context)
        ensures
            c.path_view() == path,
            c.extension_view() == default_extension(),
    {
        proof {
            reveal_strlit("mustache");
        }
        Context { template_path: path, template_extension: String::from_str("mustache") }
    }

    /// The directory of the templates.
    pub fn template_path(&self) -> (r: &PathBuf)
        ensures
            *r == self.path_view(),
    {
        &self.template_path
    }

    /// The extension of template files.
    pub fn template_extension(&self) -> (r: &String)
        ensures
            r@ == self.extension_view(),
    {
        &self.template_extension
    }
}

/// A compiled template: its tokens, and the tokens of the partials it
/// refers to.
pub struct Template {
    ctx: Context,
    pub tokens: Vec<Token>,
    partials: StringHashMap<Vec<Token>>,
}

impl Template {
    /// The tokens of the template.
    pub closed spec fn tokens_model(&self) -> Seq<TokenModel> {
        tokens_view(self.tokens@)
    }

    pub closed spec fn partials_view(&self) -> Map<Seq<char>, Vec<Token>> {
        self.partials@
    }

    pub closed spec fn context_view(&self) -> Context {
        self.ctx
    }

    /// A template from its context, tokens and partials.
    pub fn new(ctx: Context, tokens: Vec<Token>, partials: StringHashMap<Vec<Token>>) -> (t: Template)
        ensures
            t.context_view() == ctx,
            t.tokens_model() == tokens_view(tokens@),
            t.partials_view() == partials@,
    {
        Template { ctx, tokens, partials }
    }

    /// The context the template was compiled in.
    pub fn context(&self) -> (r: &Context)
        ensures
            *r == self.context_view(),
    {
        &self.ctx
    }

    /// The partials of the template.
    pub fn partials(&self) -> (r: &StringHashMap<Vec<Token>>)
        ensures
            r@ == self.partials_view(),
    {
        &self.partials
    }

    /// The outcome of rendering the template with `data` as the only context.
    pub open spec fn rendered<L>(&self, data: Data<L>) -> Outcome {
        render_tokens(
            self.tokens_model(),
            RCtx { partials: self.partials_view(), stack: seq![data], indent: Seq::empty() },
            usize::MAX as nat,
        )
    }

    /// The rendering context of the template with `data` as the only context.
    pub open spec fn render_context<L>(&self, data: Data<L>) -> RCtx<L> {
        RCtx { partials: self.partials_view(), stack: seq![data], indent: Seq::empty() }
    }

    /// Renders the template with `data` as the only context.
    pub fn render_data<L: Lambda>(&self, data: Data<L>) -> (r: Result<String, RenderError>)
        ensures
            agrees(r, self.rendered(data)),
            renders(self.tokens_model(), self.render_context(data), usize::MAX as nat, res_view(r)),
    {
        let mut stack: Vec<&Data<L>> = Vec::new();
        stack.push(&data);
        let ctx = RenderContext { partials: &self.partials, stack, indent: String::new() };
        assert(stack_view(ctx.stack@) =~= seq![data]);
        render_helper(&self.tokens, &ctx, usize::MAX)
    }
}

/// The bookkeeping of compiling a template: the partials compiled so far,
/// the delimiters to start with, and the partial names still to look at.
pub struct CompileContext {
    partials: StringHashMap<Vec<Token>>,
    names: Vec<String>,
    otag: String,
    ctag: String,
    queue: Vec<String>,
    next: usize,
}

/// Index of the first name of `queue` from `from` on that is not in `known`.
pub open spec fn next_unknown(queue: Seq<Seq<char>>, from: int, known: Set<Seq<char>>) -> Option<int>
    decreases queue.len() - from,
{
    if from < 0 || from >= queue.len() {
        None
    } else if !known.contains(queue[from]) {
        Some(from)
    } else {
        next_unknown(queue, from + 1, known)
    }
}

impl CompileContext {
    pub closed spec fn partials_view(&self) -> Map<Seq<char>, Vec<Token>> {
        self.partials@
    }

    pub closed spec fn queue_view(&self) -> Seq<Seq<char>> {
        strings_view(self.queue@)
    }

    pub closed spec fn next_view(&self) -> int {
        self.next as int
    }

    pub closed spec fn wf(&self) -> bool {
        &&& self.next <= self.queue.len()
        &&& self.partials@.dom() == strings_view(self.names@).to_set()
        &&& forall|i: int| 0 <= i < self.next ==> #[trigger] self.partials@.contains_key(self.queue@[i]@)
    }

    pub closed spec fn otag_view(&self) -> Seq<char> {
        self.otag@
    }

    pub closed spec fn ctag_view(&self) -> Seq<char> {
        self.ctag@
    }

    /// A context that compiles with the delimiters `otag` and `ctag`, and
    /// knows no partials yet.
    pub fn new(otag: String, ctag: String) -> (c: CompileContext)
        ensures
            c.wf(),
            c.partials_view() == Map::<Seq<char>, Vec<Token>>::empty(),
            c.next_view() == 0,
            c.queue_view() == Seq::<Seq<char>>::empty(),
            c.otag_view() == otag@,
            c.ctag_view() == ctag@,
    {
        let c = CompileContext {
            partials: StringHashMap::new(),
            names: Vec::new(),
            otag,
            ctag,
            queue: Vec::new(),
            next: 0,
        };
        assert(strings_view(c.queue@) =~= Seq::<Seq<char>>::empty());
        assert(strings_view(c.names@) =~= Seq::<Seq<char>>::empty());
        assert(c.partials@.dom() =~= strings_view(c.names@).to_set());
        c
    }

    /// A context for compiling a partial: the default delimiters, and the
    /// partial names known here, each without tokens.
    pub fn nested(&self) -> (c: CompileContext)
        requires
            self.wf(),
        ensures
            c.wf(),
            c.partials_view().dom() == self.partials_view().dom(),
            forall|k: Seq<char>| #[trigger] c.partials_view().contains_key(k) ==> c.partials_view()[k]@.len() == 0,
            c.queue_view() == Seq::<Seq<char>>::empty(),
            c.otag_view() == seq!['{', '{'],
            c.ctag_view() == seq!['}', '}'],
    {
        proof {
            reveal_strlit("{{");
            reveal_strlit("}}");
        }
        let mut c = CompileContext {
            partials: StringHashMap::new(),
            names: Vec::new(),
            otag: String::from_str("{{"),
            ctag: String::from_str("}}"),
            queue: Vec::new(),
            next: 0,
        };
        let mut i: usize = 0;
        assert(self.names@.take(0) =~= Seq::<String>::empty());
        assert(strings_view(c.names@) =~= Seq::<Seq<char>>::empty());
        assert(c.partials@.dom() =~= strings_view(c.names@).to_set());
        while i < self.names.len()
            invariant
                self.wf(),
                c.next <= c.queue.len(),
                i <= self.names.len(),
                c.queue@.len() == 0,
                c.otag@ == seq!['{', '{'],
                c.ctag@ == seq!['}', '}'],
                c.names@ == self.names@.take(i as int),
                c.partials@.dom() == strings_view(c.names@).to_set(),
                forall|k: Seq<char>| #[trigger] c.partials@.contains_key(k) ==> c.partials@[k]@.len() == 0,
            decreases self.names.len() - i,
        {
            let name = self.names[i].clone();
            let ghost before = c.names@;
            c.partials.insert(name.clone(), Vec::new());
            c.names.push(name);
            proof {
                assert(strings_view(c.names@) =~= strings_view(before).push(name@));
                strings_view(before).lemma_push_to_set_commute(name@);
                assert(c.partials@.dom() =~= strings_view(c.names@).to_set());
                assert(c.names@ =~= self.names@.take(i + 1));
            }
            i += 1;
        }
        proof {
            assert(self.names@.take(self.names.len() as int) =~= self.names@);
        }
        assert(strings_view(c.queue@) =~= Seq::<Seq<char>>::empty());
        c
    }

    /// Tokenizes `template` with this context's delimiters: its tokens; the
    /// names of the partials it refers to become the ones to look at next.
    /// Loading those partials is left to the caller, which asks
    /// `next_partial` for each, compiles it in `nested` and hands it back
    /// with `insert_partial`.
    pub fn tokenize_template(&mut self, template: &str) -> (r: Result<Vec<Token>, ParseError>)
        requires
            old(self).wf(),
        ensures
            final(self).wf(),
            final(self).partials_view() == old(self).partials_view(),
            final(self).otag_view() == old(self).otag_view(),
            final(self).ctag_view() == old(self).ctag_view(),
            match spec_tokenize(template@, old(self).otag_view(), old(self).ctag_view()) {
                Ok((ts, ps)) => r matches Ok(v) && tokens_view(v@) == ts && final(self).queue_view() == ps
                    && final(self).next_view() == 0,
                Err(e) => r == Err::<Vec<Token>, ParseError>(e),
            },
    {
        match tokenize(template, self.otag.as_str(), self.ctag.as_str()) {
            Ok((tokens, names)) => {
                self.queue = names;
                self.next = 0;
                Ok(tokens)
            },
            Err(e) => Err(e),
        }
    }

    /// The next partial to compile: the next name to look at that no
    /// partial has yet. It gets a placeholder without tokens.
    pub fn next_partial(&mut self) -> (r: Option<String>)
        requires
            old(self).wf(),
        ensures
            final(self).wf(),
            final(self).queue_view() == old(self).queue_view(),
            final(self).otag_view() == old(self).otag_view(),
            final(self).ctag_view() == old(self).ctag_view(),
            match next_unknown(old(self).queue_view(), old(self).next_view(), old(self).partials_view().dom()) {
                None => r is None && final(self).partials_view() == old(self).partials_view()
                    && forall|i: int| 0 <= i < final(self).queue_view().len()
                        ==> #[trigger] final(self).partials_view().contains_key(final(self).queue_view()[i]),
                Some(i) => r matches Some(n) && n@ == old(self).queue_view()[i]
                    && final(self).next_view() == i + 1
                    && final(self).partials_view().dom() == old(self).partials_view().dom().insert(n@)
                    && final(self).partials_view()[n@]@.len() == 0
                    && forall|k: Seq<char>| k != n@ ==> #[trigger] final(self).partials_view().contains_key(k)
                        == old(self).partials_view().contains_key(k) && (final(self).partials_view().contains_key(k) ==> final(self).partials_view()[k] == old(self).partials_view()[k]),
            },
    {
        let ghost q = strings_view(self.queue@);
        let ghost dom = self.partials@.dom();
        while self.next < self.queue.len()
            invariant
                self.wf(),
                q == strings_view(self.queue@),
                dom == self.partials@.dom(),
                self.partials@ == old(self).partials@,
                self.queue == old(self).queue,
                self.otag == old(self).otag,
                self.ctag == old(self).ctag,
                self.names == old(self).names,
                next_unknown(q, old(self).next as int, dom) == next_unknown(q, self.next as int, dom),
            decreases self.queue.len() - self.next,
        {
            let i = self.next;
            assert(q[i as int] == self.queue@[i as int]@);
            if !self.partials.contains_key(self.queue[i].as_str()) {
                let name = self.queue[i].clone();
                let ghost before = self.names@;
                self.partials.insert(name.clone(), Vec::new());
                self.names.push(name.clone());
                self.next = i + 1;
                proof {
                    assert(strings_view(self.names@) =~= strings_view(before).push(name@));
                    strings_view(before).lemma_push_to_set_commute(name@);
                    assert(self.partials@.dom() =~= strings_view(self.names@).to_set());
                    assert(self.partials@.dom() =~= dom.insert(name@));
                }
                return Some(name);
            }
            self.next = i + 1;
        }
        None
    }

    /// Gives the partial `name` the tokens `tokens`.
    pub fn insert_partial(&mut self, name: String, tokens: Vec<Token>)
        requires
            old(self).wf(),
        ensures
            final(self).wf(),
            final(self).partials_view() == old(self).partials_view().insert(name@, tokens),
            final(self).queue_view() == old(self).queue_view(),
            final(self).next_view() == old(self).next_view(),
            final(self).otag_view() == old(self).otag_view(),
            final(self).ctag_view() == old(self).ctag_view(),
    {
        let known = self.partials.contains_key(name.as_str());
        let ghost before = self.names@;
        self.partials.insert(name.clone(), tokens);
        if !known {
            self.names.push(name);
            proof {
                assert(strings_view(self.names@) =~= strings_view(before).push(name@));
                strings_view(before).lemma_push_to_set_commute(name@);
            }
        }
        assert(self.partials@.dom() =~= strings_view(self.names@).to_set());
    }

    /// The partials compiled.
    pub fn into_partials(self) -> (r: StringHashMap<Vec<Token>>)
        ensures
            r@ == self.partials_view(),
    {
        self.partials
    }
}

} // verus!
