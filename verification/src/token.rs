//! Tokens of a compiled template, their mathematical model, and the errors
//! that the tokenizer reports.
use vstd::prelude::*;
use crate::text::strings_view;

verus! {

broadcast use vstd::string::group_string_axioms;

/// A piece of a compiled template.
///
/// Tags keep their source text (`{{name}}` with the delimiters in force) so
/// that a section can hand its unrendered source to a lambda.
#[derive(Debug)]
pub enum Token {
    /// Literal text.
    Text(String),
    /// An escaped variable: its dotted name, and its source.
    ETag(Vec<String>, String),
    /// An unescaped variable: its dotted name, and its source.
    UTag(Vec<String>, String),
    /// A section: name, inverted, children, opening delimiter, source of the
    /// opening tag, source of the children, source of the closing tag,
    /// closing delimiter.
    Section(Vec<String>, bool, Vec<Token>, String, String, String, String, String),
    /// A section whose closing tag has not been read yet: name, inverted,
    /// source of the opening tag, and whether the opening tag stood alone
    /// on its line.
    IncompleteSection(Vec<String>, bool, String, bool),
    /// A partial: name, indentation, source.
    Partial(String, String, String),
}

/// The value that a `Token` stands for, with strings as character sequences.
#[verifier::ext_equal]
pub enum TokenModel {
    Text(Seq<char>),
    ETag(Seq<Seq<char>>, Seq<char>),
    UTag(Seq<Seq<char>>, Seq<char>),
    Section(
        Seq<Seq<char>>,
        bool,
        Seq<TokenModel>,
        Seq<char>,
        Seq<char>,
        Seq<char>,
        Seq<char>,
        Seq<char>,
    ),
    IncompleteSection(Seq<Seq<char>>, bool, Seq<char>, bool),
    Partial(Seq<char>, Seq<char>, Seq<char>),
}

pub open spec fn token_view(t: Token) -> TokenModel
    decreases t,
{
    match t {
        Token::Text(s) => TokenModel::Text(s@),
        Token::ETag(p, s) => TokenModel::ETag(strings_view(p@), s@),
        Token::UTag(p, s) => TokenModel::UTag(strings_view(p@), s@),
        Token::Section(p, inv, ch, ot, os, src, cs, ct) => TokenModel::Section(
            strings_view(p@),
            inv,
            tokens_view(ch@),
            ot@,
            os@,
            src@,
            cs@,
            ct@,
        ),
        Token::IncompleteSection(p, inv, os, nl) => TokenModel::IncompleteSection(
            strings_view(p@),
            inv,
            os@,
            nl,
        ),
        Token::Partial(n, ind, s) => TokenModel::Partial(n@, ind@, s@),
    }
}

pub open spec fn tokens_view(ts: Seq<Token>) -> Seq<TokenModel>
    decreases ts,
{
    if ts.len() == 0 {
        Seq::empty()
    } else {
        proof {
            assert(ts.drop_last() == ts.subrange(0, ts.len() - 1));
        }
        tokens_view(ts.drop_last()).push(token_view(ts.last()))
    }
}

impl View for Token {
    type V = TokenModel;

    open spec fn view(&self) -> TokenModel {
        token_view(*self)
    }
}

pub proof fn lemma_tokens_view_len(ts: Seq<Token>)
    ensures
        tokens_view(ts).len() == ts.len(),
    decreases ts.len(),
{
    if ts.len() > 0 {
        lemma_tokens_view_len(ts.drop_last());
    }
}

pub proof fn lemma_tokens_view_index(ts: Seq<Token>, i: int)
    requires
        0 <= i < ts.len(),
    ensures
        tokens_view(ts)[i] == token_view(ts[i]),
    decreases ts.len(),
{
    lemma_tokens_view_len(ts.drop_last());
    if i < ts.len() - 1 {
        lemma_tokens_view_index(ts.drop_last(), i);
    }
}

pub proof fn lemma_tokens_view_push(ts: Seq<Token>, t: Token)
    ensures
        tokens_view(ts.push(t)) == tokens_view(ts).push(token_view(t)),
{
    assert(ts.push(t).drop_last() =~= ts);
}

pub proof fn lemma_tokens_view_take(ts: Seq<Token>, k: int)
    requires
        0 <= k <= ts.len(),
    ensures
        tokens_view(ts.take(k)) == tokens_view(ts).take(k),
    decreases ts.len(),
{
    lemma_tokens_view_len(ts);
    if k < ts.len() {
        assert(ts.drop_last().take(k) =~= ts.take(k));
        lemma_tokens_view_take(ts.drop_last(), k);
        lemma_tokens_view_len(ts.drop_last());
        assert(tokens_view(ts).drop_last().take(k) =~= tokens_view(ts).take(k));
    } else {
        assert(ts.take(k) =~= ts);
        assert(tokens_view(ts).take(k) =~= tokens_view(ts));
    }
}

pub proof fn lemma_tokens_view_skip(ts: Seq<Token>, k: int)
    requires
        0 <= k <= ts.len(),
    ensures
        tokens_view(ts.skip(k)) == tokens_view(ts).skip(k),
    decreases ts.len(),
{
    lemma_tokens_view_len(ts);
    lemma_tokens_view_len(ts.skip(k));
    assert forall|i: int| 0 <= i < ts.len() - k implies tokens_view(ts.skip(k))[i] == tokens_view(
        ts,
    ).skip(k)[i] by {
        lemma_tokens_view_index(ts.skip(k), i);
        lemma_tokens_view_index(ts, i + k);
    }
    assert(tokens_view(ts.skip(k)) =~= tokens_view(ts).skip(k));
}

/// The source text that a token was compiled from.
pub open spec fn token_source(t: TokenModel) -> Seq<char> {
    match t {
        TokenModel::Text(s) => s,
        TokenModel::ETag(_, s) => s,
        TokenModel::UTag(_, s) => s,
        TokenModel::Section(_, _, _, _, os, src, cs, _) => os + src + cs,
        TokenModel::IncompleteSection(_, _, _, _) => Seq::empty(),
        TokenModel::Partial(_, _, s) => s,
    }
}

/// The sources of a sequence of tokens, one after another.
pub open spec fn sources(ts: Seq<TokenModel>) -> Seq<char>
    decreases ts.len(),
{
    if ts.len() == 0 {
        Seq::empty()
    } else {
        sources(ts.drop_last()) + token_source(ts.last())
    }
}

/// Whether a token is a section whose closing tag is still to come.
pub open spec fn is_open(t: TokenModel) -> bool {
    t is IncompleteSection
}

/// A copy of the names `v`.
fn clone_strings(v: &Vec<String>) -> (r: Vec<String>)
    ensures
        strings_view(r@) == strings_view(v@),
{
    let mut r: Vec<String> = Vec::new();
    let mut i: usize = 0;
    while i < v.len()
        invariant
            i <= v.len(),
            r@.len() == i,
            forall|k: int| 0 <= k < i ==> r@[k]@ == v@[k]@,
        decreases v.len() - i,
    {
        r.push(v[i].clone());
        i += 1;
    }
    assert(strings_view(r@) =~= strings_view(v@));
    r
}

/// A copy of the token `t`.
fn clone_token(t: &Token) -> (r: Token)
    ensures
        r@ == t@,
    decreases *t,
{
    match t {
        Token::Text(s) => Token::Text(s.clone()),
        Token::ETag(p, s) => Token::ETag(clone_strings(p), s.clone()),
        Token::UTag(p, s) => Token::UTag(clone_strings(p), s.clone()),
        Token::Section(p, inv, ch, ot, os, src, cs, ct) => {
            proof {
                assert(decreases_to!(*t => *ch));
            }
            Token::Section(
                clone_strings(p),
                *inv,
                clone_tokens(ch),
                ot.clone(),
                os.clone(),
                src.clone(),
                cs.clone(),
                ct.clone(),
            )
        },
        Token::IncompleteSection(p, inv, os, nl) => Token::IncompleteSection(
            clone_strings(p),
            *inv,
            os.clone(),
            *nl,
        ),
        Token::Partial(n, ind, s) => Token::Partial(n.clone(), ind.clone(), s.clone()),
    }
}

/// A copy of the tokens `ts`.
fn clone_tokens(ts: &Vec<Token>) -> (r: Vec<Token>)
    ensures
        tokens_view(r@) == tokens_view(ts@),
    decreases *ts,
{
    let mut r: Vec<Token> = Vec::new();
    let mut i: usize = 0;
    proof {
        lemma_tokens_view_len(ts@);
        assert(r@ =~= Seq::<Token>::empty());
        lemma_tokens_view_take(ts@, 0);
        assert(tokens_view(ts@).take(0) =~= Seq::<TokenModel>::empty());
    }
    while i < ts.len()
        invariant
            i <= ts.len(),
            tokens_view(ts@).len() == ts.len(),
            tokens_view(r@) == tokens_view(ts@).take(i as int),
        decreases ts.len() - i,
    {
        proof {
            lemma_tokens_view_index(ts@, i as int);
            assert(decreases_to!(*ts => ts@));
            assert(decreases_to!(ts@ => ts@[i as int]));
        }
        let c = clone_token(&ts[i]);
        proof {
            lemma_tokens_view_push(r@, c);
        }
        r.push(c);
        assert(tokens_view(r@) =~= tokens_view(ts@).take(i + 1));
        i += 1;
    }
    assert(tokens_view(ts@).take(ts.len() as int) =~= tokens_view(ts@));
    r
}

impl Clone for Token {
    fn clone(&self) -> (r: Self)
        ensures
            r@ == self@,
    {
        clone_token(self)
    }
}

/// The source text of a token, as a string.
pub fn source_of(t: &Token) -> (r: String)
    ensures
        r@ == token_source(t@),
{
    match t {
        Token::Text(s) => s.clone(),
        Token::ETag(_, s) => s.clone(),
        Token::UTag(_, s) => s.clone(),
        Token::Section(_, _, _, _, os, src, cs, _) => {
            let mut r = os.clone();
            r.append(src.as_str());
            r.append(cs.as_str());
            r
        },
        Token::IncompleteSection(_, _, _, _) => String::new(),
        Token::Partial(_, _, s) => s.clone(),
    }
}

/// The sources of `ts`, one after another.
pub fn sources_of(ts: &Vec<Token>) -> (r: String)
    ensures
        r@ == sources(tokens_view(ts@)),
{
    let mut r = String::new();
    let mut i: usize = 0;
    proof {
        lemma_tokens_view_take(ts@, 0);
        assert(tokens_view(ts@).take(0) =~= Seq::<TokenModel>::empty());
    }
    while i < ts.len()
        invariant
            i <= ts.len(),
            r@ == sources(tokens_view(ts@).take(i as int)),
        decreases ts.len() - i,
    {
        let s = source_of(&ts[i]);
        r.append(s.as_str());
        proof {
            lemma_tokens_view_len(ts@);
            lemma_tokens_view_index(ts@, i as int);
            assert(tokens_view(ts@).take(i + 1).drop_last() =~= tokens_view(ts@).take(i as int));
        }
        i += 1;
    }
    proof {
        lemma_tokens_view_len(ts@);
        assert(tokens_view(ts@).take(ts.len() as int) =~= tokens_view(ts@));
    }
    r
}

/// How a tag relates to the line it stands on.
#[derive(Clone, Debug, PartialEq, Eq)]
pub enum TokenClass {
    /// The tag shares its line with other content.
    Normal,
    /// The tag is alone on its line.
    StandAlone,
    /// The tag is alone on its line after the whitespace of the last text
    /// token from the given index on.
    WhiteSpace(String, usize),
    /// Like `WhiteSpace`, for a text that starts a new line.
    NewLineWhiteSpace(String, usize),
}

pub enum TokenClassModel {
    Normal,
    StandAlone,
    WhiteSpace(Seq<char>, nat),
    NewLineWhiteSpace(Seq<char>, nat),
}

impl View for TokenClass {
    type V = TokenClassModel;

    open spec fn view(&self) -> TokenClassModel {
        match self {
            TokenClass::Normal => TokenClassModel::Normal,
            TokenClass::StandAlone => TokenClassModel::StandAlone,
            TokenClass::WhiteSpace(s, n) => TokenClassModel::WhiteSpace(s@, *n as nat),
            TokenClass::NewLineWhiteSpace(s, n) => TokenClassModel::NewLineWhiteSpace(s@, *n as nat),
        }
    }
}

/// Where the tokenizer stands: in text, in an opening delimiter, in a tag,
/// or in a closing delimiter.
#[allow(non_camel_case_types)]
#[derive(Clone, Copy, Debug, PartialEq, Eq, Structural)]
pub enum ParserState {
    TEXT,
    OTAG,
    TAG,
    CTAG,
}

/// Why a template does not compile.
#[derive(Clone, Copy, Debug, PartialEq, Eq, Structural)]
pub enum ParseError {
    /// The template ends inside a tag.
    UnclosedTag,
    /// A section is still open at the end of the template.
    UnclosedSection,
    /// A tag holds nothing but whitespace after its sigil.
    EmptyTag,
    /// A tag holds nothing between its delimiters.
    EmptyTagContent,
    /// A `{{{` tag is not closed by `}}}`.
    UnbalancedBrace,
    /// A closing tag comes with no section open.
    ClosingUnopenedSection,
    /// A closing tag names another section than the innermost open one.
    MismatchedSection,
    /// A set-delimiter tag is malformed.
    InvalidDelimiter,
    /// A delimiter is empty, so no character can be matched against it.
    EmptyDelimiter,
    /// A character inside the closing delimiter (found, expected) does not match it.
    NotPartOfCtag(char, char),
}

} // verus!
