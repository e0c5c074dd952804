//! Character-level helpers shared by the tokenizer and the renderer: the
//! whitespace class, trimming, splitting names on dots and HTML escaping,
//! each given as a spec function together with an executable version.
use vstd::prelude::*;

verus! {

broadcast use vstd::string::group_string_axioms;

/// The Unicode `White_Space` property, as `char::is_whitespace` tests it.
pub open spec fn is_ws(c: char) -> bool {
    ||| c == ' '
    ||| ('\u{9}' <= c && c <= '\u{d}')
    ||| c == '\u{85}'
    ||| c == '\u{a0}'
    ||| c == '\u{1680}'
    ||| ('\u{2000}' <= c && c <= '\u{200a}')
    ||| c == '\u{2028}'
    ||| c == '\u{2029}'
    ||| c == '\u{202f}'
    ||| c == '\u{205f}'
    ||| c == '\u{3000}'
}

pub fn is_whitespace(c: char) -> (r: bool)
    ensures
        r == is_ws(c),
{
    c == ' ' || ('\u{9}' <= c && c <= '\u{d}') || c == '\u{85}' || c == '\u{a0}' || c == '\u{1680}'
        || ('\u{2000}' <= c && c <= '\u{200a}') || c == '\u{2028}' || c == '\u{2029}' || c
        == '\u{202f}' || c == '\u{205f}' || c == '\u{3000}'
}

/// `s` without its leading whitespace.
pub open spec fn trim_start(s: Seq<char>) -> Seq<char>
    decreases s.len(),
{
    if s.len() > 0 && is_ws(s[0]) {
        trim_start(s.drop_first())
    } else {
        s
    }
}

/// `s` without its trailing whitespace.
pub open spec fn trim_end(s: Seq<char>) -> Seq<char>
    decreases s.len(),
{
    if s.len() > 0 && is_ws(s.last()) {
        trim_end(s.drop_last())
    } else {
        s
    }
}

/// `s` without whitespace at either end, as `str::trim` gives it.
pub open spec fn trim(s: Seq<char>) -> Seq<char> {
    trim_end(trim_start(s))
}

/// Index of the first character of `s` that is whitespace.
pub open spec fn first_ws(s: Seq<char>) -> Option<int>
    decreases s.len(),
{
    if s.len() == 0 {
        None
    } else if is_ws(s[0]) {
        Some(0)
    } else {
        match first_ws(s.drop_first()) {
            Some(i) => Some(i + 1),
            None => None,
        }
    }
}

/// Index of the first character of `s` that is not whitespace.
pub open spec fn first_non_ws(s: Seq<char>) -> Option<int>
    decreases s.len(),
{
    if s.len() == 0 {
        None
    } else if !is_ws(s[0]) {
        Some(0)
    } else {
        match first_non_ws(s.drop_first()) {
            Some(i) => Some(i + 1),
            None => None,
        }
    }
}

/// Index of the last character of `s` that is a newline or not whitespace.
pub open spec fn last_nl_or_non_ws(s: Seq<char>) -> Option<int>
    decreases s.len(),
{
    if s.len() == 0 {
        None
    } else if s.last() == '\n' || !is_ws(s.last()) {
        Some(s.len() - 1)
    } else {
        last_nl_or_non_ws(s.drop_last())
    }
}

/// Splitting `s` at every '.', keeping empty pieces (always one piece at least).
pub open spec fn split_dots(s: Seq<char>) -> Seq<Seq<char>>
    decreases s.len(),
{
    if s.len() == 0 {
        seq![Seq::empty()]
    } else {
        let parts = split_dots(s.drop_last());
        if s.last() == '.' {
            parts.push(Seq::empty())
        } else {
            parts.update(parts.len() - 1, parts.last().push(s.last()))
        }
    }
}

/// The pieces of `s` between dots, without an empty last piece, as
/// `str::split_terminator('.')` gives them.
pub open spec fn split_name(s: Seq<char>) -> Seq<Seq<char>> {
    let parts = split_dots(s);
    if parts.last().len() == 0 {
        parts.drop_last()
    } else {
        parts
    }
}

/// The views of a sequence of strings.
pub open spec fn strings_view(v: Seq<String>) -> Seq<Seq<char>> {
    v.map_values(|s: String| s@)
}

/// The HTML entity that stands for `c`, or `c` itself.
pub open spec fn escape_char(c: char) -> Seq<char> {
    if c == '<' {
        seq!['&', 'l', 't', ';']
    } else if c == '>' {
        seq!['&', 'g', 't', ';']
    } else if c == '&' {
        seq!['&', 'a', 'm', 'p', ';']
    } else if c == '"' {
        seq!['&', 'q', 'u', 'o', 't', ';']
    } else if c == '\'' {
        seq!['&', '#', '3', '9', ';']
    } else {
        seq![c]
    }
}

/// `s` with each of the characters `<`, `>`, `&`, `"` and `'` replaced by its entity.
pub open spec fn escape_html(s: Seq<char>) -> Seq<char>
    decreases s.len(),
{
    if s.len() == 0 {
        Seq::empty()
    } else {
        escape_html(s.drop_last()) + escape_char(s.last())
    }
}

/// Calls `String::push`; its contract claims what the standard library
/// documents: the characters afterwards are the old ones followed by `c`.
#[verifier::external_body]
pub(crate) fn push_char(s: &mut String, c: char)
    ensures
        final(s)@ == old(s)@.push(c),
{
    s.push(c);
}

/// The characters of `s`.
pub fn chars_of(s: &str) -> (v: Vec<char>)
    ensures
        v@ == s@,
{
    let mut v: Vec<char> = Vec::new();
    for c in it: s.chars()
        invariant
            v@ == it.seq().take(it.index() as int),
            it.seq() == s@,
    {
        v.push(c);
    }
    v
}

/// The string made of `v[lo..hi]`.
pub fn string_of_range(v: &Vec<char>, lo: usize, hi: usize) -> (s: String)
    requires
        lo <= hi <= v.len(),
    ensures
        s@ == v@.subrange(lo as int, hi as int),
{
    let mut s = String::new();
    let mut i: usize = lo;
    while i < hi
        invariant
            lo <= i <= hi <= v.len(),
            s@ == v@.subrange(lo as int, i as int),
        decreases hi - i,
    {
        push_char(&mut s, v[i]);
        i += 1;
        assert(s@ =~= v@.subrange(lo as int, i as int));
    }
    s
}

/// The string made of all of `v`.
pub fn string_of(v: &Vec<char>) -> (s: String)
    ensures
        s@ == v@,
{
    let s = string_of_range(v, 0, v.len());
    assert(v@.subrange(0, v.len() as int) =~= v@);
    s
}

/// Appends `v[lo..hi]` to `out`.
pub fn extend_chars(out: &mut Vec<char>, v: &Vec<char>, lo: usize, hi: usize)
    requires
        lo <= hi <= v.len(),
    ensures
        final(out)@ == old(out)@ + v@.subrange(lo as int, hi as int),
{
    let mut i: usize = lo;
    while i < hi
        invariant
            lo <= i <= hi <= v.len(),
            out@ == old(out)@ + v@.subrange(lo as int, i as int),
        decreases hi - i,
    {
        out.push(v[i]);
        i += 1;
        assert(out@ =~= old(out)@ + v@.subrange(lo as int, i as int));
    }
}

proof fn lemma_trim_start_step(s: Seq<char>, i: int, j: int)
    requires
        0 <= i < j <= s.len(),
        is_ws(s[i]),
    ensures
        trim_start(s.subrange(i, j)) == trim_start(s.subrange(i + 1, j)),
{
    assert(s.subrange(i, j).drop_first() =~= s.subrange(i + 1, j));
}

proof fn lemma_trim_end_step(s: Seq<char>, i: int, j: int)
    requires
        0 <= i < j <= s.len(),
        is_ws(s[j - 1]),
    ensures
        trim_end(s.subrange(i, j)) == trim_end(s.subrange(i, j - 1)),
{
    assert(s.subrange(i, j).drop_last() =~= s.subrange(i, j - 1));
}

/// Bounds `(a, b)` with `v[a..b]` the trimmed `v[lo..hi]`.
pub fn trim_range(v: &Vec<char>, lo: usize, hi: usize) -> (r: (usize, usize))
    requires
        lo <= hi <= v.len(),
    ensures
        lo <= r.0 <= r.1 <= hi,
        v@.subrange(r.0 as int, r.1 as int) == trim(v@.subrange(lo as int, hi as int)),
{
    let mut a = lo;
    while a < hi && is_whitespace(v[a])
        invariant
            lo <= a <= hi <= v.len(),
            trim_start(v@.subrange(lo as int, hi as int)) == trim_start(
                v@.subrange(a as int, hi as int),
            ),
        decreases hi - a,
    {
        proof {
            lemma_trim_start_step(v@, a as int, hi as int);
        }
        a += 1;
    }
    assert(trim_start(v@.subrange(a as int, hi as int)) == v@.subrange(a as int, hi as int));
    let mut b = hi;
    while b > a && is_whitespace(v[b - 1])
        invariant
            lo <= a <= b <= hi <= v.len(),
            trim_end(v@.subrange(a as int, hi as int)) == trim_end(v@.subrange(a as int, b as int)),
        decreases b - a,
    {
        proof {
            lemma_trim_end_step(v@, a as int, b as int);
        }
        b -= 1;
    }
    (a, b)
}

/// The trimmed `v[lo..hi]`, or `None` where nothing is left.
pub fn trimmed(v: &Vec<char>, lo: usize, hi: usize) -> (r: Option<Vec<char>>)
    requires
        lo <= hi <= v.len(),
    ensures
        match r {
            Some(t) => t@ == trim(v@.subrange(lo as int, hi as int)) && t@.len() > 0,
            None => trim(v@.subrange(lo as int, hi as int)).len() == 0,
        },
{
    let (a, b) = trim_range(v, lo, hi);
    if a == b {
        None
    } else {
        let mut t: Vec<char> = Vec::new();
        extend_chars(&mut t, v, a, b);
        assert(t@ =~= v@.subrange(a as int, b as int));
        Some(t)
    }
}

/// Index of the first whitespace character of `v[lo..]`, counted from `lo`.
pub fn find_ws(v: &Vec<char>, lo: usize) -> (r: Option<usize>)
    requires
        lo <= v.len(),
    ensures
        match r {
            Some(i) => first_ws(v@.skip(lo as int)) == Some(i as int) && lo + i < v.len(),
            None => first_ws(v@.skip(lo as int)) is None,
        },
{
    let mut i = lo;
    while i < v.len()
        invariant
            lo <= i <= v.len(),
            forall|k: int| lo <= k < i ==> !is_ws(#[trigger] v@[k]),
        decreases v.len() - i,
    {
        if is_whitespace(v[i]) {
            proof {
                lemma_first_ws_at(v@.skip(lo as int), (i - lo) as int);
            }
            return Some(i - lo);
        }
        i += 1;
    }
    proof {
        lemma_first_ws_none(v@.skip(lo as int));
    }
    None
}

proof fn lemma_first_ws_at(s: Seq<char>, i: int)
    requires
        0 <= i < s.len(),
        is_ws(s[i]),
        forall|k: int| 0 <= k < i ==> !is_ws(#[trigger] s[k]),
    ensures
        first_ws(s) == Some(i),
    decreases i,
{
    if i > 0 {
        assert forall|k: int| 0 <= k < i - 1 implies !is_ws(#[trigger] s.drop_first()[k]) by {
            assert(s.drop_first()[k] == s[k + 1]);
        }
        lemma_first_ws_at(s.drop_first(), i - 1);
    }
}

proof fn lemma_first_ws_none(s: Seq<char>)
    requires
        forall|k: int| 0 <= k < s.len() ==> !is_ws(#[trigger] s[k]),
    ensures
        first_ws(s) is None,
    decreases s.len(),
{
    if s.len() > 0 {
        assert forall|k: int| 0 <= k < s.len() - 1 implies !is_ws(#[trigger] s.drop_first()[k]) by {
            assert(s.drop_first()[k] == s[k + 1]);
        }
        lemma_first_ws_none(s.drop_first());
    }
}

proof fn lemma_first_non_ws_at(s: Seq<char>, i: int)
    requires
        0 <= i < s.len(),
        !is_ws(s[i]),
        forall|k: int| 0 <= k < i ==> is_ws(#[trigger] s[k]),
    ensures
        first_non_ws(s) == Some(i),
    decreases i,
{
    if i > 0 {
        assert forall|k: int| 0 <= k < i - 1 implies is_ws(#[trigger] s.drop_first()[k]) by {
            assert(s.drop_first()[k] == s[k + 1]);
        }
        lemma_first_non_ws_at(s.drop_first(), i - 1);
    }
}

proof fn lemma_first_non_ws_none(s: Seq<char>)
    requires
        forall|k: int| 0 <= k < s.len() ==> is_ws(#[trigger] s[k]),
    ensures
        first_non_ws(s) is None,
    decreases s.len(),
{
    if s.len() > 0 {
        assert forall|k: int| 0 <= k < s.len() - 1 implies is_ws(#[trigger] s.drop_first()[k]) by {
            assert(s.drop_first()[k] == s[k + 1]);
        }
        lemma_first_non_ws_none(s.drop_first());
    }
}

/// Index of the first non-whitespace character of `v[lo..]`, counted from `lo`.
pub fn find_non_ws(v: &Vec<char>, lo: usize) -> (r: Option<usize>)
    requires
        lo <= v.len(),
    ensures
        match r {
            Some(i) => first_non_ws(v@.skip(lo as int)) == Some(i as int) && lo + i < v.len(),
            None => first_non_ws(v@.skip(lo as int)) is None,
        },
{
    let mut i = lo;
    while i < v.len()
        invariant
            lo <= i <= v.len(),
            forall|k: int| lo <= k < i ==> is_ws(#[trigger] v@[k]),
        decreases v.len() - i,
    {
        if !is_whitespace(v[i]) {
            proof {
                lemma_first_non_ws_at(v@.skip(lo as int), (i - lo) as int);
            }
            return Some(i - lo);
        }
        i += 1;
    }
    proof {
        lemma_first_non_ws_none(v@.skip(lo as int));
    }
    None
}

/// Index of the last character of `v` that is a newline or not whitespace.
pub fn rfind_nl_or_non_ws(v: &Vec<char>) -> (r: Option<usize>)
    ensures
        match r {
            Some(i) => last_nl_or_non_ws(v@) == Some(i as int) && i < v.len(),
            None => last_nl_or_non_ws(v@) is None,
        },
{
    let mut n = v.len();
    assert(v@.take(n as int) =~= v@);
    while n > 0
        invariant
            n <= v.len(),
            last_nl_or_non_ws(v@) == last_nl_or_non_ws(v@.take(n as int)),
        decreases n,
    {
        let c = v[n - 1];
        assert(v@.take(n as int).last() == c);
        if c == '\n' || !is_whitespace(c) {
            return Some(n - 1);
        }
        assert(v@.take(n as int).drop_last() =~= v@.take(n - 1));
        n -= 1;
    }
    None
}

/// The pieces of `v[lo..hi]` between dots, as `split_name` gives them.
pub fn split_name_range(v: &Vec<char>, lo: usize, hi: usize) -> (r: Vec<String>)
    requires
        lo <= hi <= v.len(),
    ensures
        strings_view(r@) == split_name(v@.subrange(lo as int, hi as int)),
{
    let mut parts: Vec<String> = Vec::new();
    let mut start = lo;
    let mut i = lo;
    assert(split_dots(v@.subrange(lo as int, lo as int)) =~= seq![Seq::<char>::empty()]);
    assert(strings_view(parts@) =~= Seq::<Seq<char>>::empty());
    assert(v@.subrange(lo as int, lo as int) =~= Seq::<char>::empty());
    assert(strings_view(parts@).push(v@.subrange(lo as int, lo as int)) =~= seq![Seq::<char>::empty()]);
    while i < hi
        invariant
            lo <= start <= i <= hi <= v.len(),
            strings_view(parts@).push(v@.subrange(start as int, i as int)) == split_dots(
                v@.subrange(lo as int, i as int),
            ),
        decreases hi - i,
    {
        let ghost prev = v@.subrange(lo as int, i as int);
        let ghost cur = v@.subrange(lo as int, i + 1);
        assert(cur.drop_last() =~= prev);
        assert(cur.last() == v@[i as int]);
        if v[i] == '.' {
            let piece = string_of_range(v, start, i);
            let ghost old_parts = strings_view(parts@);
            parts.push(piece);
            assert(strings_view(parts@) =~= old_parts.push(piece@));
            start = i + 1;
            assert(v@.subrange(start as int, i + 1) =~= Seq::<char>::empty());
        } else {
            assert(v@.subrange(start as int, i + 1) =~= v@.subrange(start as int, i as int).push(
                v@[i as int],
            ));
            assert(strings_view(parts@).push(v@.subrange(start as int, i + 1)) =~= split_dots(
                prev,
            ).update(split_dots(prev).len() - 1, split_dots(prev).last().push(v@[i as int])));
        }
        i += 1;
    }
    if start < hi {
        let piece = string_of_range(v, start, hi);
        let ghost old_parts = strings_view(parts@);
        parts.push(piece);
        assert(strings_view(parts@) =~= old_parts.push(piece@));
    } else {
        assert(strings_view(parts@) =~= strings_view(parts@).push(
            v@.subrange(start as int, hi as int),
        ).drop_last());
    }
    parts
}

/// `v` with each of `<`, `>`, `&`, `"` and `'` replaced by its HTML entity.
pub fn escape_html_string(s: &String) -> (r: String)
    ensures
        r@ == escape_html(s@),
{
    let v = chars_of(s.as_str());
    let mut out = String::new();
    let mut i: usize = 0;
    while i < v.len()
        invariant
            i <= v.len(),
            v@ == s@,
            out@ == escape_html(v@.take(i as int)),
        decreases v.len() - i,
    {
        let c = v[i];
        let ghost before = out@;
        if c == '<' {
            push_char(&mut out, '&');
            push_char(&mut out, 'l');
            push_char(&mut out, 't');
            push_char(&mut out, ';');
        } else if c == '>' {
            push_char(&mut out, '&');
            push_char(&mut out, 'g');
            push_char(&mut out, 't');
            push_char(&mut out, ';');
        } else if c == '&' {
            push_char(&mut out, '&');
            push_char(&mut out, 'a');
            push_char(&mut out, 'm');
            push_char(&mut out, 'p');
            push_char(&mut out, ';');
        } else if c == '"' {
            push_char(&mut out, '&');
            push_char(&mut out, 'q');
            push_char(&mut out, 'u');
            push_char(&mut out, 'o');
            push_char(&mut out, 't');
            push_char(&mut out, ';');
        } else if c == '\'' {
            push_char(&mut out, '&');
            push_char(&mut out, '#');
            push_char(&mut out, '3');
            push_char(&mut out, '9');
            push_char(&mut out, ';');
        } else {
            push_char(&mut out, c);
        }
        assert(out@ =~= before + escape_char(c));
        assert(v@.take(i + 1).drop_last() =~= v@.take(i as int));
        i += 1;
    }
    assert(v@.take(v.len() as int) =~= v@);
    out
}

} // verus!
