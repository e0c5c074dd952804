//! The values a template is rendered against, and how a dotted name finds
//! one of them in a stack of contexts.
use vstd::prelude::*;

verus! {

broadcast use vstd::string::group_string_axioms;

/// A function that a template calls: it gets the unrendered source of a
/// section (or nothing, for a variable) and returns template text, which is
/// then compiled and rendered in its place.
///
/// An implementation may say by `called` which outputs it may give for an
/// input; one that does not promises nothing of its output. Nothing asks
/// that the same input always give the same output.
pub trait Lambda {
    /// Whether `out` is a text that the lambda may return when called on
    /// `text`: by default, any text.
    open spec fn called(&self, text: Seq<char>, out: Seq<char>) -> bool {
        true
    }

    fn call(&self, text: String) -> (out: String)
        ensures
            self.called(text@, out@),
    ;
}

/// A value to render a template against.
#[verifier::reject_recursive_types(L)]
pub enum Data<L> {
    Str(String),
    Bool(bool),
    Vec(Vec<Data<L>>),
    /// A context: names and their values.
    Dict(Vec<(String, Data<L>)>),
    Fun(L),
}

/// The value of the first entry named `key`.
pub open spec fn map_get<L>(entries: Seq<(String, Data<L>)>, key: Seq<char>) -> Option<Data<L>>
    decreases entries.len(),
{
    if entries.len() == 0 {
        None
    } else if entries[0].0@ == key {
        Some(entries[0].1)
    } else {
        map_get(entries.drop_first(), key)
    }
}

/// The value of the first entry of `entries` named `key`.
pub fn map_find<'a, L>(entries: &'a Vec<(String, Data<L>)>, key: &String) -> (r: Option<&'a Data<L>>)
    ensures
        match map_get(entries@, key@) {
            Some(v) => r == Some(&v),
            None => r is None,
        },
{
    let mut i: usize = 0;
    assert(entries@.skip(0) =~= entries@);
    while i < entries.len()
        invariant
            i <= entries.len(),
            map_get(entries@, key@) == map_get(entries@.skip(i as int), key@),
        decreases entries.len() - i,
    {
        assert(entries@.skip(i as int).drop_first() =~= entries@.skip(i + 1));
        if entries[i].0 == *key {
            return Some(&entries[i].1);
        }
        i += 1;
    }
    None
}

/// Sets `key` to `value` in `entries`: the first entry named `key` gets the
/// value, or a new entry is appended.
pub open spec fn map_set<L>(entries: Seq<(String, Data<L>)>, key: String, value: Data<L>) -> Seq<
    (String, Data<L>),
>
    decreases entries.len(),
{
    if entries.len() == 0 {
        seq![(key, value)]
    } else if entries[0].0@ == key@ {
        entries.update(0, (entries[0].0, value))
    } else {
        seq![entries[0]] + map_set(entries.drop_first(), key, value)
    }
}

/// Looking up the key just set gives its value; other keys are untouched.
pub proof fn law_map_set_then_get<L>(entries: Seq<(String, Data<L>)>, key: String, value: Data<L>, k: Seq<char>)
    ensures
        map_get(map_set(entries, key, value), k) == if k == key@ {
            Some(value)
        } else {
            map_get(entries, k)
        },
    decreases entries.len(),
{
    if entries.len() == 0 {
        let s = seq![(key, value)];
        assert(s[0] == (key, value));
        assert(s.drop_first() =~= Seq::<(String, Data<L>)>::empty());
        assert(map_get(Seq::<(String, Data<L>)>::empty(), k) is None);
    } else if entries[0].0@ == key@ {
        let s = entries.update(0, (entries[0].0, value));
        assert(s[0] == (entries[0].0, value));
        assert(s.drop_first() =~= entries.drop_first());
    } else {
        law_map_set_then_get(entries.drop_first(), key, value, k);
        let s = seq![entries[0]] + map_set(entries.drop_first(), key, value);
        assert(s[0] == entries[0]);
        assert(s.drop_first() =~= map_set(entries.drop_first(), key, value));
    }
}

/// The names of the entries of a context, in order.
pub open spec fn map_keys<L>(entries: Seq<(String, Data<L>)>) -> Seq<Seq<char>> {
    entries.map_values(|e: (String, Data<L>)| e.0@)
}

/// Whether no two entries of a context share a name.
pub open spec fn keys_distinct<L>(entries: Seq<(String, Data<L>)>) -> bool {
    map_keys(entries).no_duplicates()
}

/// Setting a key keeps the names that were there, in order, and adds the
/// key at the end where it was not there.
pub proof fn law_map_set_keys<L>(entries: Seq<(String, Data<L>)>, key: String, value: Data<L>)
    ensures
        map_keys(map_set(entries, key, value)) == if map_keys(entries).contains(key@) {
            map_keys(entries)
        } else {
            map_keys(entries).push(key@)
        },
    decreases entries.len(),
{
    let ks = map_keys(entries);
    let r = map_set(entries, key, value);
    if entries.len() == 0 {
        assert(map_keys(r) =~= seq![key@]);
        assert(ks =~= Seq::<Seq<char>>::empty());
        assert(ks.push(key@) =~= seq![key@]);
    } else if entries[0].0@ == key@ {
        assert(ks[0] == key@);
        assert(map_keys(r) =~= ks);
    } else {
        law_map_set_keys(entries.drop_first(), key, value);
        let rest = map_set(entries.drop_first(), key, value);
        assert(map_keys(entries.drop_first()) =~= ks.drop_first());
        assert(map_keys(r) =~= seq![entries[0].0@] + map_keys(rest));
        if ks.drop_first().contains(key@) {
            let j = choose|j: int| 0 <= j < ks.drop_first().len() && ks.drop_first()[j] == key@;
            assert(ks[j + 1] == key@);
            assert(ks.contains(key@));
            assert(map_keys(r) =~= ks);
        } else {
            assert forall|j: int| 0 <= j < ks.len() implies ks[j] != key@ by {
                if j > 0 {
                    assert(ks.drop_first()[j - 1] == ks[j]);
                }
            }
            assert(!ks.contains(key@));
            assert(map_keys(r) =~= ks.push(key@));
        }
    }
}

/// Setting a key keeps the names of a context distinct.
pub proof fn law_map_set_keeps_keys_distinct<L>(entries: Seq<(String, Data<L>)>, key: String, value: Data<L>)
    requires
        keys_distinct(entries),
    ensures
        keys_distinct(map_set(entries, key, value)),
{
    law_map_set_keys(entries, key, value);
    let ks = map_keys(entries);
    if !ks.contains(key@) {
        let ks2 = ks.push(key@);
        assert forall|i: int, j: int| 0 <= i < ks2.len() && 0 <= j < ks2.len() && i != j implies ks2[i] != ks2[j] by {
            if i == ks.len() {
                assert(ks2[j] == ks[j]);
            } else if j == ks.len() {
                assert(ks2[i] == ks[i]);
            }
        }
    }
}

/// Where the names are distinct, looking up the name of any entry gives
/// that entry's value: the first match is the only one.
pub proof fn law_map_get_distinct<L>(entries: Seq<(String, Data<L>)>, i: int)
    requires
        keys_distinct(entries),
        0 <= i < entries.len(),
    ensures
        map_get(entries, entries[i].0@) == Some(entries[i].1),
    decreases entries.len(),
{
    let ks = map_keys(entries);
    if i > 0 {
        assert(ks[0] != ks[i]);
        let rest = entries.drop_first();
        assert(map_keys(rest) =~= ks.drop_first());
        assert(rest[i - 1] == entries[i]);
        law_map_get_distinct(rest, i - 1);
    }
}

/// Sets `key` to `value` in the context `entries`.
pub fn map_insert<L>(entries: &mut Vec<(String, Data<L>)>, key: String, value: Data<L>)
    ensures
        final(entries)@ == map_set(old(entries)@, key, value),
        keys_distinct(old(entries)@) ==> keys_distinct(final(entries)@),
{
    proof {
        if keys_distinct(old(entries)@) {
            law_map_set_keeps_keys_distinct(old(entries)@, key, value);
        }
    }
    let mut i: usize = 0;
    while i < entries.len()
        invariant
            i <= entries.len(),
            entries@ == old(entries)@,
            forall|j: int| 0 <= j < i ==> entries@[j].0@ != key@,
            keys_distinct(old(entries)@) ==> keys_distinct(map_set(old(entries)@, key, value)),
        decreases entries.len() - i,
    {
        if entries[i].0 == key {
            proof {
                lemma_map_set_prefix(old(entries)@, key, value, i as int);
            }
            let name = entries[i].0.clone();
            entries.set(i, (name, value));
            assert(entries@ =~= map_set(old(entries)@, key, value));
            return;
        }
        i += 1;
    }
    proof {
        lemma_map_set_absent(old(entries)@, key, value);
    }
    entries.push((key, value));
}

proof fn lemma_map_set_prefix<L>(entries: Seq<(String, Data<L>)>, key: String, value: Data<L>, i: int)
    requires
        0 <= i < entries.len(),
        entries[i].0@ == key@,
        forall|j: int| 0 <= j < i ==> entries[j].0@ != key@,
    ensures
        map_set(entries, key, value).len() == entries.len(),
        map_set(entries, key, value)[i].1 == value,
        map_set(entries, key, value)[i].0 == entries[i].0,
        forall|j: int| 0 <= j < entries.len() && j != i ==> map_set(entries, key, value)[j] == entries[j],
    decreases i,
{
    if i > 0 {
        assert forall|j: int| 0 <= j < i - 1 implies entries.drop_first()[j].0@ != key@ by {
            assert(entries.drop_first()[j] == entries[j + 1]);
        }
        assert(entries[0].0@ != key@);
        lemma_map_set_prefix(entries.drop_first(), key, value, i - 1);
        let s = seq![entries[0]] + map_set(entries.drop_first(), key, value);
        assert forall|j: int| 0 <= j < entries.len() && j != i implies s[j] == entries[j] by {
            if j > 0 {
                assert(s[j] == map_set(entries.drop_first(), key, value)[j - 1]);
                assert(entries.drop_first()[j - 1] == entries[j]);
            }
        }
        assert(s[i] == map_set(entries.drop_first(), key, value)[i - 1]);
    }
}

proof fn lemma_map_set_absent<L>(entries: Seq<(String, Data<L>)>, key: String, value: Data<L>)
    requires
        forall|j: int| 0 <= j < entries.len() ==> entries[j].0@ != key@,
    ensures
        map_set(entries, key, value) == entries.push((key, value)),
    decreases entries.len(),
{
    if entries.len() > 0 {
        assert forall|j: int| 0 <= j < entries.len() - 1 implies entries.drop_first()[j].0@ != key@ by {
            assert(entries.drop_first()[j] == entries[j + 1]);
        }
        lemma_map_set_absent(entries.drop_first(), key, value);
        assert(seq![entries[0]] + entries.drop_first().push((key, value)) =~= entries.push((key, value)));
    } else {
        assert(entries.push((key, value)) =~= seq![(key, value)]);
    }
}

/// The value that the first name of a path finds: the innermost context
/// that has it; `Err` where a context on the way is not a map.
pub open spec fn find_in_stack<L>(stack: Seq<Data<L>>, key: Seq<char>) -> Result<Option<Data<L>>, ()>
    decreases stack.len(),
{
    if stack.len() == 0 {
        Ok(None)
    } else {
        match stack.last() {
            Data::Dict(m) => match map_get(m@, key) {
                Some(v) => Ok(Some(v)),
                None => find_in_stack(stack.drop_last(), key),
            },
            _ => Err(()),
        }
    }
}

/// Follows the rest of a path into nested maps; it stops at the first
/// value that is not a map.
pub open spec fn walk_path<L>(value: Option<Data<L>>, rest: Seq<Seq<char>>) -> Option<Data<L>>
    decreases rest.len(),
{
    if rest.len() == 0 {
        value
    } else {
        match value {
            Some(Data::Dict(m)) => walk_path(map_get(m@, rest[0]), rest.drop_first()),
            _ => value,
        }
    }
}

/// The value that the dotted name `path` finds in `stack`; the empty path
/// finds the top of the stack.
pub open spec fn find_path<L>(stack: Seq<Data<L>>, path: Seq<Seq<char>>) -> Result<Option<Data<L>>, ()> {
    if path.len() == 0 {
        Ok(if stack.len() == 0 { None } else { Some(stack.last()) })
    } else {
        match find_in_stack(stack, path[0]) {
            Err(e) => Err(e),
            Ok(v) => Ok(walk_path(v, path.drop_first())),
        }
    }
}

/// The values that the references of a stack point to.
pub open spec fn stack_view<'a, L>(stack: Seq<&'a Data<L>>) -> Seq<Data<L>> {
    stack.map_values(|r: &'a Data<L>| *r)
}

/// The value that the first name of a path finds in `stack`.
fn find_first<'a, L>(stack: &Vec<&'a Data<L>>, key: &String) -> (r: Result<Option<&'a Data<L>>, ()>)
    ensures
        match find_in_stack(stack_view(stack@), key@) {
            Ok(Some(v)) => r == Ok::<Option<&Data<L>>, ()>(Some(&v)),
            Ok(None) => r == Ok::<Option<&Data<L>>, ()>(None),
            Err(_) => r is Err,
        },
{
    let ghost sv = stack_view(stack@);
    let mut i = stack.len();
    assert(sv.take(i as int) =~= sv);
    while i > 0
        invariant
            i <= stack.len(),
            sv == stack_view(stack@),
            find_in_stack(sv, key@) == find_in_stack(sv.take(i as int), key@),
        decreases i,
    {
        let top = stack[i - 1];
        assert(sv.take(i as int).last() == *top);
        assert(sv.take(i as int).drop_last() =~= sv.take(i - 1));
        match top {
            Data::Dict(m) => {
                match map_find(m, key) {
                    Some(v) => {
                        return Ok(Some(v));
                    },
                    None => {},
                }
                i -= 1;
            },
            _ => {
                return Err(());
            },
        }
    }
    Ok(None)
}

/// The value that `path` finds in `stack`.
pub fn find<'a, L>(stack: &Vec<&'a Data<L>>, path: &Vec<String>) -> (r: Result<Option<&'a Data<L>>, ()>)
    ensures
        match find_path(stack_view(stack@), path@.map_values(|s: String| s@)) {
            Ok(Some(v)) => r == Ok::<Option<&Data<L>>, ()>(Some(&v)),
            Ok(None) => r == Ok::<Option<&Data<L>>, ()>(None),
            Err(_) => r is Err,
        },
{
    let ghost sv = stack_view(stack@);
    let ghost pv = path@.map_values(|s: String| s@);
    if path.len() == 0 {
        if stack.len() == 0 {
            return Ok(None);
        } else {
            return Ok(Some(stack[stack.len() - 1]));
        }
    }
    let mut value = match find_first(stack, &path[0]) {
        Ok(v) => v,
        Err(e) => {
            return Err(e);
        },
    };
    let mut j: usize = 1;
    assert(pv.drop_first() =~= pv.skip(1));
    proof {
        if path.len() == 1 {
            assert(pv.skip(1) =~= Seq::<Seq<char>>::empty());
        }
    }
    while j < path.len()
        invariant
            1 <= j <= path.len(),
            pv == path@.map_values(|s: String| s@),
            walk_path(find_in_stack(sv, pv[0])->Ok_0, pv.drop_first()) == walk_path(
                match value {
                    Some(v) => Some(*v),
                    None => None,
                },
                pv.skip(j as int),
            ),
        ensures
            walk_path(find_in_stack(sv, pv[0])->Ok_0, pv.drop_first()) == match value {
                Some(v) => Some(*v),
                None => None,
            },
        decreases path.len() - j,
    {
        assert(pv.skip(j as int).drop_first() =~= pv.skip(j + 1));
        assert(pv.skip(j as int)[0] == path@[j as int]@);
        match value {
            Some(Data::Dict(m)) => {
                value = map_find(m, &path[j]);
            },
            _ => {
                break;
            },
        }
        j += 1;
        proof {
            if j == path.len() {
                assert(pv.skip(j as int) =~= Seq::<Seq<char>>::empty());
            }
        }
    }
    Ok(value)
}


/// The innermost context decides: where the map on top of the stack has the
/// name, looking it up gives that map's value, whatever the contexts below
/// hold.
pub proof fn law_find_innermost_first<L>(
    stack: Seq<Data<L>>,
    m: Vec<(String, Data<L>)>,
    key: Seq<char>,
    v: Data<L>,
)
    requires
        map_get(m@, key) == Some(v),
    ensures
        find_in_stack(stack.push(Data::Dict(m)), key) == Ok::<Option<Data<L>>, ()>(Some(v)),
        find_path(stack.push(Data::Dict(m)), seq![key]) == Ok::<Option<Data<L>>, ()>(Some(v)),
{
    let s2 = stack.push(Data::Dict(m));
    assert(s2.last() == Data::<L>::Dict(m));
    assert(seq![key][0] == key);
    assert(seq![key].drop_first() =~= Seq::<Seq<char>>::empty());
}

/// Where the map on top of the stack lacks the name, looking it up is
/// looking it up in the contexts below.
pub proof fn law_find_falls_through<L>(stack: Seq<Data<L>>, m: Vec<(String, Data<L>)>, key: Seq<char>)
    requires
        map_get(m@, key) is None,
    ensures
        find_in_stack(stack.push(Data::Dict(m)), key) == find_in_stack(stack, key),
{
    let s2 = stack.push(Data::Dict(m));
    assert(s2.last() == Data::<L>::Dict(m));
    assert(s2.drop_last() =~= stack);
}

} // verus!
