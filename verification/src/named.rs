//! Lists of named entries: what a mapping from names to values is here, in
//! the order in which the names first came up.

use vstd::prelude::*;

verus! {

/// Named entries as mathematical values.
pub open spec fn named<V: View>(entries: Seq<(String, V)>) -> Seq<(Seq<char>, V::V)> {
    entries.map_values(|entry: (String, V)| (entry.0@, entry.1@))
}

/// The names of a list of named entries, in order.
pub open spec fn names<T>(entries: Seq<(Seq<char>, T)>) -> Seq<Seq<char>> {
    entries.map_values(|entry: (Seq<char>, T)| entry.0)
}

/// Whether no name occurs twice.
pub open spec fn distinct(keys: Seq<Seq<char>>) -> bool {
    forall|i: int, j: int| 0 <= i < j < keys.len() ==> keys[i] != keys[j]
}

/// The value that `entries` holds under `name`: that of the first entry of
/// this name, if there is one.
pub open spec fn entry_for<T>(entries: Seq<(Seq<char>, T)>, name: Seq<char>) -> Option<T> {
    match names(entries).index_of_first(name) {
        Some(at) => Some(entries[at].1),
        None => None,
    }
}

/// `entries` with `value` under `name`: in the place of the entry that has
/// this name, or at the end where there is none.
pub open spec fn upsert<T>(entries: Seq<(Seq<char>, T)>, name: Seq<char>, value: T) -> Seq<
    (Seq<char>, T),
> {
    match names(entries).index_of_first(name) {
        Some(at) => entries.update(at, (name, value)),
        None => entries.push((name, value)),
    }
}

/// Puts `value` under `name`: in the place of the entry that has this name,
/// or at the end where there is none.
pub fn put<V: View>(entries: &mut Vec<(String, V)>, name: String, value: V)
    ensures
        named(final(entries)@) == upsert(named(old(entries)@), name@, value@),
{
    let ghost before = named(entries@);
    let mut i: usize = 0;
    while i < entries.len()
        invariant
            i <= entries.len(),
            named(entries@) == before,
            before == named(old(entries)@),
            forall|j: int| 0 <= j < i ==> names(before)[j] != name@,
        decreases entries.len() - i,
    {
        if entries[i].0 == name {
            proof {
                assert(names(before)[i as int] == name@);
                assert(names(before).contains(name@));
                names(before).index_of_first_ensures(name@);
            }
            entries.set(i, (name, value));
            assert(named(entries@) =~= before.update(i as int, (name@, value@)));
            return ;
        }
        i += 1;
    }
    proof {
        names(before).index_of_first_ensures(name@);
    }
    entries.push((name, value));
    assert(named(entries@) =~= before.push((name@, value@)));
}

/// Looks up what `entries` hold under `name`.
pub fn get<'a, V: View>(entries: &'a Vec<(String, V)>, name: &str) -> (found: Option<&'a V>)
    ensures
        match found {
            Some(value) => entry_for(named(entries@), name@) == Some(value@),
            None => entry_for(named(entries@), name@) is None,
        },
{
    let wanted = String::from_str(name);
    let ghost keys = names(named(entries@));
    let mut i: usize = 0;
    while i < entries.len()
        invariant
            i <= entries.len(),
            wanted@ == name@,
            keys == names(named(entries@)),
            forall|j: int| 0 <= j < i ==> keys[j] != name@,
        decreases entries.len() - i,
    {
        if entries[i].0 == wanted {
            proof {
                assert(keys[i as int] == name@);
                keys.index_of_first_ensures(name@);
            }
            return Some(&entries[i].1);
        }
        i += 1;
    }
    proof {
        keys.index_of_first_ensures(name@);
    }
    None
}

/// Putting a value under a name leaves the names as they are where the name
/// is among them, and adds it at the end where it is not. Names that were
/// distinct stay distinct.
pub proof fn lemma_upsert_names<T>(entries: Seq<(Seq<char>, T)>, name: Seq<char>, value: T)
    ensures
        names(entries).contains(name) ==> names(upsert(entries, name, value)) == names(entries),
        !names(entries).contains(name) ==> names(upsert(entries, name, value)) == names(
            entries,
        ).push(name),
        distinct(names(entries)) ==> distinct(names(upsert(entries, name, value))),
{
    names(entries).index_of_first_ensures(name);
    if names(entries).contains(name) {
        assert(names(upsert(entries, name, value)) =~= names(entries));
    } else {
        assert(names(upsert(entries, name, value)) =~= names(entries).push(name));
        if distinct(names(entries)) {
            let after = names(entries).push(name);
            assert forall|i: int, j: int| 0 <= i < j < after.len() implies after[i] != after[j] by {
                if j == names(entries).len() {
                    assert(names(entries)[i] == after[i]);
                    assert(names(entries).contains(after[i]));
                } else {
                    assert(names(entries)[i] == after[i]);
                    assert(names(entries)[j] == after[j]);
                }
            }
        }
    }
}

/// After a value was put under a name, the entries hold that value under
/// that name, and under every other name what they held before.
pub proof fn lemma_upsert_entry<T>(
    entries: Seq<(Seq<char>, T)>,
    name: Seq<char>,
    value: T,
    other: Seq<char>,
)
    ensures
        entry_for(upsert(entries, name, value), name) == Some(value),
        other != name ==> entry_for(upsert(entries, name, value), other) == entry_for(
            entries,
            other,
        ),
{
    let before = names(entries);
    let after = names(upsert(entries, name, value));
    lemma_upsert_names(entries, name, value);
    before.index_of_first_ensures(name);
    before.index_of_first_ensures(other);
    after.index_of_first_ensures(name);
    after.index_of_first_ensures(other);
    if before.contains(name) {
        let at = before.index_of_first(name)->Some_0;
        let found = after.index_of_first(name)->Some_0;
        assert(after[at] == name);
        assert(after.contains(name));
        if found < at {
            assert(before[found] != name);
        }
        if at < found {
            assert(after[at] != name);
        }
    } else {
        let end = before.len() as int;
        assert(after[end] == name);
        assert(after.contains(name));
        let found = after.index_of_first(name)->Some_0;
        if found < end {
            assert(before[found] == name);
            assert(before.contains(name));
        }
    }
    if other != name {
        if before.contains(other) {
            let at = before.index_of_first(other)->Some_0;
            assert(after[at] == other);
            assert(after.contains(other));
            let found = after.index_of_first(other)->Some_0;
            if found < at {
                assert(before[found] == after[found]);
            }
            if at < found {
                assert(after[at] != other);
            }
        } else {
            if after.contains(other) {
                let found = after.index_of_first(other)->Some_0;
                if found < before.len() {
                    assert(before[found] == other);
                    assert(before.contains(other));
                }
            }
        }
    }
}

} // verus!
