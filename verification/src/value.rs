//! The loosely-typed configuration tree that the resolver reads.

use vstd::prelude::*;

verus! {

/// One node of a configuration tree.
///
/// A table keeps its entries in the order in which they were written; a key
/// is looked up by its first occurrence.
#[derive(Debug, PartialEq, Eq)]
pub enum Value {
    /// A string.
    Str(String),
    /// A signed 64-bit integer.
    Integer(i64),
    /// A boolean.
    Boolean(bool),
    /// An ordered list of values.
    Array(Vec<Value>),
    /// An ordered list of named values.
    Table(Vec<(String, Value)>),
    /// A value of a kind that no attribute of a server or service takes,
    /// such as a fractional number or a date.
    Other,
}

/// Whether two trees are the same: of the same kind, with the same text,
/// number or flag, or with the same items or entries in the same order.
pub open spec fn same_tree(a: Value, b: Value) -> bool
    decreases a,
{
    match (a, b) {
        (Value::Str(x), Value::Str(y)) => x@ == y@,
        (Value::Integer(x), Value::Integer(y)) => x == y,
        (Value::Boolean(x), Value::Boolean(y)) => x == y,
        (Value::Array(x), Value::Array(y)) => {
            &&& x@.len() == y@.len()
            &&& forall|i: int| 0 <= i < x@.len() ==> same_tree(#[trigger] x@[i], y@[i])
        },
        (Value::Table(x), Value::Table(y)) => {
            &&& x@.len() == y@.len()
            &&& forall|i: int|
                0 <= i < x@.len() ==> (#[trigger] x@[i]).0@ == y@[i].0@ && same_tree(
                    x@[i].1,
                    y@[i].1,
                )
        },
        (Value::Other, Value::Other) => true,
        _ => false,
    }
}

/// Whether two tables are the same: they have the same keys in the same
/// order, and under each key the same tree.
pub open spec fn same_entries(a: Seq<(String, Value)>, b: Seq<(String, Value)>) -> bool {
    &&& a.len() == b.len()
    &&& forall|i: int|
        0 <= i < a.len() ==> (#[trigger] a[i]).0@ == b[i].0@ && same_tree(a[i].1, b[i].1)
}

/// Every tree is the same as itself.
pub proof fn lemma_same_tree_reflexive(a: Value)
    ensures
        same_tree(a, a),
    decreases a,
{
    match a {
        Value::Array(items) => {
            assert forall|i: int| 0 <= i < items@.len() implies same_tree(
                #[trigger] items@[i],
                items@[i],
            ) by {
                lemma_same_tree_reflexive(items@[i]);
            }
        },
        Value::Table(entries) => {
            assert forall|i: int| 0 <= i < entries@.len() implies same_tree(
                (#[trigger] entries@[i]).1,
                entries@[i].1,
            ) by {
                lemma_same_tree_reflexive(entries@[i].1);
            }
        },
        _ => {},
    }
}

impl Clone for Value {
    /// A copy of the whole tree.
    fn clone(&self) -> (copy: Value)
        ensures
            same_tree(*self, copy),
        decreases self,
    {
        match self {
            Value::Str(text) => Value::Str(text.clone()),
            Value::Integer(number) => Value::Integer(*number),
            Value::Boolean(flag) => Value::Boolean(*flag),
            Value::Array(items) => {
                let mut copies: Vec<Value> = Vec::new();
                let mut i: usize = 0;
                while i < items.len()
                    invariant
                        i <= items.len(),
                        *self == Value::Array(*items),
                        copies@.len() == i,
                        forall|k: int| 0 <= k < i ==> same_tree(#[trigger] items@[k], copies@[k]),
                    decreases items.len() - i,
                {
                    proof {
                        assert(decreases_to!(*self => self->Array_0));
                    }
                    copies.push(items[i].clone());
                    i += 1;
                }
                Value::Array(copies)
            },
            Value::Table(entries) => {
                let mut copies: Vec<(String, Value)> = Vec::new();
                let mut i: usize = 0;
                while i < entries.len()
                    invariant
                        i <= entries.len(),
                        *self == Value::Table(*entries),
                        copies@.len() == i,
                        forall|k: int|
                            0 <= k < i ==> (#[trigger] entries@[k]).0@ == copies@[k].0@
                                && same_tree(entries@[k].1, copies@[k].1),
                    decreases entries.len() - i,
                {
                    proof {
                        assert(decreases_to!(*self => self->Table_0));
                    }
                    copies.push((entries[i].0.clone(), entries[i].1.clone()));
                    i += 1;
                }
                Value::Table(copies)
            },
            Value::Other => Value::Other,
        }
    }
}

/// The value that `entries` gives to `key`: that of the first entry under
/// this key, if there is one.
pub open spec fn lookup(entries: Seq<(String, Value)>, key: Seq<char>) -> Option<Value>
    decreases entries.len(),
{
    if entries.len() == 0 {
        None
    } else if entries[0].0@ == key {
        Some(entries[0].1)
    } else {
        lookup(entries.drop_first(), key)
    }
}

/// Tables that are the same give the same under every key.
pub proof fn lemma_lookup_same(a: Seq<(String, Value)>, b: Seq<(String, Value)>, key: Seq<char>)
    requires
        same_entries(a, b),
    ensures
        lookup(a, key) is Some <==> lookup(b, key) is Some,
        lookup(a, key) is Some ==> same_tree(lookup(a, key)->Some_0, lookup(b, key)->Some_0),
    decreases a.len(),
{
    if a.len() > 0 {
        assert(a[0].0@ == b[0].0@ && same_tree(a[0].1, b[0].1));
        if a[0].0@ != key {
            let rest = a.drop_first();
            let other = b.drop_first();
            assert forall|i: int| 0 <= i < rest.len() implies (#[trigger] rest[i]).0@
                == other[i].0@ && same_tree(rest[i].1, other[i].1) by {
                assert(a[i + 1].0@ == b[i + 1].0@ && same_tree(a[i + 1].1, b[i + 1].1));
            }
            lemma_lookup_same(rest, other, key);
        }
    }
}

/// Looks `key` up among `entries`.
pub fn find<'a>(entries: &'a Vec<(String, Value)>, key: &str) -> (found: Option<&'a Value>)
    ensures
        match found {
            Some(v) => lookup(entries@, key@) == Some(*v),
            None => lookup(entries@, key@) is None,
        },
{
    let wanted = String::from_str(key);
    let mut i: usize = 0;
    proof {
        assert(entries@.skip(0) =~= entries@);
    }
    while i < entries.len()
        invariant
            i <= entries.len(),
            wanted@ == key@,
            lookup(entries@, key@) == lookup(entries@.skip(i as int), key@),
        decreases entries.len() - i,
    {
        if entries[i].0 == wanted {
            return Some(&entries[i].1);
        }
        proof {
            assert(entries@.skip(i as int).drop_first() =~= entries@.skip(i as int + 1));
        }
        i += 1;
    }
    None
}

} // verus!
