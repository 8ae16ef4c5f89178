//! Two ways to search a sequence: for the first item that holds a value, and
//! for the value under a key.

use vstd::prelude::*;

verus! {

/// The first of the items that holds a value.
pub open spec fn first_some<T>(items: Seq<Option<T>>) -> Option<T>
    decreases items.len(),
{
    if items.len() == 0 {
        None
    } else if items[0] is Some {
        items[0]
    } else {
        first_some(items.drop_first())
    }
}

/// An item that holds a value, with none before it that does, is the first.
pub proof fn lemma_first_some_at<T>(items: Seq<Option<T>>, i: int)
    requires
        0 <= i < items.len(),
        items[i] is Some,
        forall|j: int| 0 <= j < i ==> items[j] is None,
    ensures
        first_some(items) == items[i],
    decreases items.len(),
{
    if i > 0 {
        assert(items[0] is None);
        lemma_first_some_at(items.drop_first(), i - 1);
    }
}

/// Where no item holds a value, there is no first.
pub proof fn lemma_first_some_none<T>(items: Seq<Option<T>>)
    requires
        forall|j: int| 0 <= j < items.len() ==> items[j] is None,
    ensures
        first_some(items) is None,
    decreases items.len(),
{
    if items.len() > 0 {
        assert(items[0] is None);
        lemma_first_some_none(items.drop_first());
    }
}

/// Where some item holds a value, there is a first.
pub proof fn lemma_first_some_exists<T>(items: Seq<Option<T>>, i: int)
    requires
        0 <= i < items.len(),
        items[i] is Some,
    ensures
        first_some(items) is Some,
    decreases items.len(),
{
    if items[0] is None {
        lemma_first_some_exists(items.drop_first(), i - 1);
    }
}

/// Where there is no first, no item holds a value.
pub proof fn lemma_first_some_all_none<T>(items: Seq<Option<T>>)
    requires
        first_some(items) is None,
    ensures
        forall|j: int| 0 <= j < items.len() ==> (#[trigger] items[j]) is None,
{
    assert forall|j: int| 0 <= j < items.len() implies (#[trigger] items[j]) is None by {
        if items[j] is Some {
            lemma_first_some_exists(items, j);
        }
    }
}

/// The value of the first entry under a key.
pub open spec fn lookup<K, V>(entries: Seq<(K, V)>, key: K) -> Option<V>
    decreases entries.len(),
{
    if entries.len() == 0 {
        None
    } else if entries[0].0 == key {
        Some(entries[0].1)
    } else {
        lookup(entries.drop_first(), key)
    }
}

/// A key has a value exactly where some entry is under it.
pub proof fn lemma_lookup_some<K, V>(entries: Seq<(K, V)>, key: K)
    ensures
        lookup(entries, key) is Some <==> exists|i: int|
            0 <= i < entries.len() && (#[trigger] entries[i]).0 == key,
    decreases entries.len(),
{
    if entries.len() > 0 {
        let rest = entries.drop_first();
        lemma_lookup_some(rest, key);
        if entries[0].0 != key {
            if lookup(rest, key) is Some {
                let i = choose|i: int| 0 <= i < rest.len() && (#[trigger] rest[i]).0 == key;
                assert(entries[i + 1].0 == key);
            }
            if exists|i: int| 0 <= i < entries.len() && (#[trigger] entries[i]).0 == key {
                let i = choose|i: int| 0 <= i < entries.len() && (#[trigger] entries[i]).0 == key;
                assert(rest[i - 1].0 == key);
            }
        }
    }
}

} // verus!
