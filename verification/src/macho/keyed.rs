//! Lists of entries with a key, kept in the order in which the keys came.

use crate::macho::functions::same_bytes;
use vstd::prelude::*;

verus! {

/// Index of the first entry with the key `key`, if there is one.
pub open spec fn key_index<K, V>(entries: Seq<(K, V)>, key: K) -> Option<int>
    decreases entries.len(),
{
    if entries.len() == 0 {
        None
    } else {
        match key_index(entries.drop_last(), key) {
            Some(i) => Some(i),
            None => if entries.last().0 == key {
                Some(entries.len() - 1)
            } else {
                None
            },
        }
    }
}

/// `key_index` finds the first entry with the key, and nothing where no
/// entry has it.
pub proof fn lemma_key_index<K, V>(entries: Seq<(K, V)>, key: K)
    ensures
        match key_index(entries, key) {
            Some(i) => 0 <= i < entries.len() && entries[i].0 == key && forall|j: int|
                0 <= j < i ==> (#[trigger] entries[j]).0 != key,
            None => forall|j: int| 0 <= j < entries.len() ==> (#[trigger] entries[j]).0 != key,
        },
    decreases entries.len(),
{
    if entries.len() > 0 {
        let before = entries.drop_last();
        lemma_key_index(before, key);
        match key_index(before, key) {
            Some(i) => {
                assert(entries[i] == before[i]);
                assert forall|j: int| 0 <= j < i implies (#[trigger] entries[j]).0 != key by {
                    assert(entries[j] == before[j]);
                }
            },
            None => {
                assert forall|j: int| 0 <= j < entries.len() - 1 implies (#[trigger] entries[j]).0
                    != key by {
                    assert(entries[j] == before[j]);
                }
            },
        }
    }
}

/// The first entry with the key is what `key_index` finds.
pub proof fn lemma_key_index_found<K, V>(entries: Seq<(K, V)>, key: K, i: int)
    requires
        0 <= i < entries.len(),
        entries[i].0 == key,
        forall|j: int| 0 <= j < i ==> (#[trigger] entries[j]).0 != key,
    ensures
        key_index(entries, key) == Some(i),
{
    lemma_key_index(entries, key);
    match key_index(entries, key) {
        Some(w) => {
            if w < i {
                assert(entries[w].0 != key);
            }
        },
        None => {
            assert(entries[i].0 != key);
        },
    }
}

/// Where no entry has the key, `key_index` finds nothing.
pub proof fn lemma_key_index_missing<K, V>(entries: Seq<(K, V)>, key: K)
    requires
        forall|j: int| 0 <= j < entries.len() ==> (#[trigger] entries[j]).0 != key,
    ensures
        key_index(entries, key) is None,
{
    lemma_key_index(entries, key);
    if let Some(w) = key_index(entries, key) {
        assert(entries[w].0 != key);
    }
}

/// Looks for the first entry whose name is `name`.
pub fn find_name<T>(entries: &Vec<(Vec<u8>, T)>, name: &[u8]) -> (found: Option<usize>)
    ensures
        match found {
            Some(i) => i < entries@.len() && entries@[i as int].0@ == name@ && forall|j: int|
                0 <= j < i ==> (#[trigger] entries@[j]).0@ != name@,
            None => forall|j: int| 0 <= j < entries@.len() ==> (#[trigger] entries@[j]).0@ != name@,
        },
{
    let mut i: usize = 0;
    while i < entries.len()
        invariant
            0 <= i <= entries@.len(),
            forall|j: int| 0 <= j < i ==> (#[trigger] entries@[j]).0@ != name@,
        decreases entries@.len() - i,
    {
        if same_bytes(entries[i].0.as_slice(), name) {
            return Some(i);
        }
        i += 1;
    }
    None
}

/// Looks for the first entry whose number is `number`.
pub fn find_number<T>(entries: &Vec<(usize, T)>, number: usize) -> (found: Option<usize>)
    ensures
        match found {
            Some(i) => i < entries@.len() && entries@[i as int].0 == number && forall|j: int|
                0 <= j < i ==> (#[trigger] entries@[j]).0 != number,
            None => forall|j: int| 0 <= j < entries@.len() ==> (#[trigger] entries@[j]).0 != number,
        },
{
    let mut i: usize = 0;
    while i < entries.len()
        invariant
            0 <= i <= entries@.len(),
            forall|j: int| 0 <= j < i ==> (#[trigger] entries@[j]).0 != number,
        decreases entries@.len() - i,
    {
        if entries[i].0 == number {
            return Some(i);
        }
        i += 1;
    }
    None
}

} // verus!
