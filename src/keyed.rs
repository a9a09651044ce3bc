use vstd::prelude::*;

verus! {

/// A value under a text key, as held in a list that keeps each key once.
pub struct Entry<V> {
    pub key: String,
    pub value: V,
}

/// The place of the entry whose key is `key`, if any.
pub fn find_key<V>(entries: &Vec<Entry<V>>, key: &String) -> (r: Option<usize>)
    ensures
        match r {
            Some(i) => i < entries@.len() && entries@[i as int].key@ == key@,
            None => forall|i: int| 0 <= i < entries@.len() ==> (#[trigger] entries@[i]).key@ != key@,
        },
{
    let mut i: usize = 0;
    while i < entries.len()
        invariant
            0 <= i <= entries@.len(),
            forall|j: int| 0 <= j < i ==> (#[trigger] entries@[j]).key@ != key@,
        decreases entries@.len() - i,
    {
        if entries[i].key == *key {
            return Some(i);
        }
        i = i + 1;
    }
    None
}

/// A list with one entry for each key of `m`, and no other, has as many
/// entries as `m` has keys.
pub proof fn lemma_key_count<V, W>(entries: Seq<Entry<V>>, m: Map<Seq<char>, W>)
    requires
        forall|a: int, b: int|
            0 <= a < b < entries.len() ==> (#[trigger] entries[a]).key@ != (#[trigger] entries[b]).key@,
        forall|a: int| 0 <= a < entries.len() ==> m.contains_key((#[trigger] entries[a]).key@),
        forall|k: Seq<char>|
            #[trigger] m.contains_key(k) ==> exists|a: int|
                0 <= a < entries.len() && (#[trigger] entries[a]).key@ == k,
    ensures
        m.dom().len() == entries.len(),
{
    let keys = entries.map_values(|e: Entry<V>| e.key@);
    assert forall|a: int, b: int| 0 <= a < keys.len() && 0 <= b < keys.len() && a != b implies keys[a]
        != keys[b] by {
        if a < b {
            assert(entries[a].key@ != entries[b].key@);
        } else {
            assert(entries[b].key@ != entries[a].key@);
        }
    }
    keys.unique_seq_to_set();
    assert(keys.to_set() =~= m.dom()) by {
        assert forall|k: Seq<char>| m.dom().contains(k) implies keys.to_set().contains(k) by {
            let a = choose|a: int| 0 <= a < entries.len() && (#[trigger] entries[a]).key@ == k;
            assert(keys[a] == k);
        }
        assert forall|k: Seq<char>| keys.to_set().contains(k) implies m.dom().contains(k) by {
            let a = choose|a: int| 0 <= a < keys.len() && keys[a] == k;
            assert(entries[a].key@ == k);
        }
    }
}

} // verus!
