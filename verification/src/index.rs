//! The in-memory index: a mapping from key text to the byte offset of that
//! key's most recent record in the log. Held as an association list with
//! pairwise-distinct keys, viewed as a `Map`.

use vstd::prelude::*;

verus! {

/// The mapping an association list denotes; a later entry for a key would
/// overwrite an earlier one.
pub open spec fn assoc_map(entries: Seq<(String, u64)>) -> Map<Seq<char>, u64>
    decreases entries.len(),
{
    if entries.len() == 0 {
        Map::empty()
    } else {
        assoc_map(entries.drop_last()).insert(entries.last().0@, entries.last().1)
    }
}

/// No two entries hold the same key.
pub open spec fn keys_unique(entries: Seq<(String, u64)>) -> bool {
    forall|i: int, j: int| 0 <= i < j < entries.len() ==> entries[i].0@ != entries[j].0@
}

/// A key held by no entry is absent from the denoted mapping.
proof fn lemma_assoc_absent(entries: Seq<(String, u64)>, key: Seq<char>)
    requires
        forall|j: int| 0 <= j < entries.len() ==> entries[j].0@ != key,
    ensures
        !assoc_map(entries).contains_key(key),
    decreases entries.len(),
{
    if entries.len() > 0 {
        lemma_assoc_absent(entries.drop_last(), key);
    }
}

/// The entry holding a key, when no later entry holds it, gives the key's
/// value in the denoted mapping.
proof fn lemma_assoc_found(entries: Seq<(String, u64)>, key: Seq<char>, i: int)
    requires
        0 <= i < entries.len(),
        entries[i].0@ == key,
        forall|j: int| i < j < entries.len() ==> entries[j].0@ != key,
    ensures
        assoc_map(entries).contains_key(key),
        assoc_map(entries)[key] == entries[i].1,
    decreases entries.len(),
{
    if i == entries.len() - 1 {
    } else {
        lemma_assoc_found(entries.drop_last(), key, i);
    }
}

/// Replacing the entry that holds a key updates the denoted mapping at that
/// key and keeps the keys distinct.
proof fn lemma_assoc_update(entries: Seq<(String, u64)>, i: int, key: String, off: u64)
    requires
        keys_unique(entries),
        0 <= i < entries.len(),
        entries[i].0@ == key@,
    ensures
        keys_unique(entries.update(i, (key, off))),
        assoc_map(entries.update(i, (key, off))) == assoc_map(entries).insert(key@, off),
    decreases entries.len(),
{
    let e2 = entries.update(i, (key, off));
    assert(keys_unique(e2));
    if i == entries.len() - 1 {
        assert(e2.drop_last() =~= entries.drop_last());
        assert(assoc_map(e2) == assoc_map(entries.drop_last()).insert(key@, off));
        assert(assoc_map(entries).insert(key@, off) =~= assoc_map(entries.drop_last()).insert(
            key@,
            off,
        ));
    } else {
        assert(e2.drop_last() =~= entries.drop_last().update(i, (key, off)));
        lemma_assoc_update(entries.drop_last(), i, key, off);
        let last = entries.last();
        assert(e2.last() == last);
        assert(assoc_map(e2) == assoc_map(entries.drop_last()).insert(key@, off).insert(
            last.0@,
            last.1,
        ));
        assert(last.0@ != key@);
        assert(assoc_map(entries.drop_last()).insert(key@, off).insert(last.0@, last.1)
            =~= assoc_map(entries.drop_last()).insert(last.0@, last.1).insert(key@, off));
    }
}

/// Looks a key up in the index.
pub(crate) fn index_find(entries: &Vec<(String, u64)>, key: &String) -> (r: Option<u64>)
    ensures
        match r {
            Some(off) => assoc_map(entries@).contains_key(key@) && assoc_map(entries@)[key@]
                == off,
            None => !assoc_map(entries@).contains_key(key@),
        },
{
    let n = entries.len();
    let mut i = n;
    while i > 0
        invariant
            i <= n,
            n == entries@.len(),
            forall|j: int| i <= j < entries@.len() ==> entries@[j].0@ != key@,
        decreases i,
    {
        i = i - 1;
        if entries[i].0 == *key {
            proof {
                lemma_assoc_found(entries@, key@, i as int);
            }
            return Some(entries[i].1);
        }
    }
    proof {
        lemma_assoc_absent(entries@, key@);
    }
    None
}

/// Binds a key to an offset in the index, overwriting the key's entry if it
/// has one.
pub(crate) fn index_put(entries: &mut Vec<(String, u64)>, key: String, off: u64)
    requires
        keys_unique(old(entries)@),
    ensures
        keys_unique(final(entries)@),
        assoc_map(final(entries)@) == assoc_map(old(entries)@).insert(key@, off),
{
    let n = entries.len();
    let mut i: usize = 0;
    while i < n
        invariant
            i <= n,
            n == entries@.len(),
            entries@ == old(entries)@,
            keys_unique(entries@),
            forall|j: int| 0 <= j < i ==> entries@[j].0@ != key@,
        decreases n - i,
    {
        if entries[i].0 == key {
            proof {
                lemma_assoc_update(entries@, i as int, key, off);
            }
            entries[i] = (key.clone(), off);
            return ;
        }
        i = i + 1;
    }
    proof {
        lemma_assoc_absent(entries@, key@);
    }
    entries.push((key, off));
    proof {
        assert(entries@.drop_last() =~= old(entries)@);
    }
}

} // verus!
