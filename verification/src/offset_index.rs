//! The in-memory index: a mapping from key bytes to the offset of the
//! latest record for that key.
//!
//! The index is a derived cache over the log: it holds nothing that a replay
//! of the log cannot rebuild.  It is kept as a list of entries with pairwise
//! distinct keys and viewed as a `Map` from key bytes to offset.

use vstd::prelude::*;

verus! {

use crate::codec::bytes_eq;
use vstd::slice::slice_to_vec;

/// A mapping from key bytes to the file offset of the latest record for
/// that key.
pub struct OffsetIndex {
    entries: Vec<(Vec<u8>, u64)>,
}

/// The map that a list of entries stands for; a later entry for the same
/// key overrides an earlier one.
spec fn map_of(s: Seq<(Vec<u8>, u64)>) -> Map<Seq<u8>, u64>
    decreases s.len(),
{
    if s.len() == 0 {
        Map::empty()
    } else {
        map_of(s.drop_last()).insert(s.last().0@, s.last().1)
    }
}

/// The keys of a list of entries are pairwise distinct.
spec fn distinct_keys(s: Seq<(Vec<u8>, u64)>) -> bool {
    forall|i: int, j: int| 0 <= i < j < s.len() ==> s[i].0@ != s[j].0@
}

/// A key that occurs in no entry is not in the map.
proof fn lemma_map_of_absent(s: Seq<(Vec<u8>, u64)>, k: Seq<u8>)
    requires
        forall|j: int| 0 <= j < s.len() ==> s[j].0@ != k,
    ensures
        !map_of(s).contains_key(k),
    decreases s.len(),
{
    if s.len() > 0 {
        lemma_map_of_absent(s.drop_last(), k);
    }
}

/// An entry after which its key never occurs again gives that key's value
/// in the map.
proof fn lemma_map_of_found(s: Seq<(Vec<u8>, u64)>, i: int)
    requires
        0 <= i < s.len(),
        forall|j: int| i < j < s.len() ==> s[j].0@ != s[i].0@,
    ensures
        map_of(s).contains_key(s[i].0@),
        map_of(s)[s[i].0@] == s[i].1,
    decreases s.len(),
{
    if i + 1 < s.len() {
        lemma_map_of_found(s.drop_last(), i);
    }
}

/// Removing the entry at `i` removes exactly its key from the map, when the
/// keys are pairwise distinct.
proof fn lemma_map_of_remove(s: Seq<(Vec<u8>, u64)>, i: int)
    requires
        0 <= i < s.len(),
        distinct_keys(s),
    ensures
        distinct_keys(s.remove(i)),
        map_of(s.remove(i)) == map_of(s).remove(s[i].0@),
    decreases s.len(),
{
    let k = s[i].0@;
    if i == s.len() - 1 {
        assert(s.remove(i) =~= s.drop_last());
        lemma_map_of_absent(s.drop_last(), k);
        assert(map_of(s.drop_last()) =~= map_of(s.drop_last()).insert(k, s[i].1).remove(k));
    } else {
        lemma_map_of_remove(s.drop_last(), i);
        assert(s.remove(i).drop_last() =~= s.drop_last().remove(i));
        assert(s.remove(i).last() == s.last());
        assert(map_of(s.remove(i)) == map_of(s.drop_last().remove(i)).insert(
            s.last().0@,
            s.last().1,
        ));
        assert(map_of(s.drop_last()).remove(k).insert(s.last().0@, s.last().1) =~= map_of(
            s.drop_last(),
        ).insert(s.last().0@, s.last().1).remove(k));
    }
}

impl View for OffsetIndex {
    type V = Map<Seq<u8>, u64>;

    closed spec fn view(&self) -> Map<Seq<u8>, u64> {
        map_of(self.entries@)
    }
}

impl OffsetIndex {
    /// The entries hold pairwise distinct keys, as a map of key to one
    /// offset demands.
    pub closed spec fn wf(&self) -> bool {
        distinct_keys(self.entries@)
    }

    /// An empty index.
    pub fn new() -> (r: Self)
        ensures
            r.wf(),
            r@ == Map::<Seq<u8>, u64>::empty(),
    {
        OffsetIndex { entries: Vec::new() }
    }

    /// The position of the entry for `key`, if the index holds one.
    fn find_idx(&self, key: &[u8]) -> (r: Option<usize>)
        ensures
            match r {
                Some(i) => i < self.entries@.len() && self.entries@[i as int].0@ == key@,
                None => forall|j: int| 0 <= j < self.entries@.len() ==> self.entries@[j].0@ != key@,
            },
    {
        let mut i: usize = 0;
        while i < self.entries.len()
            invariant
                i <= self.entries@.len(),
                forall|j: int| 0 <= j < i ==> self.entries@[j].0@ != key@,
            decreases self.entries@.len() - i,
        {
            if bytes_eq(self.entries[i].0.as_slice(), key) {
                return Some(i);
            }
            i = i + 1;
        }
        None
    }

    /// The offset recorded for `key`, if any.
    pub fn get(&self, key: &[u8]) -> (r: Option<u64>)
        requires
            self.wf(),
        ensures
            self@.contains_key(key@) ==> r == Some(self@[key@]),
            !self@.contains_key(key@) ==> r is None,
    {
        match self.find_idx(key) {
            Some(i) => {
                proof {
                    lemma_map_of_found(self.entries@, i as int);
                }
                Some(self.entries[i].1)
            },
            None => {
                proof {
                    lemma_map_of_absent(self.entries@, key@);
                }
                None
            },
        }
    }

    /// Record `offset` for `key`, overriding any earlier entry for it.
    pub fn insert(&mut self, key: &[u8], offset: u64)
        requires
            old(self).wf(),
        ensures
            final(self).wf(),
            final(self)@ == old(self)@.insert(key@, offset),
    {
        let ghost m0 = self@;
        match self.find_idx(key) {
            Some(i) => {
                proof {
                    lemma_map_of_remove(self.entries@, i as int);
                    let s = self.entries@;
                    assert forall|j: int| 0 <= j < s.remove(i as int).len() implies s.remove(
                        i as int,
                    )[j].0@ != key@ by {
                        if j < i as int {
                            assert(s.remove(i as int)[j] == s[j]);
                        } else {
                            assert(s.remove(i as int)[j] == s[j + 1]);
                        }
                    }
                }
                self.entries.remove(i);
            },
            None => {
            },
        }
        let ghost s1 = self.entries@;
        proof {
            lemma_map_of_absent(s1, key@);
        }
        self.entries.push((slice_to_vec(key), offset));
        proof {
            assert forall|a: int, b: int|
                0 <= a < b < self.entries@.len() implies self.entries@[a].0@
                != self.entries@[b].0@ by {
                if b < s1.len() {
                    assert(self.entries@[a] == s1[a] && self.entries@[b] == s1[b]);
                } else {
                    assert(self.entries@[a] == s1[a] && self.entries@[b].0@ == key@);
                }
            }
            assert(self.entries@.drop_last() =~= s1);
            assert(self@ =~= m0.insert(key@, offset));
        }
    }

    /// Drop the entry for `key`, if the index holds one.
    pub fn remove(&mut self, key: &[u8])
        requires
            old(self).wf(),
        ensures
            final(self).wf(),
            final(self)@ == old(self)@.remove(key@),
    {
        match self.find_idx(key) {
            Some(i) => {
                proof {
                    lemma_map_of_remove(self.entries@, i as int);
                }
                self.entries.remove(i);
            },
            None => {
                proof {
                    lemma_map_of_absent(self.entries@, key@);
                    assert(self@ =~= self@.remove(key@));
                }
            },
        }
    }

    /// The entries as key and offset pairs, for a caller that wants to walk
    /// or serialize the whole index.
    pub fn pairs(&self) -> (r: Vec<(Vec<u8>, u64)>)
        requires
            self.wf(),
        ensures
            forall|i: int, j: int| 0 <= i < j < r@.len() ==> r@[i].0@ != r@[j].0@,
            forall|i: int|
                0 <= i < r@.len() ==> self@.contains_key(#[trigger] r@[i].0@) && self@[r@[i].0@]
                    == r@[i].1,
            forall|k: Seq<u8>|
                self@.contains_key(k) ==> exists|i: int| 0 <= i < r@.len() && #[trigger] r@[i].0@
                    == k,
    {
        let mut r: Vec<(Vec<u8>, u64)> = Vec::new();
        let mut i: usize = 0;
        while i < self.entries.len()
            invariant
                self.wf(),
                i <= self.entries@.len(),
                r@.len() == i,
                forall|j: int| 0 <= j < i ==> r@[j].0@ == self.entries@[j].0@ && r@[j].1
                    == self.entries@[j].1,
            decreases self.entries@.len() - i,
        {
            let k = slice_to_vec(self.entries[i].0.as_slice());
            let off = self.entries[i].1;
            r.push((k, off));
            i = i + 1;
        }
        proof {
            assert forall|i_: int|
                0 <= i_ < r@.len() implies self@.contains_key(#[trigger] r@[i_].0@) && self@[r@[i_].0@]
                == r@[i_].1 by {
                lemma_map_of_found(self.entries@, i_);
            }
            assert forall|k: Seq<u8>| self@.contains_key(k) implies exists|i_: int|
                0 <= i_ < r@.len() && #[trigger] r@[i_].0@ == k by {
                if exists|j: int| 0 <= j < self.entries@.len() && self.entries@[j].0@ == k {
                    let j = choose|j: int|
                        0 <= j < self.entries@.len() && self.entries@[j].0@ == k;
                    assert(r@[j].0@ == k);
                } else {
                    lemma_map_of_absent(self.entries@, k);
                    assert(false);
                }
            }
        }
        r
    }
}

} // verus!
