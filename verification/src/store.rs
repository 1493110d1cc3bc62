//! The partition store: one shard's slice of the keyspace.
//!
//! A store maps opaque byte keys to entries; keys are compared byte for
//! byte.  Exactly one shard owns a store for the store's whole lifetime and
//! is the only component that reads or mutates it.

use vstd::prelude::*;

use crate::value::Entry;
use crate::value::EntryV;

verus! {

/// The mapping that a run of key-entry slots denotes: later slots win.
pub open spec fn map_of(s: Seq<(Vec<u8>, Entry)>) -> Map<Seq<u8>, EntryV>
    decreases s.len(),
{
    if s.len() == 0 {
        Map::empty()
    } else {
        map_of(s.drop_last()).insert(s.last().0@, s.last().1@)
    }
}

/// No two slots hold the same key.
pub open spec fn keys_unique(s: Seq<(Vec<u8>, Entry)>) -> bool {
    forall|i: int, j: int|
        0 <= i < j < s.len() ==> (#[trigger] s[i]).0@ != (#[trigger] s[j]).0@
}

/// Under unique keys, slot `i`'s key maps to slot `i`'s entry.
proof fn lemma_map_of_index(s: Seq<(Vec<u8>, Entry)>, i: int)
    requires
        keys_unique(s),
        0 <= i < s.len(),
    ensures
        map_of(s).contains_key(s[i].0@),
        map_of(s)[s[i].0@] == s[i].1@,
    decreases s.len(),
{
    if i + 1 < s.len() {
        assert(keys_unique(s.drop_last()));
        assert(s.drop_last()[i] == s[i]);
        lemma_map_of_index(s.drop_last(), i);
        assert(s[i].0@ != s.last().0@);
    }
}

/// A key held by no slot is not in the mapping.
proof fn lemma_map_of_absent(s: Seq<(Vec<u8>, Entry)>, k: Seq<u8>)
    requires
        forall|i: int| 0 <= i < s.len() ==> (#[trigger] s[i]).0@ != k,
    ensures
        !map_of(s).contains_key(k),
    decreases s.len(),
{
    if s.len() > 0 {
        assert(forall|i: int|
            0 <= i < s.drop_last().len() ==> (#[trigger] s.drop_last()[i]).0@ != k);
        lemma_map_of_absent(s.drop_last(), k);
    }
}

/// Removing slot `i` removes exactly its key from the mapping.
proof fn lemma_map_of_remove(s: Seq<(Vec<u8>, Entry)>, i: int)
    requires
        keys_unique(s),
        0 <= i < s.len(),
    ensures
        map_of(s.remove(i)) == map_of(s).remove(s[i].0@),
    decreases s.len(),
{
    if i == s.len() - 1 {
        assert(s.remove(i) =~= s.drop_last());
        assert(forall|j: int|
            0 <= j < s.drop_last().len() ==> (#[trigger] s.drop_last()[j]).0@ != s[i].0@);
        lemma_map_of_absent(s.drop_last(), s[i].0@);
        assert(map_of(s).remove(s[i].0@) =~= map_of(s.drop_last()));
    } else {
        assert(s.remove(i).drop_last() =~= s.drop_last().remove(i));
        assert(s.remove(i).last() == s.last());
        assert(keys_unique(s.drop_last()));
        assert(s.drop_last()[i] == s[i]);
        lemma_map_of_remove(s.drop_last(), i);
        assert(s[i].0@ != s.last().0@);
        assert(map_of(s.remove(i)) =~= map_of(s).remove(s[i].0@));
    }
}

/// Whether two byte vectors hold the same bytes.
pub fn bytes_eq(a: &Vec<u8>, b: &Vec<u8>) -> (r: bool)
    ensures
        r == (a@ == b@),
{
    if a.len() != b.len() {
        return false;
    }
    let mut i: usize = 0;
    while i < a.len()
        invariant
            i <= a@.len(),
            a@.len() == b@.len(),
            forall|j: int| 0 <= j < i ==> a@[j] == b@[j],
        decreases a@.len() - i,
    {
        if a[i] != b[i] {
            return false;
        }
        i = i + 1;
    }
    proof {
        assert(a@ =~= b@);
    }
    true
}

/// One partition's key-to-entry mapping.
///
/// The abstract value of a store is a map from key bytes to entry models;
/// the concrete slots are hidden, and [`Store::wf`] says their keys are
/// unique, which every method preserves.
pub struct Store {
    entries: Vec<(Vec<u8>, Entry)>,
}

impl View for Store {
    type V = Map<Seq<u8>, EntryV>;

    closed spec fn view(&self) -> Map<Seq<u8>, EntryV> {
        map_of(self.entries@)
    }
}

impl Store {
    /// Internal invariant: slot keys are unique.
    pub closed spec fn wf(&self) -> bool {
        keys_unique(self.entries@)
    }

    /// An empty store.
    pub fn new() -> (r: Store)
        ensures
            r@ == Map::<Seq<u8>, EntryV>::empty(),
            r.wf(),
    {
        Store { entries: Vec::new() }
    }

    /// The slot holding `k`, if any.
    fn find(&self, k: &Vec<u8>) -> (r: Option<usize>)
        ensures
            match r {
                Option::None => forall|i: int|
                    0 <= i < self.entries@.len() ==> (#[trigger] self.entries@[i]).0@ != k@,
                Option::Some(i) => i < self.entries@.len() && self.entries@[i as int].0@ == k@,
            },
    {
        let mut i: usize = 0;
        while i < self.entries.len()
            invariant
                i <= self.entries@.len(),
                forall|j: int| 0 <= j < i ==> (#[trigger] self.entries@[j]).0@ != k@,
            decreases self.entries@.len() - i,
        {
            if bytes_eq(&self.entries[i].0, k) {
                return Option::Some(i);
            }
            i = i + 1;
        }
        Option::None
    }

    /// Whether `k` is present (expired or not).
    pub fn contains(&self, k: &Vec<u8>) -> (r: bool)
        requires
            self.wf(),
        ensures
            r == self@.contains_key(k@),
    {
        match self.find(k) {
            Option::Some(i) => {
                proof {
                    lemma_map_of_index(self.entries@, i as int);
                }
                true
            },
            Option::None => {
                proof {
                    lemma_map_of_absent(self.entries@, k@);
                }
                false
            },
        }
    }

    /// The entry under `k`, if any.
    pub fn get(&self, k: &Vec<u8>) -> (r: Option<&Entry>)
        requires
            self.wf(),
        ensures
            match r {
                Option::None => !self@.contains_key(k@),
                Option::Some(e) => self@.contains_key(k@) && e@ == self@[k@],
            },
    {
        match self.find(k) {
            Option::Some(i) => {
                proof {
                    lemma_map_of_index(self.entries@, i as int);
                }
                Option::Some(&self.entries[i].1)
            },
            Option::None => {
                proof {
                    lemma_map_of_absent(self.entries@, k@);
                }
                Option::None
            },
        }
    }

    /// Create or overwrite the entry under `k`.
    pub fn insert(&mut self, k: Vec<u8>, e: Entry)
        requires
            old(self).wf(),
        ensures
            final(self).wf(),
            final(self)@ == old(self)@.insert(k@, e@),
    {
        match self.find(&k) {
            Option::Some(i) => {
                proof {
                    lemma_map_of_remove(self.entries@, i as int);
                }
                let ghost pre: Seq<(Vec<u8>, Entry)> = self.entries@;
                self.entries.remove(i);
                proof {
                    assert(keys_unique(self.entries@)) by {
                        assert(forall|a: int, b: int|
                            0 <= a < b < self.entries@.len() ==> (#[trigger] self.entries@[a]).0@
                                != (#[trigger] self.entries@[b]).0@) by {
                            assert(forall|a: int|
                                0 <= a < self.entries@.len() ==> #[trigger] self.entries@[a]
                                    == if a < i {
                                    pre[a]
                                } else {
                                    pre[a + 1]
                                });
                        }
                    }
                    assert(forall|a: int|
                        0 <= a < self.entries@.len() ==> (#[trigger] self.entries@[a]).0@ != k@);
                }
                let ghost mid: Seq<(Vec<u8>, Entry)> = self.entries@;
                self.entries.push((k, e));
                proof {
                    assert(self.entries@.drop_last() =~= mid);
                    assert(map_of(self.entries@) =~= map_of(pre).insert(
                        self.entries@.last().0@,
                        self.entries@.last().1@,
                    ));
                }
            },
            Option::None => {
                proof {
                    lemma_map_of_absent(self.entries@, k@);
                }
                let ghost pre: Seq<(Vec<u8>, Entry)> = self.entries@;
                self.entries.push((k, e));
                proof {
                    assert(self.entries@.drop_last() =~= pre);
                }
            },
        }
    }

    /// Set the entry's last access time to `now`, leaving all else as it
    /// stands.
    pub fn touch(&mut self, k: &Vec<u8>, now: u64)
        requires
            old(self).wf(),
            old(self)@.contains_key(k@),
        ensures
            final(self).wf(),
            final(self)@ == old(self)@.insert(
                k@,
                (EntryV { last_accessed: now, ..old(self)@[k@] }),
            ),
    {
        match self.find(k) {
            Option::Some(i) => {
                proof {
                    lemma_map_of_index(self.entries@, i as int);
                    lemma_map_of_remove(self.entries@, i as int);
                }
                let ghost pre: Seq<(Vec<u8>, Entry)> = self.entries@;
                let (kk, mut e) = self.entries.remove(i);
                e.last_accessed = now;
                proof {
                    assert(keys_unique(self.entries@)) by {
                        assert(forall|a: int|
                            0 <= a < self.entries@.len() ==> #[trigger] self.entries@[a]
                                == if a < i {
                                pre[a]
                            } else {
                                pre[a + 1]
                            });
                    }
                    assert(forall|a: int|
                        0 <= a < self.entries@.len() ==> (#[trigger] self.entries@[a]).0@ != k@)
                        by {
                        assert(forall|a: int|
                            0 <= a < self.entries@.len() ==> #[trigger] self.entries@[a]
                                == if a < i {
                                pre[a]
                            } else {
                                pre[a + 1]
                            });
                    }
                }
                let ghost mid: Seq<(Vec<u8>, Entry)> = self.entries@;
                self.entries.push((kk, e));
                proof {
                    assert(self.entries@.drop_last() =~= mid);
                    assert(map_of(self.entries@) =~= old(self)@.insert(
                        k@,
                        (EntryV { last_accessed: now, ..old(self)@[k@] }),
                    ));
                }
            },
            Option::None => {
                proof {
                    lemma_map_of_absent(self.entries@, k@);
                }
                // The key is present by precondition, so this slot exists.
                proof {
                    assert(false);
                }
            },
        }
    }
}

} // verus!
