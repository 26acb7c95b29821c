//! The aggregation table: one running statistic per distinct key, with a
//! map from key to observation multiset as its model.

use vstd::prelude::*;
use vstd::multiset::Multiset;
use crate::stats::RunningStats;

verus! {

pub struct Entry {
    pub key: Vec<u8>,
    pub stat: RunningStats,
}

pub struct Table {
    pub entries: Vec<Entry>,
}

/// The model a record sequence folds to: per key, the multiset of its
/// measurements.
pub open spec fn obs_fold(rs: Seq<(Seq<u8>, int)>) -> Map<Seq<u8>, Multiset<int>>
    decreases rs.len(),
{
    if rs.len() == 0 {
        Map::empty()
    } else {
        let prev = obs_fold(rs.drop_last());
        let r = rs.last();
        let prior = if prev.contains_key(r.0) {
            prev[r.0]
        } else {
            Multiset::empty()
        };
        prev.insert(r.0, prior.insert(r.1))
    }
}

/// The keys of a record sequence in order of first occurrence.
pub open spec fn keys_fold(rs: Seq<(Seq<u8>, int)>) -> Seq<Seq<u8>>
    decreases rs.len(),
{
    if rs.len() == 0 {
        Seq::empty()
    } else {
        let prev = keys_fold(rs.drop_last());
        if prev.contains(rs.last().0) {
            prev
        } else {
            prev.push(rs.last().0)
        }
    }
}

impl Table {
    pub open spec fn key_at(self, i: int) -> Seq<u8> {
        self.entries@[i].key@
    }

    /// The table's keys, in insertion order.
    pub open spec fn keys(self) -> Seq<Seq<u8>> {
        Seq::new(self.entries@.len(), |i: int| self.key_at(i))
    }

    pub open spec fn has_key(self, k: Seq<u8>) -> bool {
        exists|i: int| 0 <= i < self.entries@.len() && self.key_at(i) == k
    }

    pub open spec fn index_of(self, k: Seq<u8>) -> int {
        choose|i: int| 0 <= i < self.entries@.len() && self.key_at(i) == k
    }

    /// Keys are distinct and every statistic is well formed.
    pub open spec fn wf(self) -> bool {
        &&& forall|i: int, j: int|
            0 <= i < j < self.entries@.len() ==> self.key_at(i) != self.key_at(j)
        &&& forall|i: int| 0 <= i < self.entries@.len() ==> (#[trigger] self.entries@[i]).stat.wf()
    }

    /// Per key, the multiset of measurements folded in so far.
    pub open spec fn obs_map(self) -> Map<Seq<u8>, Multiset<int>> {
        Map::new(|k: Seq<u8>| self.has_key(k), |k: Seq<u8>| self.entries@[self.index_of(k)].stat.obs())
    }

    pub proof fn lemma_index_of(self, i: int)
        requires
            self.wf(),
            0 <= i < self.entries@.len(),
        ensures
            self.index_of(self.key_at(i)) == i,
            self.has_key(self.key_at(i)),
            self.obs_map()[self.key_at(i)] == self.entries@[i].stat.obs(),
    {
        let k = self.key_at(i);
        assert(self.has_key(k));
        let j = self.index_of(k);
        if j != i {
            if j < i {
                assert(self.key_at(j) != self.key_at(i));
            } else {
                assert(self.key_at(i) != self.key_at(j));
            }
        }
    }

    pub fn new() -> (r: Table)
        ensures
            r.wf(),
            r.obs_map() == Map::<Seq<u8>, Multiset<int>>::empty(),
            r.keys() == Seq::<Seq<u8>>::empty(),
            r.entries@.len() == 0,
    {
        let t = Table { entries: Vec::new() };
        proof {
            assert(t.obs_map() =~= Map::<Seq<u8>, Multiset<int>>::empty());
            assert(t.keys() =~= Seq::<Seq<u8>>::empty());
        }
        t
    }

    /// Find the entry holding `key`, if any.
    fn find(&self, key: &[u8]) -> (r: Option<usize>)
        requires
            self.wf(),
        ensures
            match r {
                Some(i) => i < self.entries@.len() && self.key_at(i as int) == key@,
                None => !self.has_key(key@),
            },
    {
        let n = self.entries.len();
        let mut i: usize = 0;
        while i < n
            invariant
                i <= n == self.entries@.len(),
                forall|j: int| 0 <= j < i ==> self.key_at(j) != key@,
            decreases n - i,
        {
            if bytes_eq(self.entries[i].key.as_slice(), key) {
                return Some(i);
            }
            i = i + 1;
        }
        None
    }

    /// Fold one accepted record into the table: update the key's running
    /// statistic in place, or create it on the key's first observation.
    pub fn upsert(&mut self, key: &[u8], v: i64)
        requires
            old(self).wf(),
            v > i64::MIN,
            old(self).has_key(key@) ==> old(self).obs_map()[key@].len() < u64::MAX,
        ensures
            final(self).wf(),
            final(self).obs_map() == old(self).obs_map().insert(
                key@,
                (if old(self).has_key(key@) {
                    old(self).obs_map()[key@]
                } else {
                    Multiset::<int>::empty()
                }).insert(v as int),
            ),
            final(self).keys() == (if old(self).has_key(key@) {
                old(self).keys()
            } else {
                old(self).keys().push(key@)
            }),
    {
        let ghost told = *self;
        match self.find(key) {
            Some(i) => {
                proof {
                    told.lemma_index_of(i as int);
                    crate::stats::lemma_stats_of_props(told.entries@[i as int].stat.obs());
                }
                self.entries[i].stat.update(v);
                proof {
                    assert(self.entries@ =~= told.entries@.update(
                        i as int,
                        self.entries@[i as int],
                    ));
                    assert(self.entries@[i as int].key@ == told.entries@[i as int].key@);
                    assert forall|j: int| 0 <= j < self.entries@.len() implies self.key_at(j)
                        == told.key_at(j) by {}
                    assert(self.keys() =~= told.keys());
                    assert(self.wf()) by {
                        assert forall|a: int, b: int|
                            0 <= a < b < self.entries@.len() implies self.key_at(a)
                            != self.key_at(b) by {
                            assert(self.key_at(a) == told.key_at(a));
                            assert(self.key_at(b) == told.key_at(b));
                        }
                        assert forall|j: int|
                            0 <= j < self.entries@.len() implies (#[trigger] self.entries@[j]).stat.wf() by {
                            if j != i as int {
                                assert(self.entries@[j] == told.entries@[j]);
                            }
                        }
                    }
                    assert forall|k: Seq<u8>| #[trigger] self.has_key(k) implies told.has_key(
                        k,
                    ) by {
                        let j = choose|j: int|
                            0 <= j < self.entries@.len() && self.key_at(j) == k;
                        assert(told.key_at(j) == k);
                    }
                    assert forall|k: Seq<u8>| #[trigger] told.has_key(k) implies self.has_key(
                        k,
                    ) by {
                        let j = told.index_of(k);
                        told.lemma_index_of(j);
                        assert(self.key_at(j) == k);
                    }
                    assert forall|k: Seq<u8>| #[trigger]
                        told.has_key(k) implies self.obs_map()[k] == told.obs_map().insert(
                        key@,
                        told.obs_map()[key@].insert(v as int),
                    )[k] by {
                        let j = told.index_of(k);
                        told.lemma_index_of(j);
                        self.lemma_index_of(j);
                        if k == key@ {
                            assert(j == i as int);
                        }
                    }
                    assert(self.obs_map() =~= told.obs_map().insert(
                        key@,
                        told.obs_map()[key@].insert(v as int),
                    ));
                }
            },
            None => {
                let kv = copy_bytes(key);
                let st = RunningStats::new_first(v);
                self.entries.push(Entry { key: kv, stat: st });
                proof {
                    let n = told.entries@.len() as int;
                    assert(self.entries@.len() == n + 1);
                    assert(self.entries@[n].key@ == key@);
                    assert forall|j: int| 0 <= j < n implies self.key_at(j) == told.key_at(j) by {
                        assert(self.entries@[j] == told.entries@[j]);
                    }
                    assert(self.keys() =~= told.keys().push(key@));
                    assert forall|j: int| 0 <= j < n implies self.key_at(j) != key@ by {
                        if told.key_at(j) == key@ {
                            assert(told.has_key(key@));
                        }
                    }
                    assert(self.wf()) by {
                        assert forall|a: int, b: int|
                            0 <= a < b < self.entries@.len() implies self.key_at(a)
                            != self.key_at(b) by {
                            if b < n {
                                assert(told.key_at(a) != told.key_at(b));
                            }
                        }
                    }
                    assert forall|k: Seq<u8>| #[trigger]
                        self.has_key(k) implies (k == key@ || told.has_key(k)) by {
                        let j = choose|j: int|
                            0 <= j < self.entries@.len() && self.key_at(j) == k;
                        if j < n {
                            assert(told.key_at(j) == k);
                        }
                    }
                    assert forall|k: Seq<u8>| #[trigger]
                        told.has_key(k) implies self.has_key(k) && k != key@ by {
                        let j = told.index_of(k);
                        told.lemma_index_of(j);
                        assert(self.key_at(j) == k);
                    }
                    assert forall|k: Seq<u8>| #[trigger]
                        told.has_key(k) implies self.obs_map()[k] == told.obs_map()[k] by {
                        let j = told.index_of(k);
                        told.lemma_index_of(j);
                        self.lemma_index_of(j);
                    }
                    self.lemma_index_of(n);
                    assert(self.obs_map()[key@] == Multiset::<int>::empty().insert(v as int));
                    assert(self.obs_map() =~= told.obs_map().insert(
                        key@,
                        Multiset::<int>::empty().insert(v as int),
                    ));
                }
            },
        }
    }
}

/// Exact byte-string equality.
pub fn bytes_eq(a: &[u8], b: &[u8]) -> (r: bool)
    ensures
        r == (a@ == b@),
{
    if a.len() != b.len() {
        proof {
            assert(a@ != b@) by {
                if a@ == b@ {
                    assert(a@.len() == b@.len());
                }
            }
        }
        return false;
    }
    let n = a.len();
    let mut i: usize = 0;
    while i < n
        invariant
            i <= n,
            n == a@.len() == b@.len(),
            forall|j: int| 0 <= j < i ==> a@[j] == b@[j],
        decreases n - i,
    {
        if a[i] != b[i] {
            return false;
        }
        i = i + 1;
    }
    proof {
        assert(a@ =~= b@);
    }
    true
}

/// Copy a borrowed key into an owned one, for the insert path.
pub fn copy_bytes(a: &[u8]) -> (r: Vec<u8>)
    ensures
        r@ == a@,
{
    let n = a.len();
    let mut out: Vec<u8> = Vec::new();
    let mut i: usize = 0;
    while i < n
        invariant
            i <= n == a@.len(),
            out@ == a@.take(i as int),
        decreases n - i,
    {
        out.push(a[i]);
        proof {
            assert(a@.take(i + 1) =~= a@.take(i as int).push(a@[i as int]));
        }
        i = i + 1;
    }
    proof {
        assert(a@.take(n as int) =~= a@);
    }
    out
}

} // verus!
