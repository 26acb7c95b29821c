//! The running statistic kept per key: its mathematical model is the
//! multiset of observed measurements, and the executable struct carries
//! that multiset as ghost state beside the four machine words.

use vstd::prelude::*;
use vstd::multiset::Multiset;
use crate::arith::{round_div, round_div_signed};

verus! {

broadcast use vstd::multiset::group_multiset_axioms;

/// The aggregate of a multiset of measurements, as mathematical integers.
pub struct StatsView {
    pub count: int,
    pub total: int,
    pub low: int,
    pub high: int,
}

/// Fold one more measurement into an aggregate.
pub open spec fn stats_step(sv: StatsView, v: int) -> StatsView {
    StatsView {
        count: sv.count + 1,
        total: sv.total + v,
        low: if sv.count == 0 || v < sv.low {
            v
        } else {
            sv.low
        },
        high: if sv.count == 0 || v > sv.high {
            v
        } else {
            sv.high
        },
    }
}

pub open spec fn stats_empty() -> StatsView {
    StatsView { count: 0, total: 0, low: 0, high: 0 }
}

/// The aggregate of a whole multiset, folded one element at a time. The
/// fuel equals the size, so the recursion is structural.
pub open spec fn stats_of_rec(m: Multiset<int>, fuel: nat) -> StatsView
    decreases fuel,
{
    if fuel == 0 || m.len() == 0 {
        stats_empty()
    } else {
        let v = m.choose();
        stats_step(stats_of_rec(m.remove(v), (fuel - 1) as nat), v)
    }
}

/// Count, sum, minimum and maximum of a multiset of measurements.
pub open spec fn stats_of(m: Multiset<int>) -> StatsView {
    stats_of_rec(m, m.len())
}

/// The mean the writer renders: the sum over the count, rounded to the
/// nearest micro unit, ties away from zero.
pub open spec fn mean_spec(sv: StatsView) -> int
    recommends
        sv.count >= 1,
{
    round_div_signed(sv.total, sv.count)
}

pub proof fn lemma_remove_len(m: Multiset<int>, v: int)
    requires
        m.contains(v),
    ensures
        m.remove(v).len() == m.len() - 1,
{
    assert(Multiset::singleton(v).subset_of(m)) by {
        assert(forall|x: int| Multiset::singleton(v).count(x) <= m.count(x));
    }
}

/// Folding order does not matter: any contained element may be taken out
/// first.
pub proof fn lemma_stats_remove(m: Multiset<int>, x: int)
    requires
        m.contains(x),
    ensures
        stats_of(m) == stats_step(stats_of(m.remove(x)), x),
    decreases m.len(),
{
    lemma_remove_len(m, x);
    let c = m.choose();
    assert(m.len() > 0);
    lemma_remove_len(m, c);
    assert(stats_of(m) == stats_step(stats_of(m.remove(c)), c));
    if c == x {
    } else {
        let m1 = m.remove(c);
        assert(m1.contains(x));
        lemma_stats_remove(m1, x);
        let mx = m.remove(x);
        assert(mx.contains(c));
        lemma_stats_remove(mx, c);
        assert(mx.remove(c) =~= m1.remove(x));
        let s0 = stats_of(m1.remove(x));
        lemma_stats_of_props(m1.remove(x));
        assert(s0.count >= 0);
        assert(stats_of(m) == stats_step(stats_step(s0, x), c));
        assert(stats_step(stats_of(mx), x) == stats_step(stats_step(s0, c), x));
        assert(stats_step(stats_step(s0, x), c) == stats_step(stats_step(s0, c), x));
    }
}

/// Adding one measurement steps the aggregate.
pub proof fn lemma_stats_insert(m: Multiset<int>, x: int)
    ensures
        stats_of(m.insert(x)) == stats_step(stats_of(m), x),
{
    assert(m.insert(x).contains(x));
    lemma_stats_remove(m.insert(x), x);
    assert(m.insert(x).remove(x) =~= m);
}

/// What the aggregate of a nonempty multiset says: the count is the size,
/// the minimum and maximum are attained, and every element lies between
/// them.
pub proof fn lemma_stats_of_props(m: Multiset<int>)
    ensures
        stats_of(m).count == m.len(),
        m.len() > 0 ==> m.contains(stats_of(m).low) && m.contains(stats_of(m).high),
        forall|v: int| m.contains(v) ==> stats_of(m).low <= v <= stats_of(m).high,
    decreases m.len(),
{
    if m.len() == 0 {
        assert(forall|v: int| !m.contains(v));
    } else {
        let c = m.choose();
        lemma_remove_len(m, c);
        let m1 = m.remove(c);
        lemma_stats_of_props(m1);
        assert(stats_of(m) == stats_step(stats_of(m1), c));
        assert forall|v: int| m.contains(v) implies stats_of(m).low <= v <= stats_of(m).high by {
            if v != c && m1.contains(v) {
            } else {
                assert(m1.count(v) == m.count(v) - if v == c {
                    1int
                } else {
                    0int
                });
            }
        }
        if m1.len() > 0 {
            assert(m.count(stats_of(m1).low) >= m1.count(stats_of(m1).low));
            assert(m.count(stats_of(m1).high) >= m1.count(stats_of(m1).high));
        }
    }
}

/// Bounded elements give a bounded sum.
pub proof fn lemma_stats_of_bounds(m: Multiset<int>, b: int)
    requires
        b >= 0,
        forall|v: int| m.contains(v) ==> -b <= v <= b,
    ensures
        -b * m.len() <= stats_of(m).total <= b * m.len(),
    decreases m.len(),
{
    if m.len() == 0 {
    } else {
        let c = m.choose();
        lemma_remove_len(m, c);
        let m1 = m.remove(c);
        assert(forall|v: int| m1.contains(v) ==> m.contains(v));
        lemma_stats_of_bounds(m1, b);
        assert(stats_of(m) == stats_step(stats_of(m1), c)) by {
            lemma_stats_remove(m, c);
        }
        assert(m.contains(c));
        let n1 = m1.len() as int;
        assert(-b * n1 <= stats_of(m1).total <= b * n1);
        assert(b * (n1 + 1) == b * n1 + b && -b * (n1 + 1) == -b * n1 - b) by (nonlinear_arith);
    }
}

/// The running statistic for one key: exact fixed-point integers, with
/// the multiset of observations carried as ghost state.
pub struct RunningStats {
    pub low: i64,
    pub high: i64,
    pub count: u64,
    pub sum: i128,
    pub seen: Ghost<Multiset<int>>,
}

impl RunningStats {
    /// The observations this statistic has folded in.
    pub open spec fn obs(self) -> Multiset<int> {
        self.seen@
    }

    /// The machine words agree with the aggregate of the observations,
    /// there is at least one, and each fits the measurement range.
    pub open spec fn wf(self) -> bool {
        let sv = stats_of(self.obs());
        &&& self.obs().len() >= 1
        &&& self.count as int == sv.count
        &&& self.sum as int == sv.total
        &&& self.low as int == sv.low
        &&& self.high as int == sv.high
        &&& forall|v: int| self.obs().contains(v) ==> -i64::MAX <= v <= i64::MAX
    }

    /// The statistic created on the first observation of a key.
    pub fn new_first(v: i64) -> (r: RunningStats)
        requires
            v > i64::MIN,
        ensures
            r.wf(),
            r.obs() == Multiset::<int>::empty().insert(v as int),
    {
        proof {
            lemma_stats_insert(Multiset::<int>::empty(), v as int);
            assert(stats_of(Multiset::<int>::empty()) == stats_empty());
            assert forall|w: int|
                Multiset::<int>::empty().insert(v as int).contains(w) implies -i64::MAX <= w
                <= i64::MAX by {
                assert(w == v as int);
            }
        }
        RunningStats {
            low: v,
            high: v,
            count: 1,
            sum: v as i128,
            seen: Ghost(Multiset::empty().insert(v as int)),
        }
    }

    /// Fold one more observation of the same key into the statistic.
    pub fn update(&mut self, v: i64)
        requires
            old(self).wf(),
            v > i64::MIN,
            old(self).count < u64::MAX,
        ensures
            final(self).wf(),
            final(self).obs() == old(self).obs().insert(v as int),
    {
        proof {
            lemma_stats_insert(self.obs(), v as int);
            lemma_stats_of_props(self.obs());
            lemma_stats_of_bounds(self.obs(), i64::MAX as int);
            assert((self.count as int) * (i64::MAX as int) <= (u64::MAX as int - 1) * (
            i64::MAX as int)) by (nonlinear_arith)
                requires
                    self.count as int <= u64::MAX as int - 1,
            ;
            assert forall|w: int|
                self.obs().insert(v as int).contains(w) implies -i64::MAX <= w <= i64::MAX by {
                if w != v as int {
                    assert(Multiset::singleton(v as int).count(w) == 0);
                    assert(self.obs().insert(v as int).count(w) == self.obs().count(w)
                        + Multiset::singleton(v as int).count(w));
                    assert(self.obs().contains(w));
                }
            }
        }
        if v < self.low {
            self.low = v;
        }
        if v > self.high {
            self.high = v;
        }
        self.count = self.count + 1;
        self.sum = self.sum + (v as i128);
        proof {
            self.seen = Ghost(self.seen@.insert(v as int));
        }
    }

    /// The mean measurement, rounded to the nearest micro unit, ties away
    /// from zero.
    pub fn mean(&self) -> (r: i64)
        requires
            self.wf(),
        ensures
            r as int == mean_spec(stats_of(self.obs())),
    {
        proof {
            lemma_stats_of_props(self.obs());
            lemma_stats_of_bounds(self.obs(), i64::MAX as int);
        }
        if self.count == 0 {
            // Defensive guard: a zero-count statistic never exists (the
            // invariant forbids it), but a division by zero must not be
            // reachable even in principle.
            return 0;
        }
        let cnt = self.count as u128;
        let neg = self.sum < 0;
        let mag: u128 = if self.sum < 0 {
            (-self.sum) as u128
        } else {
            self.sum as u128
        };
        proof {
            crate::arith::lemma_round_div_le(mag as int, cnt as int, i64::MAX as int);
        }
        let q = mag / cnt;
        let rr = mag % cnt;
        let m = q + (if 2 * rr >= cnt {
            1
        } else {
            0
        });
        proof {
            assert(m as int == round_div(mag as int, cnt as int));
        }
        if neg {
            -(m as i64)
        } else {
            m as i64
        }
    }
}

} // verus!
