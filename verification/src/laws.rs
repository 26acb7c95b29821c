//! The laws the pipeline obeys, stated over its models and proved once
//! and for all.

use vstd::prelude::*;
use vstd::multiset::Multiset;
use crate::arith::round_div_signed;
use crate::parse::line_record;
use crate::pipeline::{records_of, split_lines};
use crate::render::line_out;
use crate::stats::{
    lemma_stats_insert, lemma_stats_of_props, mean_spec, stats_of, stats_step, StatsView,
};
use crate::table::obs_fold;

verus! {

broadcast use vstd::multiset::group_multiset_axioms;

/// For a key observed at least once, the aggregate is exactly that of its
/// observation multiset: the count is the number of observations, the
/// minimum and maximum are observations and bound all others, and the
/// mean is the sum over the count, rounded to the nearest micro unit.
pub proof fn lemma_stats_follow_observations(m: Multiset<int>)
    requires
        m.len() >= 1,
    ensures
        stats_of(m).count == m.len(),
        m.contains(stats_of(m).low),
        m.contains(stats_of(m).high),
        forall|v: int| m.contains(v) ==> stats_of(m).low <= v <= stats_of(m).high,
        mean_spec(stats_of(m)) == round_div_signed(stats_of(m).total, m.len() as int),
{
    lemma_stats_of_props(m);
}

/// A key observed exactly once has mean, minimum and maximum all equal to
/// that one measurement, exactly.
pub proof fn lemma_single_observation(v: int)
    ensures
        stats_of(Multiset::<int>::empty().insert(v)) == (StatsView {
            count: 1,
            total: v,
            low: v,
            high: v,
        }),
        mean_spec(stats_of(Multiset::<int>::empty().insert(v))) == v,
{
    lemma_stats_insert(Multiset::<int>::empty(), v);
    if v >= 0 {
        crate::arith::lemma_round_div_one(v);
    } else {
        crate::arith::lemma_round_div_one(-v);
    }
}

/// A malformed line contributes nothing: the record sequence, and with it
/// the whole model, is that of the input without the line.
pub proof fn lemma_malformed_line_ignored(lines: Seq<Seq<u8>>, i: int)
    requires
        0 <= i < lines.len(),
        line_record(lines[i]) is None,
    ensures
        records_of(lines) == records_of(lines.remove(i)),
    decreases lines.len(),
{
    if i == lines.len() - 1 {
        assert(lines.remove(i) =~= lines.drop_last());
    } else {
        assert(lines.remove(i).drop_last() =~= lines.drop_last().remove(i));
        assert(lines.remove(i).last() == lines.last());
        assert(lines.drop_last()[i] == lines[i]);
        lemma_malformed_line_ignored(lines.drop_last(), i);
    }
}

/// Every key of the model is the key of some record: malformed lines
/// never appear as keys.
pub proof fn lemma_keys_from_records(rs: Seq<(Seq<u8>, int)>)
    ensures
        forall|k: Seq<u8>| #[trigger] obs_fold(rs).contains_key(k) ==> exists|i: int|
            0 <= i < rs.len() && rs[i].0 == k,
    decreases rs.len(),
{
    if rs.len() > 0 {
        lemma_keys_from_records(rs.drop_last());
        assert forall|k: Seq<u8>| #[trigger] obs_fold(rs).contains_key(k) implies exists|i: int|
            0 <= i < rs.len() && rs[i].0 == k by {
            if k == rs.last().0 {
                assert(rs[rs.len() - 1].0 == k);
            } else {
                assert(obs_fold(rs.drop_last()).contains_key(k));
                let i = choose|i: int| 0 <= i < rs.drop_last().len() && rs.drop_last()[i].0 == k;
                assert(rs[i].0 == k);
            }
        }
    }
}

/// What one line contributes to the observations of key `k`.
pub open spec fn add_contrib(m: Multiset<int>, l: Seq<u8>, k: Seq<u8>) -> Multiset<int> {
    match line_record(l) {
        Some(r) => if r.0 == k {
            m.insert(r.1)
        } else {
            m
        },
        None => m,
    }
}

/// The observations of key `k` among a multiset of lines, folded one line
/// at a time with fuel equal to the size.
pub open spec fn key_obs_rec(lm: Multiset<Seq<u8>>, k: Seq<u8>, fuel: nat) -> Multiset<int>
    decreases fuel,
{
    if fuel == 0 || lm.len() == 0 {
        Multiset::empty()
    } else {
        let l = lm.choose();
        add_contrib(key_obs_rec(lm.remove(l), k, (fuel - 1) as nat), l, k)
    }
}

/// The observations of key `k` in an unordered collection of lines.
pub open spec fn key_obs(lm: Multiset<Seq<u8>>, k: Seq<u8>) -> Multiset<int> {
    key_obs_rec(lm, k, lm.len())
}

proof fn lemma_line_remove_len(lm: Multiset<Seq<u8>>, l: Seq<u8>)
    requires
        lm.contains(l),
    ensures
        lm.remove(l).len() == lm.len() - 1,
{
    assert(Multiset::singleton(l).subset_of(lm)) by {
        assert(forall|x: Seq<u8>| Multiset::singleton(l).count(x) <= lm.count(x));
    }
}

proof fn lemma_add_contrib_comm(m: Multiset<int>, a: Seq<u8>, b: Seq<u8>, k: Seq<u8>)
    ensures
        add_contrib(add_contrib(m, a, k), b, k) == add_contrib(add_contrib(m, b, k), a, k),
{
    match (line_record(a), line_record(b)) {
        (Some(ra), Some(rb)) => {
            if ra.0 == k && rb.0 == k {
                assert(m.insert(ra.1).insert(rb.1) =~= m.insert(rb.1).insert(ra.1));
            }
        },
        _ => {},
    }
}

/// Any contained line may be folded out first.
proof fn lemma_key_obs_remove(lm: Multiset<Seq<u8>>, k: Seq<u8>, l: Seq<u8>)
    requires
        lm.contains(l),
    ensures
        key_obs(lm, k) == add_contrib(key_obs(lm.remove(l), k), l, k),
    decreases lm.len(),
{
    lemma_line_remove_len(lm, l);
    let c = lm.choose();
    assert(lm.len() > 0);
    lemma_line_remove_len(lm, c);
    assert(key_obs(lm, k) == add_contrib(key_obs(lm.remove(c), k), c, k));
    if c == l {
    } else {
        let m1 = lm.remove(c);
        assert(m1.contains(l));
        lemma_key_obs_remove(m1, k, l);
        let mx = lm.remove(l);
        assert(mx.contains(c));
        lemma_key_obs_remove(mx, k, c);
        assert(mx.remove(c) =~= m1.remove(l));
        let s0 = key_obs(m1.remove(l), k);
        lemma_add_contrib_comm(s0, l, c, k);
    }
}

/// The observations of each key among a line sequence depend only on the
/// multiset of lines, not their order.
pub proof fn lemma_obs_fold_key(lines: Seq<Seq<u8>>, k: Seq<u8>)
    ensures
        obs_fold(records_of(lines)).contains_key(k) ==> obs_fold(records_of(lines))[k] == key_obs(
            lines.to_multiset(),
            k,
        ),
        obs_fold(records_of(lines)).contains_key(k) <==> key_obs(lines.to_multiset(), k).len()
            > 0,
    decreases lines.len(),
{
    broadcast use vstd::seq_lib::group_to_multiset_ensures;

    if lines.len() == 0 {
        assert(lines.to_multiset().len() == 0);
    } else {
        let l0 = lines.drop_last();
        let l = lines.last();
        lemma_obs_fold_key(l0, k);
        assert(l0.push(l) =~= lines);
        assert(lines.to_multiset() == l0.to_multiset().insert(l));
        assert(lines.to_multiset().contains(l));
        lemma_key_obs_remove(lines.to_multiset(), k, l);
        assert(lines.to_multiset().remove(l) =~= l0.to_multiset());
        assert(key_obs(lines.to_multiset(), k) == add_contrib(key_obs(l0.to_multiset(), k), l, k));
        let rs0 = records_of(l0);
        match line_record(l) {
            Some(r) => {
                assert(records_of(lines) == rs0.push(r));
                assert(rs0.push(r).drop_last() =~= rs0);
                if r.0 == k {
                    if obs_fold(rs0).contains_key(k) {
                        assert(obs_fold(rs0)[k].insert(r.1).len() == obs_fold(rs0)[k].len() + 1);
                    } else {
                        assert(Multiset::<int>::empty().insert(r.1).len() == 1);
                    }
                } else {
                    assert(obs_fold(rs0.push(r)).contains_key(k) <==> obs_fold(
                        rs0,
                    ).contains_key(k));
                }
            },
            None => {
                assert(records_of(lines) == rs0);
            },
        }
    }
}

/// Order independence: two inputs whose lines are the same multiset — one
/// a permutation of the other — have exactly the same model: the same
/// keys, and per key the same observations, hence the same count, sum,
/// minimum, maximum and mean.
pub proof fn lemma_order_independence(l1: Seq<Seq<u8>>, l2: Seq<Seq<u8>>)
    requires
        l1.to_multiset() == l2.to_multiset(),
    ensures
        obs_fold(records_of(l1)) == obs_fold(records_of(l2)),
{
    let m1 = obs_fold(records_of(l1));
    let m2 = obs_fold(records_of(l2));
    assert forall|k: Seq<u8>| #[trigger] m1.contains_key(k) implies m2.contains_key(k) && m1[k]
        == m2[k] by {
        lemma_obs_fold_key(l1, k);
        lemma_obs_fold_key(l2, k);
    }
    assert forall|k: Seq<u8>| #[trigger] m2.contains_key(k) implies m1.contains_key(k) by {
        lemma_obs_fold_key(l1, k);
        lemma_obs_fold_key(l2, k);
    }
    assert(m1 =~= m2);
}

/// The set of lines an input renders to: one `key;mean;min;max` line per
/// key of its model.
pub open spec fn output_line_set(input: Seq<u8>) -> Set<Seq<u8>> {
    let m = obs_fold(records_of(split_lines(input)));
    Set::new(
        |ln: Seq<u8>|
            exists|k: Seq<u8>| #[trigger] m.contains_key(k) && ln == line_out(k, stats_of(m[k])),
    )
}

/// Order independence at the output: two inputs whose lines are the same
/// multiset render to the same set of output lines, whatever order either
/// lists them in.
pub proof fn lemma_order_independence_output(i1: Seq<u8>, i2: Seq<u8>)
    requires
        split_lines(i1).to_multiset() == split_lines(i2).to_multiset(),
    ensures
        output_line_set(i1) == output_line_set(i2),
{
    lemma_order_independence(split_lines(i1), split_lines(i2));
    assert(output_line_set(i1) =~= output_line_set(i2));
}

} // verus!
