//! The result writer: each key's line is `key;mean;min;max`, every number
//! rendered with exactly six digits after the decimal point.

use vstd::prelude::*;
use vstd::multiset::Multiset;
use crate::stats::{mean_spec, stats_of, StatsView};
use crate::table::Table;

verus! {

/// The decimal digits of `n`, most significant first, no leading zeros.
pub open spec fn dec_digits(n: nat) -> Seq<u8>
    decreases n,
{
    if n < 10 {
        seq![(0x30 + n) as u8]
    } else {
        dec_digits(n / 10).push((0x30 + n % 10) as u8)
    }
}

/// Exactly `k` decimal digits of `n`, zero padded on the left.
pub open spec fn pad_digits(n: nat, k: nat) -> Seq<u8>
    decreases k,
{
    if k == 0 {
        Seq::empty()
    } else {
        pad_digits(n / 10, (k - 1) as nat).push((0x30 + n % 10) as u8)
    }
}

/// A measurement in micro units, rendered as a signed decimal with six
/// digits after the point.
pub open spec fn fmt_micros_spec(m: int) -> Seq<u8> {
    let a = if m < 0 {
        -m
    } else {
        m
    };
    let body = dec_digits((a / 1_000_000) as nat) + seq![0x2eu8] + pad_digits(
        (a % 1_000_000) as nat,
        6,
    );
    if m < 0 {
        seq![0x2du8] + body
    } else {
        body
    }
}

/// One output line: `key;mean;min;max` and a line feed.
pub open spec fn line_out(key: Seq<u8>, sv: StatsView) -> Seq<u8> {
    key + seq![0x3bu8] + fmt_micros_spec(mean_spec(sv)) + seq![0x3bu8] + fmt_micros_spec(sv.low)
        + seq![0x3bu8] + fmt_micros_spec(sv.high) + seq![0x0au8]
}

/// The rendered output: one line per key, in the order given.
pub open spec fn render_spec(keys: Seq<Seq<u8>>, om: Map<Seq<u8>, Multiset<int>>) -> Seq<u8>
    decreases keys.len(),
{
    if keys.len() == 0 {
        Seq::empty()
    } else {
        render_spec(keys.drop_last(), om) + line_out(keys.last(), stats_of(om[keys.last()]))
    }
}

/// Append the decimal digits of `n`.
pub fn push_dec(out: &mut Vec<u8>, n: u64)
    ensures
        final(out)@ == old(out)@ + dec_digits(n as nat),
    decreases n,
{
    if n < 10 {
        out.push(0x30 + (n as u8));
        proof {
            assert(out@ =~= old(out)@ + dec_digits(n as nat));
        }
    } else {
        push_dec(out, n / 10);
        out.push(0x30 + ((n % 10) as u8));
        proof {
            assert(out@ =~= old(out)@ + dec_digits(n as nat));
        }
    }
}

/// Append exactly `k` decimal digits of `n`, zero padded.
pub fn push_pad(out: &mut Vec<u8>, n: u64, k: u32)
    ensures
        final(out)@ == old(out)@ + pad_digits(n as nat, k as nat),
    decreases k,
{
    if k > 0 {
        push_pad(out, n / 10, k - 1);
        out.push(0x30 + ((n % 10) as u8));
        proof {
            assert(out@ =~= old(out)@ + pad_digits(n as nat, k as nat));
        }
    } else {
        proof {
            assert(out@ =~= old(out)@ + pad_digits(n as nat, 0));
        }
    }
}

/// Append one measurement, rendered with six digits after the point.
pub fn push_micros(out: &mut Vec<u8>, m: i64)
    requires
        m > i64::MIN,
    ensures
        final(out)@ == old(out)@ + fmt_micros_spec(m as int),
{
    if m < 0 {
        out.push(0x2d);
    }
    let a: u64 = if m < 0 {
        (-m) as u64
    } else {
        m as u64
    };
    push_dec(out, a / 1_000_000);
    out.push(0x2e);
    push_pad(out, a % 1_000_000, 6);
    proof {
        assert(out@ =~= old(out)@ + fmt_micros_spec(m as int));
    }
}

/// Append a byte string.
pub fn push_bytes(out: &mut Vec<u8>, b: &[u8])
    ensures
        final(out)@ == old(out)@ + b@,
{
    let n = b.len();
    let mut i: usize = 0;
    while i < n
        invariant
            i <= n == b@.len(),
            out@ == old(out)@ + b@.take(i as int),
        decreases n - i,
    {
        out.push(b[i]);
        proof {
            assert(old(out)@ + b@.take(i + 1) =~= (old(out)@ + b@.take(i as int)).push(
                b@[i as int],
            ));
        }
        i = i + 1;
    }
    proof {
        assert(b@.take(n as int) =~= b@);
    }
}

/// Render the completed table, one line per key in insertion order.
pub fn render(t: &Table) -> (out: Vec<u8>)
    requires
        t.wf(),
    ensures
        out@ == render_spec(t.keys(), t.obs_map()),
{
    let n = t.entries.len();
    let mut out: Vec<u8> = Vec::new();
    let mut i: usize = 0;
    proof {
        assert(out@ =~= render_spec(t.keys().take(0), t.obs_map()));
    }
    while i < n
        invariant
            i <= n == t.entries@.len(),
            t.wf(),
            out@ == render_spec(t.keys().take(i as int), t.obs_map()),
        decreases n - i,
    {
        let ghost pre = out@;
        let e = &t.entries[i];
        proof {
            t.lemma_index_of(i as int);
            crate::stats::lemma_stats_of_props(e.stat.obs());
            crate::stats::lemma_stats_of_bounds(e.stat.obs(), i64::MAX as int);
        }
        push_bytes(&mut out, e.key.as_slice());
        out.push(0x3b);
        let m = e.stat.mean();
        proof {
            crate::arith::lemma_round_div_le(
                if stats_of(e.stat.obs()).total < 0 {
                    -stats_of(e.stat.obs()).total
                } else {
                    stats_of(e.stat.obs()).total
                },
                stats_of(e.stat.obs()).count,
                i64::MAX as int,
            );
        }
        push_micros(&mut out, m);
        out.push(0x3b);
        push_micros(&mut out, e.stat.low);
        out.push(0x3b);
        push_micros(&mut out, e.stat.high);
        out.push(0x0a);
        proof {
            let k = t.key_at(i as int);
            let sv = stats_of(t.obs_map()[k]);
            assert(out@ =~= pre + line_out(k, sv));
            assert(t.keys().take(i + 1).drop_last() =~= t.keys().take(i as int));
            assert(t.keys().take(i + 1).last() == k);
        }
        i = i + 1;
    }
    proof {
        assert(t.keys().take(n as int) =~= t.keys());
    }
    out
}

} // verus!
