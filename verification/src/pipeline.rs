//! The pipeline: lines in, one aggregated line per distinct key out.
//! `Aggregator` is fed one raw line at a time, so memory stays bounded by
//! the number of distinct keys; `summarize` runs the whole pipeline over
//! one in-memory input.

use vstd::prelude::*;
use vstd::multiset::Multiset;
use crate::parse::{line_record, parse_value, parse_value_spec, strip_line, DELIM, LF};
use crate::digits::find_first2;
use crate::table::{keys_fold, obs_fold, Table};
use crate::render::{render, render_spec};

verus! {

broadcast use vstd::multiset::group_multiset_axioms;

/// The input split at every line feed; the terminators stay attached to
/// nothing — each segment is the bytes strictly between line feeds.
pub open spec fn split_lines(input: Seq<u8>) -> Seq<Seq<u8>>
    decreases input.len(),
    via split_lines_decreases
{
    match find_first2(input, LF, LF) {
        Some(i) => seq![input.take(i)] + split_lines(input.skip(i + 1)),
        None => seq![input],
    }
}

#[via_fn]
proof fn split_lines_decreases(input: Seq<u8>) {
    crate::digits::lemma_find_first2_props(input, LF, LF);
}

/// The records the well-formed lines carry, in input order.
pub open spec fn records_of(lines: Seq<Seq<u8>>) -> Seq<(Seq<u8>, int)>
    decreases lines.len(),
{
    if lines.len() == 0 {
        Seq::empty()
    } else {
        let rest = records_of(lines.drop_last());
        match line_record(lines.last()) {
            Some(r) => rest.push(r),
            None => rest,
        }
    }
}

/// The whole pipeline as one function of the input bytes.
pub open spec fn summarize_spec(input: Seq<u8>) -> Seq<u8> {
    let rs = records_of(split_lines(input));
    render_spec(keys_fold(rs), obs_fold(rs))
}

/// A line that carries a record keeps at least a delimiter and one value
/// byte after stripping.
pub proof fn lemma_record_line_len(l: Seq<u8>)
    requires
        line_record(l) is Some,
    ensures
        l.len() >= 2,
{
    let line = strip_line(l);
    crate::digits::lemma_find_first2_props(line, DELIM, DELIM);
    let i = find_first2(line, DELIM, DELIM)->Some_0;
    assert(parse_value_spec(line.skip(i + 1)) is Some);
    assert(line.skip(i + 1).len() >= 1);
    assert(line.len() >= 2);
}

/// The streaming aggregation state: the table, the number of records
/// folded in, and — as ghost state — every raw line fed so far.
pub struct Aggregator {
    pub table: Table,
    pub records: u64,
    pub fed: Ghost<Seq<Seq<u8>>>,
}

impl Aggregator {
    /// The raw lines fed so far.
    pub open spec fn lines(self) -> Seq<Seq<u8>> {
        self.fed@
    }

    /// The table models exactly the records of the lines fed so far.
    pub open spec fn wf(self) -> bool {
        &&& self.table.wf()
        &&& self.table.obs_map() == obs_fold(records_of(self.lines()))
        &&& self.table.keys() == keys_fold(records_of(self.lines()))
        &&& self.records as int == records_of(self.lines()).len()
        &&& forall|k: Seq<u8>| #[trigger]
            self.table.has_key(k) ==> self.table.obs_map()[k].len() <= self.records as int
    }

    pub fn new() -> (r: Aggregator)
        ensures
            r.wf(),
            r.lines() == Seq::<Seq<u8>>::empty(),
            r.records == 0,
    {
        let t = Table::new();
        Aggregator { table: t, records: 0, fed: Ghost(Seq::empty()) }
    }

    /// How many records have been folded in.
    pub fn record_count(&self) -> (r: u64)
        ensures
            r == self.records,
    {
        self.records
    }

    /// Feed one raw line (its trailing line feed, and an optional carriage
    /// return before it, may still be attached). A well-formed record is
    /// folded into its key's statistic; a malformed line changes nothing.
    pub fn push_line(&mut self, raw: &[u8])
        requires
            old(self).wf(),
            old(self).records < u64::MAX,
        ensures
            final(self).wf(),
            final(self).lines() == old(self).lines().push(raw@),
            final(self).records as int == old(self).records as int + (
            if line_record(raw@) is Some {
                1int
            } else {
                0int
            }),
    {
        let ghost lines0 = self.fed@;
        let ghost rs0 = records_of(lines0);
        proof {
            assert(lines0.push(raw@).drop_last() =~= lines0);
            assert(lines0.push(raw@).last() == raw@);
        }
        let n = raw.len();
        let mut end = n;
        if end > 0 && raw[end - 1] == 0x0a {
            end = end - 1;
        }
        if end > 0 && raw[end - 1] == 0x0d {
            end = end - 1;
        }
        let ghost line = strip_line(raw@);
        proof {
            assert(raw@.take(n as int) =~= raw@);
            if n > 0 && raw@[n - 1] == 0x0a {
                assert(raw@.drop_last() =~= raw@.take(n - 1));
                if n > 1 && raw@[n - 2] == 0x0d {
                    assert(raw@.take(n - 1).drop_last() =~= raw@.take(n - 2));
                }
            } else if n > 0 && raw@[n - 1] == 0x0d {
                assert(raw@.drop_last() =~= raw@.take(n - 1));
            }
            assert(raw@.take(end as int) =~= line);
        }
        let mut j: usize = 0;
        while j < end && raw[j] != DELIM
            invariant
                j <= end <= n == raw@.len(),
                forall|k: int| 0 <= k < j ==> raw@[k] != DELIM,
            decreases end - j,
        {
            j = j + 1;
        }
        if j == end {
            proof {
                assert forall|k: int| 0 <= k < line.len() implies #[trigger] line[k] != DELIM
                    && line[k] != DELIM by {
                    assert(line[k] == raw@[k]);
                }
                crate::digits::lemma_find_first2_none(line, DELIM, DELIM);
                assert(line_record(raw@) is None);
                self.fed = Ghost(lines0.push(raw@));
            }
            return;
        }
        proof {
            assert(line[j as int] == raw@[j as int]);
            assert forall|k: int| 0 <= k < j implies #[trigger] line[k] != DELIM && line[k]
                != DELIM by {
                assert(line[k] == raw@[k]);
            }
            crate::digits::lemma_find_first2_at(line, DELIM, DELIM, j as int);
        }
        let key = vstd::slice::slice_subrange(raw, 0, j);
        proof {
            assert(key@ =~= line.take(j as int));
        }
        if !crate::utf8::key_is_utf8(key) {
            proof {
                assert(line_record(raw@) is None);
                self.fed = Ghost(lines0.push(raw@));
            }
            return;
        }
        let val = vstd::slice::slice_subrange(raw, j + 1, end);
        proof {
            assert(val@ =~= line.skip(j + 1));
        }
        match parse_value(val) {
            None => {
                proof {
                    assert(line_record(raw@) is None);
                    self.fed = Ghost(lines0.push(raw@));
                }
            },
            Some(v) => {
                proof {
                    crate::parse::lemma_parse_value_range(val@);
                    assert(line_record(raw@) == Some((key@, v as int)));
                    assert(records_of(lines0.push(raw@)) == rs0.push((key@, v as int)));
                    assert(rs0.push((key@, v as int)).drop_last() =~= rs0);
                    if self.table.has_key(key@) {
                        assert(self.table.obs_map()[key@].len() < u64::MAX);
                    }
                    assert(self.table.obs_map().contains_key(key@) <==> self.table.has_key(key@));
                }
                let ghost t0 = self.table;
                self.table.upsert(key, v);
                self.records = self.records + 1;
                proof {
                    self.fed = Ghost(lines0.push(raw@));
                    let rs1 = records_of(self.fed@);
                    assert(rs1 == rs0.push((key@, v as int)));
                    assert(obs_fold(rs1) == self.table.obs_map()) by {
                        assert(obs_fold(rs1.drop_last()) == t0.obs_map());
                        assert(obs_fold(rs0).contains_key(key@) <==> t0.has_key(key@));
                    }
                    assert(keys_fold(rs1) == self.table.keys()) by {
                        assert(keys_fold(rs0).contains(key@) <==> t0.has_key(key@)) by {
                            assert(keys_fold(rs0) == t0.keys());
                            if t0.keys().contains(key@) {
                                let i = choose|i: int|
                                    0 <= i < t0.keys().len() && t0.keys()[i] == key@;
                                assert(t0.key_at(i) == key@);
                            }
                            if t0.has_key(key@) {
                                let i = t0.index_of(key@);
                                assert(t0.keys()[i] == key@);
                            }
                        }
                    }
                    assert forall|k: Seq<u8>| #[trigger]
                        self.table.has_key(k) implies self.table.obs_map()[k].len()
                        <= self.records as int by {
                        if k == key@ {
                            if t0.has_key(key@) {
                                assert(t0.obs_map()[key@].len() <= old(self).records as int);
                            }
                        } else {
                            assert(t0.has_key(k)) by {
                                let i = choose|i: int|
                                    0 <= i < self.table.entries@.len() && self.table.key_at(i)
                                        == k;
                                assert(self.table.keys()[i] == k);
                                if t0.has_key(key@) {
                                    assert(t0.keys()[i] == k);
                                    assert(t0.key_at(i) == k);
                                } else {
                                    assert(self.table.keys().len() == t0.keys().len() + 1);
                                    if i == t0.keys().len() {
                                        assert(self.table.keys()[i] == key@);
                                    }
                                    assert(t0.keys()[i] == k);
                                    assert(t0.key_at(i) == k);
                                }
                            }
                            assert(self.table.obs_map()[k] == t0.obs_map()[k]);
                        }
                    }
                }
            },
        }
    }

    /// Render the completed table: one `key;mean;min;max` line per key.
    pub fn finish(&self) -> (out: Vec<u8>)
        requires
            self.wf(),
        ensures
            out@ == render_spec(
                keys_fold(records_of(self.lines())),
                obs_fold(records_of(self.lines())),
            ),
    {
        render(&self.table)
    }
}

/// Run the whole pipeline over one input held in memory.
pub fn summarize(input: &[u8]) -> (out: Vec<u8>)
    ensures
        out@ == summarize_spec(input@),
{
    let mut agg = Aggregator::new();
    let n = input.len();
    let mut pos: usize = 0;
    proof {
        assert(input@.skip(0) =~= input@);
        assert(agg.lines() + split_lines(input@.skip(0)) =~= split_lines(input@));
    }
    loop
        invariant_except_break
            split_lines(input@) == agg.lines() + split_lines(input@.skip(pos as int)),
            3 * (agg.records as int) <= pos as int + 2,
        invariant
            pos <= n == input@.len(),
            agg.wf(),
        ensures
            split_lines(input@) == agg.lines(),
        decreases n - pos,
    {
        let ghost rest = input@.skip(pos as int);
        let mut j = pos;
        while j < n && input[j] != LF
            invariant
                pos <= j <= n == input@.len(),
                forall|k: int| pos <= k < j ==> input@[k] != LF,
            decreases n - j,
        {
            j = j + 1;
        }
        let seg = vstd::slice::slice_subrange(input, pos, j);
        proof {
            assert forall|k: int| 0 <= k < j - pos implies #[trigger] rest[k] != LF && rest[k]
                != LF by {
                assert(rest[k] == input@[pos + k]);
            }
            if j < n {
                assert(rest[j - pos] == input@[j as int]);
                crate::digits::lemma_find_first2_at(rest, LF, LF, j - pos);
            } else {
                crate::digits::lemma_find_first2_none(rest, LF, LF);
            }
            assert(seg@ =~= rest.take(j - pos));
            if j < n {
                assert(split_lines(rest) == seq![seg@] + split_lines(rest.skip(j - pos + 1)));
                assert(rest.skip(j - pos + 1) =~= input@.skip(j + 1));
            } else {
                assert(rest.take(j - pos) =~= rest);
                assert(split_lines(rest) == seq![seg@]);
            }
            assert(agg.records < u64::MAX);
            if line_record(seg@) is Some {
                lemma_record_line_len(seg@);
            }
        }
        let ghost lines_before = agg.lines();
        agg.push_line(seg);
        proof {
            assert(agg.lines() == lines_before.push(seg@));
            assert(lines_before.push(seg@) =~= lines_before + seq![seg@]);
        }
        if j == n {
            proof {
                assert(split_lines(input@) =~= agg.lines());
            }
            break;
        }
        proof {
            assert(rest.skip(j - pos + 1) =~= input@.skip(j + 1));
            assert(lines_before + (seq![seg@] + split_lines(input@.skip(j + 1))) =~= (lines_before
                + seq![seg@]) + split_lines(input@.skip(j + 1)));
        }
        pos = j + 1;
    }
    agg.finish()
}

} // verus!
