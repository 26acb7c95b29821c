//! The record parser's specification: what it means for a line to carry a
//! well-formed `key;value` record, and which exact measurement, in micro
//! units, the value denotes.

use vstd::prelude::*;
use crate::arith::{pow10, round_div};
use crate::digits::{all_digits, digits_val, find_first2, sig_len};
use crate::utf8::is_utf8;

verus! {

/// The field delimiter, `;`.
pub const DELIM: u8 = 0x3b;

/// Line feed and carriage return, the line terminators.
pub const LF: u8 = 0x0a;

pub const CR: u8 = 0x0d;

/// At most this many significant digits are accepted in a value's mantissa.
pub const MAX_SIG_DIGITS: u64 = 25;

/// Scale of the fixed-point representation: six digits after the point.
pub const FRAC_DIGITS: u64 = 6;

/// A mantissa is digits with at most one point and at least one digit.
pub open spec fn mantissa_ok(man: Seq<u8>) -> bool {
    match find_first2(man, 0x2e, 0x2e) {
        Some(j) => man.len() >= 2 && all_digits(man.take(j)) && all_digits(man.skip(j + 1)),
        None => man.len() >= 1 && all_digits(man),
    }
}

/// The mantissa's digits with the point removed.
pub open spec fn man_digits(man: Seq<u8>) -> Seq<u8> {
    match find_first2(man, 0x2e, 0x2e) {
        Some(j) => man.take(j) + man.skip(j + 1),
        None => man,
    }
}

/// How many of the mantissa's digits stand after the point.
pub open spec fn frac_len(man: Seq<u8>) -> int {
    match find_first2(man, 0x2e, 0x2e) {
        Some(j) => man.len() - j - 1,
        None => 0,
    }
}

/// The value of an exponent part (the bytes after `e`), if well-formed;
/// `Some(0)` when the literal has no exponent part at all.
pub open spec fn exp_val(ex: Option<Seq<u8>>) -> Option<int> {
    match ex {
        None => Some(0int),
        Some(x) => {
            let eneg = x.len() > 0 && x[0] == 0x2d;
            let eb = if x.len() > 0 && (x[0] == 0x2d || x[0] == 0x2b) {
                x.drop_first()
            } else {
                x
            };
            if eb.len() >= 1 && all_digits(eb) {
                Some(
                    if eneg {
                        -digits_val(eb)
                    } else {
                        digits_val(eb)
                    },
                )
            } else {
                None
            }
        },
    }
}

/// The measurement, in micro units, denoted by a digit value `dv >= 0`
/// scaled by `10^t`: exact when `t >= 0`, rounded to the nearest micro unit
/// (ties away from zero) when `t < 0`; out of range when it would exceed
/// `i64::MAX` micro units.
pub open spec fn micros_from(dv: int, t: int) -> Option<int> {
    if dv == 0 {
        Some(0int)
    } else if t >= 0 {
        let m = dv * pow10(t as nat);
        if m <= i64::MAX {
            Some(m)
        } else {
            None
        }
    } else {
        let m = round_div(dv, pow10((-t) as nat) as int);
        if m <= i64::MAX {
            Some(m)
        } else {
            None
        }
    }
}

/// The unsigned part of the value grammar: `mantissa [e|E exponent]`.
pub open spec fn parse_unsigned_spec(s: Seq<u8>) -> Option<int> {
    let man = match find_first2(s, 0x65, 0x45) {
        Some(i) => s.take(i),
        None => s,
    };
    let ex = match find_first2(s, 0x65, 0x45) {
        Some(i) => Some(s.skip(i + 1)),
        None => None,
    };
    if !mantissa_ok(man) {
        None
    } else {
        match exp_val(ex) {
            None => None,
            Some(e) => {
                let ds = man_digits(man);
                if sig_len(ds) > MAX_SIG_DIGITS {
                    None
                } else {
                    micros_from(digits_val(ds), e + FRAC_DIGITS - frac_len(man))
                }
            },
        }
    }
}

/// The full value grammar: an optional sign, then the unsigned literal.
/// `Some(m)` is the measurement in micro units; `None` marks the value as
/// unparsable, so the record is skipped.
pub open spec fn parse_value_spec(s: Seq<u8>) -> Option<int> {
    if s.len() == 0 {
        None
    } else {
        let neg = s[0] == 0x2d;
        let body = if s[0] == 0x2d || s[0] == 0x2b {
            s.drop_first()
        } else {
            s
        };
        match parse_unsigned_spec(body) {
            None => None,
            Some(m) => Some(
                if neg {
                    -m
                } else {
                    m
                },
            ),
        }
    }
}

/// Strip one trailing line feed, then one optional carriage return.
pub open spec fn strip_line(raw: Seq<u8>) -> Seq<u8> {
    let t = if raw.len() > 0 && raw.last() == LF {
        raw.drop_last()
    } else {
        raw
    };
    if t.len() > 0 && t.last() == CR {
        t.drop_last()
    } else {
        t
    }
}

/// The record a raw line carries: the key before the first delimiter and
/// the parsed measurement, or `None` for a malformed line (no delimiter,
/// unparsable or empty value, or a key that is not well-formed text).
pub open spec fn line_record(raw: Seq<u8>) -> Option<(Seq<u8>, int)> {
    let line = strip_line(raw);
    match find_first2(line, DELIM, DELIM) {
        None => None,
        Some(i) => {
            let key = line.take(i);
            if !is_utf8(key) {
                None
            } else {
                match parse_value_spec(line.skip(i + 1)) {
                    None => None,
                    Some(m) => Some((key, m)),
                }
            }
        },
    }
}

/// Every parsed measurement fits in an `i64` whose magnitude stays at or
/// under `i64::MAX` micro units.
pub proof fn lemma_parse_value_range(s: Seq<u8>)
    requires
        parse_value_spec(s) is Some,
    ensures
        -i64::MAX <= parse_value_spec(s)->Some_0 <= i64::MAX,
{
    let body = if s[0] == 0x2d || s[0] == 0x2b {
        s.drop_first()
    } else {
        s
    };
    lemma_parse_unsigned_range(body);
}

pub proof fn lemma_parse_unsigned_range(s: Seq<u8>)
    requires
        parse_unsigned_spec(s) is Some,
    ensures
        0 <= parse_unsigned_spec(s)->Some_0 <= i64::MAX,
{
    let man = match find_first2(s, 0x65, 0x45) {
        Some(i) => s.take(i),
        None => s,
    };
    let ds = man_digits(man);
    assert(all_digits(ds)) by {
        lemma_man_digits_all(man);
    }
    crate::digits::lemma_digits_val_props(ds);
    let e = exp_val(
        match find_first2(s, 0x65, 0x45) {
            Some(i) => Some(s.skip(i + 1)),
            None => None,
        },
    )->Some_0;
    let t = e + FRAC_DIGITS - frac_len(man);
    let dv = digits_val(ds);
    if dv != 0 && t < 0 {
        let p = pow10((-t) as nat) as int;
        crate::arith::lemma_pow10_pos((-t) as nat);
        assert(round_div(dv, p) >= 0) by {
            assert(dv / p >= 0 && dv % p >= 0) by (nonlinear_arith)
                requires
                    dv >= 0 && p >= 1,
            ;
        }
    }
}

/// A well-formed mantissa's digit string is all digits.
pub proof fn lemma_man_digits_all(man: Seq<u8>)
    requires
        mantissa_ok(man),
    ensures
        all_digits(man_digits(man)),
{
    match find_first2(man, 0x2e, 0x2e) {
        Some(j) => {
            crate::digits::lemma_find_first2_props(man, 0x2e, 0x2e);
            let a = man.take(j);
            let b = man.skip(j + 1);
            assert forall|i: int| 0 <= i < (a + b).len() implies is_ascii_digit_at(a + b, i) by {
                if i < a.len() {
                    assert((a + b)[i] == a[i]);
                } else {
                    assert((a + b)[i] == b[i - a.len()]);
                }
            }
        },
        None => {},
    }
}

/// Helper phrasing so the quantifier above has a stable trigger.
pub open spec fn is_ascii_digit_at(s: Seq<u8>, i: int) -> bool {
    crate::digits::is_ascii_digit(s[i])
}

/// A mantissa holding a byte that is neither a digit nor the point is
/// malformed.
pub proof fn lemma_mantissa_bad_byte(man: Seq<u8>, p: int)
    requires
        0 <= p < man.len(),
        !crate::digits::is_ascii_digit(man[p]),
        man[p] != 0x2e,
    ensures
        !mantissa_ok(man),
{
    crate::digits::lemma_find_first2_props(man, 0x2e, 0x2e);
    match find_first2(man, 0x2e, 0x2e) {
        None => {
            assert(!all_digits(man));
        },
        Some(j) => {
            if p < j {
                assert(man.take(j)[p] == man[p]);
                assert(!all_digits(man.take(j)));
            } else {
                assert(p != j);
                assert(man.skip(j + 1)[p - j - 1] == man[p]);
                assert(!all_digits(man.skip(j + 1)));
            }
        },
    }
}

/// A mantissa holding two points is malformed.
pub proof fn lemma_mantissa_two_dots(man: Seq<u8>, p1: int, p2: int)
    requires
        0 <= p1 < p2 < man.len(),
        man[p1] == 0x2e,
        man[p2] == 0x2e,
    ensures
        !mantissa_ok(man),
{
    crate::digits::lemma_find_first2_props(man, 0x2e, 0x2e);
    match find_first2(man, 0x2e, 0x2e) {
        None => {
            assert(man[p1] != 0x2e);
        },
        Some(j) => {
            assert(j <= p1);
            assert(man.skip(j + 1)[p2 - j - 1] == man[p2]);
            assert(!all_digits(man.skip(j + 1)));
        },
    }
}

/// A fully scanned mantissa region — digits, then an optional point and
/// more digits, with at least one digit in all — is well formed, and its
/// digit string and fraction length are the scanned ones.
pub proof fn lemma_mantissa_region(s: Seq<u8>, ms: int, ie: int, fe: int, has_dot: bool)
    requires
        0 <= ms <= ie <= fe <= s.len(),
        all_digits(s.subrange(ms, ie)),
        has_dot ==> ie < fe && s[ie] == 0x2e && all_digits(s.subrange(ie + 1, fe)),
        !has_dot ==> fe == ie,
        (ie - ms) + (if has_dot {
            fe - ie - 1
        } else {
            0int
        }) >= 1,
    ensures
        mantissa_ok(s.subrange(ms, fe)),
        man_digits(s.subrange(ms, fe)) == (if has_dot {
            s.subrange(ms, ie) + s.subrange(ie + 1, fe)
        } else {
            s.subrange(ms, ie)
        }),
        frac_len(s.subrange(ms, fe)) == (if has_dot {
            fe - ie - 1
        } else {
            0int
        }),
{
    let man = s.subrange(ms, fe);
    let run1 = s.subrange(ms, ie);
    if has_dot {
        let run2 = s.subrange(ie + 1, fe);
        assert(man[ie - ms] == 0x2e);
        assert forall|j: int| 0 <= j < ie - ms implies #[trigger] man[j] != 0x2e by {
            assert(man[j] == run1[j]);
            assert(crate::digits::is_ascii_digit(run1[j]));
        }
        crate::digits::lemma_find_first2_at(man, 0x2e, 0x2e, ie - ms);
        assert(man.take(ie - ms) =~= run1);
        assert(man.skip(ie - ms + 1) =~= run2);
    } else {
        assert(man =~= run1);
        assert forall|j: int| 0 <= j < man.len() implies #[trigger] man[j] != 0x2e && man[j]
            != 0x2e by {
            assert(crate::digits::is_ascii_digit(man[j]));
        }
        crate::digits::lemma_find_first2_none(man, 0x2e, 0x2e);
    }
}

pub(crate) fn byte_is_digit(b: u8) -> (r: bool)
    ensures
        r == crate::digits::is_ascii_digit(b),
{
    0x30 <= b && b <= 0x39
}

/// Scan a maximal run of digits starting at `start`, continuing the digit
/// string `pfx` whose accumulated value and significant length are given.
/// Accumulation is exact while the significant length stays at or under
/// `cap`; past the cap only the fact of overflow is tracked.
#[verifier::rlimit(30)]
pub(crate) fn scan_digit_run(
    s: &[u8],
    start: usize,
    dv0: u128,
    sig0: usize,
    over0: bool,
    cap: usize,
    Ghost(pfx): Ghost<Seq<u8>>,
) -> (res: (usize, u128, usize, bool, Ghost<Seq<u8>>))
    requires
        start <= s@.len(),
        cap <= 30,
        all_digits(pfx),
        !over0 ==> dv0 == digits_val(pfx) && sig0 == sig_len(pfx) && sig0 <= cap,
        over0 ==> sig_len(pfx) > cap,
        over0 ==> sig0 == cap + 1,
    ensures
        ({
            let (end, dv, sig, over, grun) = res;
            let run = grun@;
            &&& start <= end <= s@.len()
            &&& run == s@.subrange(start as int, end as int)
            &&& all_digits(run)
            &&& all_digits(pfx + run)
            &&& (end < s@.len() ==> !crate::digits::is_ascii_digit(s@[end as int]))
            &&& (!over ==> dv == digits_val(pfx + run) && sig == sig_len(pfx + run) && sig <= cap)
            &&& (over ==> sig_len(pfx + run) > cap)
            &&& (over ==> sig == cap + 1)
        }),
{
    let n = s.len();
    let mut end = start;
    let mut dv = dv0;
    let mut sig = sig0;
    let mut over = over0;
    let ghost mut full: Seq<u8> = pfx;
    proof {
        assert(pfx + s@.subrange(start as int, start as int) =~= pfx);
    }
    while end < n && byte_is_digit(s[end])
        invariant
            start <= end <= n == s@.len(),
            cap <= 30,
            full == pfx + s@.subrange(start as int, end as int),
            all_digits(full),
            !over ==> dv == digits_val(full) && sig == sig_len(full) && sig <= cap,
            over ==> sig_len(full) > cap,
            over ==> sig == cap + 1,
        decreases n - end,
    {
        let d = s[end];
        proof {
            crate::digits::lemma_sig_len_push(full, d);
            crate::digits::lemma_digits_val_push(full, d);
            assert(pfx + s@.subrange(start as int, end + 1) =~= full.push(d));
            assert forall|i: int| 0 <= i < full.push(d).len() implies crate::digits::is_ascii_digit(
                #[trigger] full.push(d)[i],
            ) by {
                if i < full.len() {
                    assert(full.push(d)[i] == full[i]);
                }
            }
        }
        if !over {
            let nsig = if sig == 0 {
                if d == 0x30 {
                    0
                } else {
                    1
                }
            } else {
                sig + 1
            };
            if nsig > cap {
                over = true;
                sig = cap + 1;
            } else {
                proof {
                    crate::digits::lemma_digits_val_props(full);
                    crate::arith::lemma_pow10_mono(sig_len(full), 30);
                    crate::arith::lemma_pow10_31();
                    crate::arith::lemma_pow10_30();
                }
                dv = dv * 10 + ((d - 0x30) as u128);
                sig = nsig;
            }
        }
        proof {
            full = full.push(d);
        }
        end = end + 1;
    }
    proof {
        let run = s@.subrange(start as int, end as int);
        assert forall|i: int| 0 <= i < run.len() implies crate::digits::is_ascii_digit(
            #[trigger] run[i],
        ) by {
            assert(run[i] == full[pfx.len() + i]);
        }
    }
    (end, dv, sig, over, Ghost(s@.subrange(start as int, end as int)))
}

/// Parse a value field. Returns the measurement in micro units exactly
/// when the bytes form a well-formed, representable base-10 literal, and
/// `None` otherwise — the silent-skip outcome.
pub fn parse_value(s: &[u8]) -> (r: Option<i64>)
    ensures
        match r {
            Some(v) => parse_value_spec(s@) == Some(v as int),
            None => parse_value_spec(s@) is None,
        },
{
    let n = s.len();
    if n == 0 {
        return None;
    }
    let b0 = s[0];
    let neg = b0 == 0x2d;
    let ms: usize = if b0 == 0x2d || b0 == 0x2b {
        1
    } else {
        0
    };
    proof {
        if b0 == 0x2d || b0 == 0x2b {
            assert(s@.skip(ms as int) =~= s@.drop_first());
        } else {
            assert(s@.skip(ms as int) =~= s@);
        }
    }
    match value_unsigned(s, ms) {
        Some(m) => {
            if neg {
                Some(-(m as i64))
            } else {
                Some(m as i64)
            }
        },
        None => None,
    }
}

/// The unsigned part of a value: mantissa, then an optional exponent.
#[verifier::rlimit(60)]
pub(crate) fn value_unsigned(s: &[u8], ms: usize) -> (r: Option<u64>)
    requires
        ms <= s@.len(),
    ensures
        match r {
            Some(m) => parse_unsigned_spec(s@.skip(ms as int)) == Some(m as int) && m
                <= 0x7fff_ffff_ffff_ffff,
            None => parse_unsigned_spec(s@.skip(ms as int)) is None,
        },
{
    let n = s.len();
    let ghost body = s@.skip(ms as int);

    // Mantissa: integer digits, then an optional point and fraction digits.
    let (ie, dv1, sig1, over1, Ghost(run1)) = scan_digit_run(
        s,
        ms,
        0,
        0,
        false,
        25,
        Ghost(Seq::empty()),
    );
    proof {
        assert(Seq::<u8>::empty() + run1 =~= run1);
    }
    let mut fe = ie;
    let mut fcnt: usize = 0;
    let mut has_dot = false;
    let mut dv = dv1;
    let mut sig = sig1;
    let mut over = over1;
    let ghost mut ds: Seq<u8> = run1;
    if ie < n && s[ie] == 0x2e {
        has_dot = true;
        let (fend, dv2, sig2, over2, Ghost(run2)) = scan_digit_run(
            s,
            ie + 1,
            dv1,
            sig1,
            over1,
            25,
            Ghost(run1),
        );
        fe = fend;
        fcnt = fend - (ie + 1);
        dv = dv2;
        sig = sig2;
        over = over2;
        proof {
            ds = run1 + run2;
        }
    }
    let dig_cnt = (ie - ms) + fcnt;

    proof {
        assert forall|k: int| ms <= k < fe implies #[trigger] s@[k] != 0x65 && s@[k] != 0x45 by {
            if has_dot {
                if k < ie {
                    assert(run1[k - ms] == s@[k]);
                    assert(crate::digits::is_ascii_digit(s@[k]));
                } else if k > ie {
                    assert(s@.subrange(ie + 1, fe as int)[k - ie - 1] == s@[k]);
                } else {
                    assert(s@[k] == 0x2e);
                }
            } else {
                assert(run1[k - ms] == s@[k]);
                assert(crate::digits::is_ascii_digit(s@[k]));
            }
        }
    }

    // The mantissa region must cover everything up to the exponent marker
    // or the end of input; otherwise some byte the grammar refuses is left.
    let has_e = fe < n && (s[fe] == 0x65 || s[fe] == 0x45);
    if !has_e && fe < n {
        proof {
            let e_find = find_first2(body, 0x65, 0x45);
            let man = if e_find is Some {
                body.take(e_find->Some_0)
            } else {
                body
            };
            let p = fe - ms;
            assert(body[p] == s@[fe as int]);
            crate::digits::lemma_find_first2_props(body, 0x65, 0x45);
            let mlen = man.len();
            assert(p < mlen && man[p] == body[p]) by {
                if e_find is Some {
                    let k = e_find->Some_0;
                    assert(body[k] == 0x65 || body[k] == 0x45);
                    assert(k > p);
                }
            }
            if has_dot && s@[fe as int] == 0x2e {
                assert(man[ie - ms] == body[ie - ms]);
                lemma_mantissa_two_dots(man, ie - ms, p);
            } else {
                assert(!crate::digits::is_ascii_digit(s@[fe as int]));
                lemma_mantissa_bad_byte(man, p);
            }
        }
        return None;
    }

    // Mantissa grammar: at least one digit, and the point placed once.
    if dig_cnt == 0 {
        proof {
            let e_find = find_first2(body, 0x65, 0x45);
            let man = if e_find is Some {
                body.take(e_find->Some_0)
            } else {
                body
            };
            if has_e {
                assert(body[fe - ms] == s@[fe as int]);
                crate::digits::lemma_find_first2_at(body, 0x65, 0x45, fe - ms);
            } else {
                crate::digits::lemma_find_first2_none(body, 0x65, 0x45);
            }
            assert(man =~= s@.subrange(ms as int, fe as int));
            if has_dot {
                assert(man.len() == 1 && man[0] == 0x2e);
                crate::digits::lemma_find_first2_props(man, 0x2e, 0x2e);
            } else {
                assert(man.len() == 0);
            }
        }
        return None;
    }

    proof {
        lemma_mantissa_region(s@, ms as int, ie as int, fe as int, has_dot);
        if has_dot {
            assert(man_digits(s@.subrange(ms as int, fe as int)) == ds);
        } else {
            assert(man_digits(s@.subrange(ms as int, fe as int)) == ds);
        }
    }
    value_exponent(s, ms, fe, fcnt, dv, sig, over, Ghost(ds))
}

/// The optional exponent part and the final scaling, after the mantissa
/// has been scanned and found well formed.
#[verifier::rlimit(80)]
pub(crate) fn value_exponent(
    s: &[u8],
    ms: usize,
    fe: usize,
    fcnt: usize,
    dv: u128,
    sig: usize,
    over: bool,
    Ghost(ds): Ghost<Seq<u8>>,
) -> (r: Option<u64>)
    requires
        ms <= fe <= s@.len(),
        fe < s@.len() ==> (s@[fe as int] == 0x65 || s@[fe as int] == 0x45),
        all_digits(ds),
        forall|k: int| ms <= k < fe ==> #[trigger] s@[k] != 0x65 && s@[k] != 0x45,
        mantissa_ok(s@.subrange(ms as int, fe as int)),
        man_digits(s@.subrange(ms as int, fe as int)) == ds,
        frac_len(s@.subrange(ms as int, fe as int)) == fcnt as int,
        !over ==> dv == digits_val(ds) && sig == sig_len(ds) && sig <= 25,
        over ==> sig_len(ds) > 25,
    ensures
        match r {
            Some(m) => parse_unsigned_spec(s@.skip(ms as int)) == Some(m as int) && m
                <= 0x7fff_ffff_ffff_ffff,
            None => parse_unsigned_spec(s@.skip(ms as int)) is None,
        },
{
    let n = s.len();
    let ghost body = s@.skip(ms as int);
    let ghost man = s@.subrange(ms as int, fe as int);

    // Optional exponent part.
    let mut eneg = false;
    let mut es = fe;
    let mut ee = fe;
    let mut e_dv: u128 = 0;
    let mut e_over = false;
    let ghost mut eb: Seq<u8> = Seq::empty();
    let has_e = fe < n && (s[fe] == 0x65 || s[fe] == 0x45);
    if has_e {
        let mut p = fe + 1;
        if p < n && (s[p] == 0x2d || s[p] == 0x2b) {
            eneg = s[p] == 0x2d;
            p = p + 1;
        }
        es = p;
        let (eend, edv2, esig2, eover2, Ghost(erun)) = scan_digit_run(
            s,
            p,
            0,
            0,
            false,
            30,
            Ghost(Seq::empty()),
        );
        proof {
            assert(Seq::<u8>::empty() + erun =~= erun);
            eb = erun;
        }
        ee = eend;
        e_dv = edv2;
        e_over = eover2;
    }

    proof {
        assert forall|k: int| 0 <= k < body.len() implies body[k] == s@[ms + k] by {}
        if has_e {
            assert(body[fe - ms] == s@[fe as int]);
            crate::digits::lemma_find_first2_at(body, 0x65, 0x45, fe - ms);
        } else {
            crate::digits::lemma_find_first2_none(body, 0x65, 0x45);
        }
        assert(find_first2(body, 0x65, 0x45) == (if has_e {
            Some(fe - ms)
        } else {
            None::<int>
        }));
        if has_e {
            assert(body.take(fe - ms) =~= man);
        } else {
            assert(body =~= man);
        }
    }

    // Exponent grammar.
    if has_e {
        if ee < n || es == ee {
            proof {
                let x = body.skip(fe - ms + 1);
                assert(x =~= s@.skip(fe + 1));
                let ebs = if x.len() > 0 && (x[0] == 0x2d || x[0] == 0x2b) {
                    x.drop_first()
                } else {
                    x
                };
                assert(ebs =~= s@.skip(es as int));
                if es == ee {
                    if es < n {
                        assert(ebs[ee - es] == s@[ee as int]);
                        assert(!crate::digits::is_ascii_digit(s@[ee as int]));
                        assert(!all_digits(ebs));
                    } else {
                        assert(ebs.len() == 0);
                    }
                } else {
                    assert(ebs[ee - es] == s@[ee as int]);
                    assert(!crate::digits::is_ascii_digit(s@[ee as int]));
                    assert(!all_digits(ebs));
                }
            }
            return None;
        }
    }

    let ghost e_abs = digits_val(eb);
    let ghost e_spec = if has_e {
        if eneg {
            -e_abs
        } else {
            e_abs
        }
    } else {
        0int
    };
    proof {
        if has_e {
            let x = body.skip(fe - ms + 1);
            assert(x =~= s@.skip(fe + 1));
            let ebs = if x.len() > 0 && (x[0] == 0x2d || x[0] == 0x2b) {
                x.drop_first()
            } else {
                x
            };
            assert(ebs =~= s@.skip(es as int));
            assert(ebs =~= eb);
            assert(x.len() > 0 && (x[0] == 0x2d || x[0] == 0x2b) ==> x[0] == s@[fe + 1]);
            assert(eneg <==> (x.len() > 0 && x[0] == 0x2d));
            assert(exp_val(Some(x)) == Some(e_spec));
        }
    }

    // The grammar is settled; what remains is the value.
    if over {
        return None;
    }
    proof {
        crate::digits::lemma_digits_val_props(ds);
        crate::arith::lemma_pow10_mono(sig_len(ds), 25);
        crate::arith::lemma_pow10_19();
        crate::arith::lemma_pow10_20();
        crate::arith::lemma_pow10_26();
        crate::arith::lemma_pow10_30();
        crate::arith::lemma_pow10_31();
        assert(dv < pow10(25));
        assert(usize::MAX as int <= u64::MAX as int);
    }
    if dv == 0 {
        return Some(0);
    }
    let ghost t_spec = e_spec + FRAC_DIGITS - fcnt as int;
    if e_over {
        proof {
            crate::digits::lemma_digits_val_props(eb);
            crate::digits::lemma_digits_val_lower(eb);
            crate::arith::lemma_pow10_mono(30, (sig_len(eb) - 1) as nat);
            assert(e_abs >= pow10(30));
        }
        if eneg {
            proof {
                assert(t_spec <= -26);
                crate::arith::lemma_pow10_mono(26, (-t_spec) as nat);
                crate::arith::lemma_round_div_small(dv as int, pow10((-t_spec) as nat) as int);
            }
            return Some(0);
        } else {
            proof {
                assert(t_spec >= 19);
                crate::arith::lemma_pow10_mono(19, t_spec as nat);
                assert(dv as int * pow10(t_spec as nat) >= pow10(t_spec as nat)) by (nonlinear_arith)
                    requires
                        dv >= 1 && pow10(t_spec as nat) >= 0,
                ;
            }
            return None;
        }
    }
    proof {
        crate::digits::lemma_digits_val_props(eb);
        assert(e_abs < pow10(31)) by {
            crate::arith::lemma_pow10_mono(sig_len(eb), 31);
        }
    }
    let e_signed: i128 = if eneg {
        -(e_dv as i128)
    } else {
        e_dv as i128
    };
    let t: i128 = e_signed + 6 - (fcnt as i128);
    proof {
        assert(t == t_spec);
    }
    if t >= 19 {
        proof {
            crate::arith::lemma_pow10_mono(19, t_spec as nat);
            assert(dv as int * pow10(t_spec as nat) >= pow10(t_spec as nat)) by (nonlinear_arith)
                requires
                    dv >= 1 && pow10(t_spec as nat) >= 0,
            ;
        }
        return None;
    }
    if t <= -26 {
        proof {
            crate::arith::lemma_pow10_mono(26, (-t_spec) as nat);
            crate::arith::lemma_round_div_small(dv as int, pow10((-t_spec) as nat) as int);
        }
        return Some(0);
    }
    micros_mag(dv, t)
}

/// Scale the digit value `dv` by `10^t` and round to the nearest micro
/// unit, rejecting magnitudes above `i64::MAX`.
#[verifier::rlimit(30)]
pub(crate) fn micros_mag(dv: u128, t: i128) -> (r: Option<u64>)
    requires
        1 <= dv,
        dv < pow10(25),
        -26 < t < 19,
    ensures
        match r {
            Some(m) => micros_from(dv as int, t as int) == Some(m as int),
            None => micros_from(dv as int, t as int) is None,
        },
{
    proof {
        crate::arith::lemma_pow10_26();
        crate::arith::lemma_pow10_19();
    }
    let m: u128;
    if t >= 0 {
        let p = crate::arith::pow10_u128(t as u32);
        proof {
            crate::arith::lemma_pow10_mono(t as nat, 19);
        }
        match dv.checked_mul(p) {
            Some(prod) => {
                m = prod;
            },
            None => {
                proof {
                    assert(dv as int * p as int > u128::MAX as int);
                }
                return None;
            },
        }
    } else {
        let p = crate::arith::pow10_u128((-t) as u32);
        proof {
            crate::arith::lemma_pow10_pos((-t) as nat);
            crate::arith::lemma_pow10_mono((-t) as nat, 26);
        }
        let q = dv / p;
        let rr = dv % p;
        m = q + (if 2 * rr >= p {
            1
        } else {
            0
        });
        proof {
            assert(m as int == crate::arith::round_div(dv as int, p as int));
        }
    }
    if m > 0x7fff_ffff_ffff_ffff {
        return None;
    }
    Some(m as u64)
}

} // verus!
