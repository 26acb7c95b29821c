//! Decimal digit strings: their numeric value, their significant length,
//! and first-occurrence scanning, as specifications with the lemmas the
//! executable scanners are proved against.

use vstd::prelude::*;
use crate::arith::pow10;

verus! {

pub open spec fn is_ascii_digit(b: u8) -> bool {
    0x30 <= b <= 0x39
}

pub open spec fn digit_val(b: u8) -> int {
    b - 0x30
}

pub open spec fn all_digits(s: Seq<u8>) -> bool {
    forall|i: int| 0 <= i < s.len() ==> is_ascii_digit(#[trigger] s[i])
}

/// The base-10 value of a digit string, most significant digit first.
pub open spec fn digits_val(s: Seq<u8>) -> int
    decreases s.len(),
{
    if s.len() == 0 {
        0
    } else {
        digits_val(s.drop_last()) * 10 + digit_val(s.last())
    }
}

/// The length of the string with its leading zeros removed.
pub open spec fn sig_len(s: Seq<u8>) -> nat
    decreases s.len(),
{
    if s.len() == 0 {
        0
    } else if s[0] == 0x30 {
        sig_len(s.drop_first())
    } else {
        s.len()
    }
}

pub proof fn lemma_digits_val_push(s: Seq<u8>, d: u8)
    ensures
        digits_val(s.push(d)) == digits_val(s) * 10 + digit_val(d),
{
    assert(s.push(d).drop_last() =~= s);
    assert(s.push(d).last() == d);
}

pub proof fn lemma_sig_len_push(s: Seq<u8>, d: u8)
    ensures
        sig_len(s.push(d)) == if sig_len(s) == 0 {
            if d == 0x30 {
                0nat
            } else {
                1nat
            }
        } else {
            sig_len(s) + 1
        },
    decreases s.len(),
{
    if s.len() == 0 {
        assert(s.push(d)[0] == d);
        if d == 0x30 {
            assert(s.push(d).drop_first() =~= Seq::<u8>::empty());
            assert(sig_len(s.push(d)) == sig_len(s.push(d).drop_first()));
            assert(sig_len(Seq::<u8>::empty()) == 0);
            assert(sig_len(s) == 0);
        } else {
            assert(sig_len(s.push(d)) == s.push(d).len());
            assert(sig_len(s) == 0);
        }
    } else {
        assert(s.push(d)[0] == s[0]);
        if s[0] == 0x30 {
            assert(s.push(d).drop_first() =~= s.drop_first().push(d));
            lemma_sig_len_push(s.drop_first(), d);
        } else {
            assert(sig_len(s.push(d)) == s.push(d).len());
        }
    }
}

/// Upper bound, positivity, and length facts of a digit string's value.
pub proof fn lemma_digits_val_props(s: Seq<u8>)
    requires
        all_digits(s),
    ensures
        0 <= digits_val(s),
        digits_val(s) < pow10(sig_len(s)),
        digits_val(s) > 0 <==> sig_len(s) > 0,
        sig_len(s) <= s.len(),
    decreases s.len(),
{
    crate::arith::lemma_pow10_pos(sig_len(s));
    if s.len() > 0 {
        let s0 = s.drop_last();
        let d = s.last();
        assert(s0.push(d) =~= s);
        assert(all_digits(s0));
        lemma_digits_val_props(s0);
        lemma_sig_len_push(s0, d);
        assert(is_ascii_digit(s[s.len() - 1]));
        if sig_len(s0) == 0 {
            assert(digits_val(s) == digit_val(d));
        } else {
            assert(digits_val(s0) < pow10(sig_len(s0)));
            assert(digits_val(s) == digits_val(s0) * 10 + digit_val(d));
            assert(digits_val(s0) * 10 + digit_val(d) < pow10(sig_len(s0)) * 10) by (nonlinear_arith)
                requires
                    digits_val(s0) < pow10(sig_len(s0)) && digit_val(d) < 10,
            ;
            assert(pow10(sig_len(s0) + 1) == 10 * pow10(sig_len(s0)));
        }
    }
}

/// Lower bound: a string with `k >= 1` significant digits is at least `10^(k-1)`.
pub proof fn lemma_digits_val_lower(s: Seq<u8>)
    requires
        all_digits(s),
        sig_len(s) >= 1,
    ensures
        digits_val(s) >= pow10((sig_len(s) - 1) as nat),
    decreases s.len(),
{
    let s0 = s.drop_last();
    let d = s.last();
    assert(s0.push(d) =~= s);
    assert(all_digits(s0));
    lemma_digits_val_props(s0);
    lemma_sig_len_push(s0, d);
    assert(is_ascii_digit(s[s.len() - 1]));
    if sig_len(s0) == 0 {
        assert(digits_val(s0) == 0);
        assert(digits_val(s) == digit_val(d));
        assert(d != 0x30);
    } else {
        lemma_digits_val_lower(s0);
        let k0 = (sig_len(s0) - 1) as nat;
        assert(digits_val(s) == digits_val(s0) * 10 + digit_val(d));
        assert(digits_val(s0) * 10 >= pow10(k0) * 10) by (nonlinear_arith)
            requires
                digits_val(s0) >= pow10(k0),
        ;
        assert(pow10(k0 + 1) == 10 * pow10(k0));
    }
}

/// The first position in `s` holding `a` or `b`, if any.
pub open spec fn find_first2(s: Seq<u8>, a: u8, b: u8) -> Option<int>
    decreases s.len(),
{
    if s.len() == 0 {
        None
    } else if s[0] == a || s[0] == b {
        Some(0int)
    } else {
        match find_first2(s.drop_first(), a, b) {
            Some(i) => Some(i + 1),
            None => None,
        }
    }
}

pub proof fn lemma_find_first2_props(s: Seq<u8>, a: u8, b: u8)
    ensures
        match find_first2(s, a, b) {
            Some(i) => 0 <= i < s.len() && (s[i] == a || s[i] == b) && forall|j: int|
                0 <= j < i ==> #[trigger] s[j] != a && s[j] != b,
            None => forall|j: int| 0 <= j < s.len() ==> #[trigger] s[j] != a && s[j] != b,
        },
    decreases s.len(),
{
    if s.len() > 0 && !(s[0] == a || s[0] == b) {
        lemma_find_first2_props(s.drop_first(), a, b);
        assert forall|j: int| 1 <= j < s.len() implies s[j] == s.drop_first()[j - 1] by {}
    }
}

/// A string without the target bytes has no first occurrence of them.
pub proof fn lemma_find_first2_none(s: Seq<u8>, a: u8, b: u8)
    requires
        forall|j: int| 0 <= j < s.len() ==> #[trigger] s[j] != a && s[j] != b,
    ensures
        find_first2(s, a, b) is None,
{
    lemma_find_first2_props(s, a, b);
    match find_first2(s, a, b) {
        Some(i) => {
            assert(s[i] != a && s[i] != b);
        },
        None => {},
    }
}

/// A found position that nothing earlier matches is the first one.
pub proof fn lemma_find_first2_at(s: Seq<u8>, a: u8, b: u8, i: int)
    requires
        0 <= i < s.len(),
        s[i] == a || s[i] == b,
        forall|j: int| 0 <= j < i ==> #[trigger] s[j] != a && s[j] != b,
    ensures
        find_first2(s, a, b) == Some(i),
{
    lemma_find_first2_props(s, a, b);
    match find_first2(s, a, b) {
        Some(k) => {
            if k < i {
                assert(s[k] != a && s[k] != b);
            }
            if k > i {
                assert(s[i] != a && s[i] != b);
            }
        },
        None => {
            assert(s[i] != a && s[i] != b);
        },
    }
}

} // verus!
