//! Powers of ten and rounding division, the arithmetic the pipeline is
//! specified with.

use vstd::prelude::*;

verus! {

/// `10^n`, the scale factors of the decimal representation.
pub open spec fn pow10(n: nat) -> nat
    decreases n,
{
    if n == 0 {
        1
    } else {
        10 * pow10((n - 1) as nat)
    }
}

pub proof fn lemma_pow10_pos(n: nat)
    ensures
        pow10(n) >= 1,
    decreases n,
{
    if n > 0 {
        lemma_pow10_pos((n - 1) as nat);
    }
}

pub proof fn lemma_pow10_mono(a: nat, b: nat)
    requires
        a <= b,
    ensures
        pow10(a) <= pow10(b),
    decreases b,
{
    if a < b {
        lemma_pow10_mono(a, (b - 1) as nat);
        lemma_pow10_pos((b - 1) as nat);
    }
}

pub proof fn lemma_pow10_19()
    ensures
        pow10(19) == 10_000_000_000_000_000_000,
{
    reveal_with_fuel(pow10, 20);
}

pub proof fn lemma_pow10_26()
    ensures
        pow10(26) == 100_000_000_000_000_000_000_000_000,
{
    reveal_with_fuel(pow10, 27);
}

pub proof fn lemma_pow10_20()
    ensures
        pow10(20) == 100_000_000_000_000_000_000,
{
    reveal_with_fuel(pow10, 21);
}

pub proof fn lemma_pow10_30()
    ensures
        pow10(30) == 1_000_000_000_000_000_000_000_000_000_000,
{
    reveal_with_fuel(pow10, 31);
}

pub proof fn lemma_pow10_31()
    ensures
        pow10(31) == 10_000_000_000_000_000_000_000_000_000_000,
{
    reveal_with_fuel(pow10, 32);
}

/// `10^k` as a machine word, for the exponents the parser ever scales by.
pub fn pow10_u128(k: u32) -> (r: u128)
    requires
        k <= 31,
    ensures
        r == pow10(k as nat),
{
    let mut r: u128 = 1;
    let mut j: u32 = 0;
    while j < k
        invariant
            j <= k <= 31,
            r == pow10(j as nat),
        decreases k - j,
    {
        proof {
            lemma_pow10_mono((j + 1) as nat, 31);
            lemma_pow10_31();
        }
        r = r * 10;
        j = j + 1;
    }
    r
}

/// Division of nonnegative `a` by positive `b`, rounded to the nearest
/// integer; a fractional part of exactly one half rounds up.
pub open spec fn round_div(a: int, b: int) -> int
    recommends
        a >= 0,
        b >= 1,
{
    if 2 * (a % b) >= b {
        a / b + 1
    } else {
        a / b
    }
}

/// The same rounding for a signed dividend: ties round away from zero.
pub open spec fn round_div_signed(a: int, b: int) -> int
    recommends
        b >= 1,
{
    if a >= 0 {
        round_div(a, b)
    } else {
        -round_div(-a, b)
    }
}

pub proof fn lemma_round_div_small(a: int, b: int)
    requires
        0 <= a,
        1 <= b,
        2 * a < b,
    ensures
        round_div(a, b) == 0,
{
    assert(a < b);
    assert(a % b == a && a / b == 0) by (nonlinear_arith)
        requires
            0 <= a < b,
    ;
}

pub proof fn lemma_round_div_le(a: int, b: int, c: int)
    requires
        0 <= a,
        1 <= b,
        0 <= c,
        a <= b * c,
    ensures
        round_div(a, b) <= c,
{
    assert(b * (a / b) + a % b == a && 0 <= a % b < b) by (nonlinear_arith)
        requires
            0 <= a && 1 <= b,
    ;
    assert(a / b <= c) by (nonlinear_arith)
        requires
            b * (a / b) + a % b == a && 0 <= a % b && 1 <= b && a <= b * c,
    ;
    if 2 * (a % b) >= b {
        assert(a % b >= 1);
        if a / b == c {
            assert(b * c + 1 <= a);
            assert(false) by (nonlinear_arith)
                requires
                    b * c + 1 <= a && a <= b * c,
            ;
        }
    }
}

pub proof fn lemma_round_div_one(a: int)
    requires
        a >= 0,
    ensures
        round_div(a, 1) == a,
{
    assert(a % 1 == 0 && a / 1 == a) by (nonlinear_arith)
        requires
            a >= 0,
    ;
}

} // verus!
