//! The double nearest to a quotient of integers, ties to even, bit for bit: what is
//! rational enters floating point once, rounded correctly.
//!
//! The quotient `p / q` of magnitudes is scaled by a power of 2 until its integer
//! part has 54 bits: the 53 of a double and the rounding bit. Whether anything is
//! left below decides the ties.
use vstd::prelude::*;
use vstd::arithmetic::div_mod::*;
use vstd::arithmetic::power2::*;

use super::{abs, magnitude};

verus! {

/// `floor(p 2^k / q)`, for a shift `k` of either sign.
pub open spec fn scaled(p: nat, q: nat, k: int) -> int {
    if k >= 0 {
        (p * pow2(k as nat)) as int / q as int
    } else {
        p as int / (q * pow2((-k) as nat)) as int
    }
}

/// Whether `p 2^k / q` is whole.
pub open spec fn whole_at(p: nat, q: nat, k: int) -> bool {
    if k >= 0 {
        (p * pow2(k as nat)) as int % q as int == 0
    } else {
        p as int % (q * pow2((-k) as nat)) as int == 0
    }
}

/// Whether `floor(p 2^k / q)` has 54 bits.
pub open spec fn leading(p: nat, q: nat, k: int) -> bool {
    pow2(53) <= scaled(p, q, k) < pow2(54)
}

/// The shift that gives `p / q` 54 bits.
pub open spec fn shift_of(p: nat, q: nat) -> int {
    choose|k: int| leading(p, q, k)
}

/// The exponent and the significand, of 53 bits with the leading one, of the double
/// nearest to `p / q`, ties to even.
pub open spec fn rounded(p: nat, q: nat) -> (int, int) {
    let k = shift_of(p, q);
    let t = scaled(p, q, k);
    let m = t / 2;
    let up = t % 2 == 1 && (!whole_at(p, q, k) || m % 2 == 1);
    let n = if up {
        m + 1
    } else {
        m
    };
    if n == pow2(53) {
        (54 - k, pow2(52) as int)
    } else {
        (53 - k, n)
    }
}

/// Whether the double nearest to `n / d` is 0 or normal: a divisor that is not 0, and
/// an exponent from -1022 to 1023.
pub open spec fn normal_quotient(n: int, d: int) -> bool {
    &&& d != 0
    &&& n == 0 || -1022 <= rounded(abs(n), abs(d)).0 <= 1023
}

/// The bits of the double nearest to `n / d`, ties to even: its sign, its biased
/// exponent, and the 52 bits of its significand after the leading one.
pub open spec fn nearest_bits(n: int, d: int) -> int {
    if n == 0 {
        0
    } else {
        let (e, m) = rounded(abs(n), abs(d));
        let sign = if (n < 0) != (d < 0) {
            pow2(63) as int
        } else {
            0
        };
        sign + (e + 1023) * pow2(52) + (m - pow2(52))
    }
}

/// One more bit of shift doubles the integer part, and adds the next bit.
pub proof fn lemma_scaled_step(p: nat, q: nat, k: int)
    requires
        1 <= q,
    ensures
        2 * scaled(p, q, k) <= scaled(p, q, k + 1) <= 2 * scaled(p, q, k) + 1,
        0 <= scaled(p, q, k),
{
    lemma_pow2_pos(0);
    if k >= 0 {
        let x = (p * pow2(k as nat)) as int;
        lemma_pow2_unfold((k + 1) as nat);
        assert(p * pow2((k + 1) as nat) == 2 * x) by (nonlinear_arith)
            requires
                pow2((k + 1) as nat) == 2 * pow2(k as nat),
                x == p * pow2(k as nat),
        ;
        lemma_fundamental_div_mod(x, q as int);
        lemma_mod_pos_bound(x, q as int);
        assert(0 <= x) by (nonlinear_arith)
            requires
                x == p * pow2(k as nat),
        ;
        lemma_div_pos_is_pos(x, q as int);
        let (a, r) = (x / q as int, x % q as int);
        assert(2 * x == (2 * a) * q + 2 * r) by (nonlinear_arith)
            requires
                x == q * a + r,
        ;
        assert(2 * x == (2 * a + 1) * q + (2 * r - q)) by (nonlinear_arith)
            requires
                x == q * a + r,
        ;
        if 2 * r < q {
            lemma_fundamental_div_mod_converse(2 * x, q as int, 2 * a, 2 * r);
        } else {
            lemma_fundamental_div_mod_converse(2 * x, q as int, 2 * a + 1, 2 * r - q);
        }
    } else {
        let d = (q * pow2((-k - 1) as nat)) as int;
        lemma_pow2_pos((-k - 1) as nat);
        lemma_pow2_unfold((-k) as nat);
        assert(1 <= d) by (nonlinear_arith)
            requires
                d == q * pow2((-k - 1) as nat),
                1 <= q,
                1 <= pow2((-k - 1) as nat),
        ;
        assert(q * pow2((-k) as nat) == d * 2) by (nonlinear_arith)
            requires
                pow2((-k) as nat) == 2 * pow2((-k - 1) as nat),
                d == q * pow2((-k - 1) as nat),
        ;
        lemma_div_denominator(p as int, d, 2);
        lemma_div_pos_is_pos(p as int, d);
        let a = p as int / d;
        if k + 1 >= 0 {
            assert(k + 1 == 0);
            assert((-k - 1) as nat == 0nat);
            assert(pow2(0) == 1) by {
                lemma_pow2(0);
                vstd::arithmetic::power::lemma_pow0(2);
            }
            assert(d == q);
            assert(p * pow2(0) == p);
        }
        lemma_fundamental_div_mod(a, 2);
        lemma_mod_pos_bound(a, 2);
    }
}

/// `s` more bits of shift multiply the integer part by `2^s` at least.
pub proof fn lemma_scaled_grows(p: nat, q: nat, k: int, s: nat)
    requires
        1 <= q,
    ensures
        pow2(s) * scaled(p, q, k) <= scaled(p, q, k + s),
    decreases s,
{
    if s == 0 {
        lemma_pow2(0);
        vstd::arithmetic::power::lemma_pow0(2);
    } else {
        lemma_scaled_grows(p, q, k, (s - 1) as nat);
        lemma_scaled_step(p, q, k + s - 1);
        lemma_pow2_unfold(s);
        lemma_scaled_step(p, q, k);
        assert(pow2(s) * scaled(p, q, k) == 2 * (pow2((s - 1) as nat) * scaled(p, q, k))) by (nonlinear_arith)
            requires
                pow2(s) == 2 * pow2((s - 1) as nat),
        ;
    }
}

/// One shift only gives a quotient 54 bits.
pub proof fn lemma_leading_unique(p: nat, q: nat, k1: int, k2: int)
    requires
        1 <= q,
        leading(p, q, k1),
        leading(p, q, k2),
    ensures
        k1 == k2,
{
    if k1 < k2 {
        lemma_scaled_grows(p, q, k1, (k2 - k1) as nat);
        lemma_pow2_strictly_increases(0, (k2 - k1) as nat);
        lemma_pow2(0);
        vstd::arithmetic::power::lemma_pow0(2);
        lemma_pow2_unfold(54);
        assert(pow2((k2 - k1) as nat) * scaled(p, q, k1) >= 2 * pow2(53)) by (nonlinear_arith)
            requires
                pow2((k2 - k1) as nat) >= 2,
                scaled(p, q, k1) >= pow2(53),
        ;
    } else if k2 < k1 {
        lemma_scaled_grows(p, q, k2, (k1 - k2) as nat);
        lemma_pow2_strictly_increases(0, (k1 - k2) as nat);
        lemma_pow2(0);
        vstd::arithmetic::power::lemma_pow0(2);
        lemma_pow2_unfold(54);
        assert(pow2((k1 - k2) as nat) * scaled(p, q, k2) >= 2 * pow2(53)) by (nonlinear_arith)
            requires
                pow2((k1 - k2) as nat) >= 2,
                scaled(p, q, k2) >= pow2(53),
        ;
    }
}


/// The powers of 2 that the rounding names.
proof fn lemma_powers()
    ensures
        pow2(52) == 0x10_0000_0000_0000,
        pow2(53) == 0x20_0000_0000_0000,
        pow2(54) == 0x40_0000_0000_0000,
        pow2(63) == 0x8000_0000_0000_0000,
        pow2(127) == 0x8000_0000_0000_0000_0000_0000_0000_0000,
        pow2(180) == pow2(53) * pow2(127),
        pow2(128) == 0x1_0000_0000_0000_0000_0000_0000_0000_0000,
        pow2(128) == pow2(54) * pow2(74),
        pow2(0) == 1,
{
    lemma2_to64();
    lemma2_to64_rest();
    lemma_pow2_adds(53, 127);
    lemma_pow2_adds(63, 64);
    lemma_pow2_adds(64, 63);
    assert(pow2(127) == 0x8000_0000_0000_0000_0000_0000_0000_0000) by {
        lemma_pow2_adds(64, 63);
        assert(0x1_0000_0000_0000_0000int * 0x8000_0000_0000_0000int
            == 0x8000_0000_0000_0000_0000_0000_0000_0000int);
    }
    assert(pow2(128) == 0x1_0000_0000_0000_0000_0000_0000_0000_0000) by {
        lemma_pow2_adds(64, 64);
        assert(0x1_0000_0000_0000_0000int * 0x1_0000_0000_0000_0000int
            == 0x1_0000_0000_0000_0000_0000_0000_0000_0000int);
    }
    lemma_pow2_adds(54, 74);
}

/// The integer part of `p / q` with 54 bits, by long division, where it has fewer
/// bits before: the part, its shift, and whether nothing is left.
fn long_division(p: u128, q: u128) -> (result: (u128, u32, bool))
    requires
        1 <= p,
        1 <= q <= 0x8000_0000_0000_0000_0000_0000_0000_0000u128,
        p / q < 0x40_0000_0000_0000,
    ensures
        leading(p as nat, q as nat, result.1 as int),
        result.0 == scaled(p as nat, q as nat, result.1 as int),
        result.2 == whole_at(p as nat, q as nat, result.1 as int),
        result.1 <= 180,
{
    proof {
        lemma_powers();
    }
    let mut t: u128 = p / q;
    let mut rest: u128 = p % q;
    let mut j: u32 = 0;
    proof {
        lemma_fundamental_div_mod(p as int, q as int);
        assert(p * pow2(0) == p);
    }
    while t < 0x20_0000_0000_0000
        invariant
            1 <= p,
            1 <= q <= 0x8000_0000_0000_0000_0000_0000_0000_0000u128,
            p * pow2(j as nat) == t * q + rest,
            rest < q,
            t < 0x40_0000_0000_0000,
            j <= 180,
            pow2(53) == 0x20_0000_0000_0000,
            pow2(54) == 0x40_0000_0000_0000,
            pow2(127) == 0x8000_0000_0000_0000_0000_0000_0000_0000,
            pow2(180) == pow2(53) * pow2(127),
        decreases 180 - j,
    {
        proof {
            assert(p * pow2(j as nat) < pow2(180)) by (nonlinear_arith)
                requires
                    p * pow2(j as nat) == t * q + rest,
                    rest < q,
                    t + 1 <= pow2(53),
                    q <= pow2(127),
                    pow2(180) == pow2(53) * pow2(127),
            ;
            lemma_pow2_pos(j as nat);
            assert(pow2(j as nat) <= p * pow2(j as nat)) by (nonlinear_arith)
                requires
                    1 <= p,
                    0 < pow2(j as nat),
            ;
            if j >= 180 {
                if j > 180 {
                    lemma_pow2_strictly_increases(180, j as nat);
                }
            }
            assert(j < 180);
            lemma_pow2_unfold((j + 1) as nat);
        }
        let ghost (t0, r0) = (t, rest);
        let doubled = rest * 2;
        if doubled >= q {
            rest = doubled - q;
            t = t * 2 + 1;
            assert(t * q + rest == 2 * (t0 * q + r0)) by (nonlinear_arith)
                requires
                    t == 2 * t0 + 1,
                    rest == 2 * r0 - q,
            ;
        } else {
            rest = doubled;
            t = t * 2;
            assert(t * q + rest == 2 * (t0 * q + r0)) by (nonlinear_arith)
                requires
                    t == 2 * t0,
                    rest == 2 * r0,
            ;
        }
        proof {
            assert(p * pow2((j + 1) as nat) == 2 * (p * pow2(j as nat))) by (nonlinear_arith)
                requires
                    pow2((j + 1) as nat) == 2 * pow2(j as nat),
            ;
        }
        j += 1;
    }
    proof {
        assert(p * pow2(j as nat) >= 0) by (nonlinear_arith)
            requires
                1 <= p,
        ;
        lemma_fundamental_div_mod_converse((p * pow2(j as nat)) as int, q as int, t as int, rest as int);
    }
    (t, j, rest == 0)
}

/// The integer part of a whole number of more than 54 bits, its low bits shifted
/// out: the part, how many bits went, and whether any of them was one.
fn shifted(whole: u128) -> (result: (u128, u32, bool))
    requires
        0x40_0000_0000_0000 <= whole,
    ensures
        result.0 == whole as int / pow2(result.1 as nat) as int,
        result.2 == (whole as int % pow2(result.1 as nat) as int != 0),
        pow2(53) <= result.0 < pow2(54),
        result.1 <= 74,
{
    proof {
        lemma_powers();
    }
    let mut t: u128 = whole;
    let mut dropped: u32 = 0;
    let mut lost = false;
    proof {
        lemma_pow2(0);
    }
    while t >= 0x40_0000_0000_0000
        invariant
            0x40_0000_0000_0000 <= whole,
            t == whole as int / pow2(dropped as nat) as int,
            lost == (whole as int % pow2(dropped as nat) as int != 0),
            t >= 0x20_0000_0000_0000,
            dropped <= 74,
            pow2(53) == 0x20_0000_0000_0000,
            pow2(54) == 0x40_0000_0000_0000,
            pow2(128) == 0x1_0000_0000_0000_0000_0000_0000_0000_0000,
            pow2(128) == pow2(54) * pow2(74),
            pow2(0) == 1,
        decreases t,
    {
        proof {
            lemma_pow2_pos(dropped as nat);
            lemma_pow2_unfold((dropped + 1) as nat);
            lemma_div_denominator(whole as int, pow2(dropped as nat) as int, 2);
            lemma_mod_breakdown(whole as int, pow2(dropped as nat) as int, 2);
            lemma_mod_pos_bound(whole as int, pow2(dropped as nat) as int);
            lemma_mod_pos_bound(t as int, 2);
            assert(pow2(dropped as nat) * 2 == pow2((dropped + 1) as nat));
            lemma_fundamental_div_mod(whole as int, pow2(dropped as nat) as int);
            assert(t * pow2(dropped as nat) <= whole) by (nonlinear_arith)
                requires
                    whole == pow2(dropped as nat) * t + whole as int % pow2(dropped as nat) as int,
                    0 <= whole as int % pow2(dropped as nat) as int,
            ;
            if dropped >= 74 {
                if dropped > 74 {
                    lemma_pow2_strictly_increases(74, dropped as nat);
                }
                assert(t * pow2(dropped as nat) >= pow2(54) * pow2(74)) by (nonlinear_arith)
                    requires
                        t >= pow2(54),
                        pow2(dropped as nat) >= pow2(74),
                ;
            }
            assert(dropped < 74);
            let low = whole as int % pow2(dropped as nat) as int;
            assert(whole as int % pow2((dropped + 1) as nat) as int == pow2(dropped as nat) * (t as int % 2)
                + low);
            if t % 2 == 1 {
                assert(pow2(dropped as nat) * (t as int % 2) == pow2(dropped as nat));
            } else {
                assert(t as int % 2 == 0);
                assert(pow2(dropped as nat) * (t as int % 2) == 0) by (nonlinear_arith)
                    requires
                        t as int % 2 == 0,
                ;
            }
        }
        lost = lost || t % 2 == 1;
        t = t / 2;
        dropped += 1;
    }
    (t, dropped, lost)
}


/// The bits of the double nearest to `numerator / denominator`, ties to even, for
/// quotients whose magnitude is 0 or a normal double: the sign, the biased exponent
/// and the 52 bits after the leading one of the significand, as `f64::to_bits` gives
/// them. Zero is `+0`.
pub fn quotient_bits(numerator: i128, denominator: i128) -> (bits: u64)
    requires
        normal_quotient(numerator as int, denominator as int),
    ensures
        bits == nearest_bits(numerator as int, denominator as int),
{
    if numerator == 0 {
        return 0;
    }
    proof {
        lemma_powers();
    }
    let negative = (numerator < 0) != (denominator < 0);
    let p = magnitude(numerator);
    let q = magnitude(denominator);
    let ghost (pn, qn) = (p as nat, q as nat);
    let whole = p / q;
    let rest = p % q;
    let (t, shift, exact): (u128, i32, bool) = if whole >= 0x40_0000_0000_0000 {
        let (t, dropped, lost) = shifted(whole);
        proof {
            let d = dropped as nat;
            lemma_pow2_pos(d);
            lemma_div_denominator(p as int, q as int, pow2(d) as int);
            lemma_mod_breakdown(p as int, q as int, pow2(d) as int);
            lemma_mod_pos_bound(whole as int, pow2(d) as int);
            lemma_mod_pos_bound(p as int, q as int);
            if dropped == 0 {
                assert(whole as int / pow2(0) as int == whole);
            }
            assert(dropped >= 1);
            let k = -(dropped as int);
            assert(k < 0);
            assert((-k) as nat == d);
            assert(p as int / q as int == whole);
            assert((p as int / q as int) / pow2(d) as int == p as int / (q as int * pow2(d) as int));
            assert((qn * pow2(d)) as int == q as int * pow2(d) as int);
            assert(scaled(pn, qn, k) == p as int / (q as int * pow2(d) as int));
            assert(scaled(pn, qn, k) == t);
            let low = whole as int % pow2(d) as int;
            assert(p as int % (q * pow2(d)) as int == q * low + rest);
            if low != 0 {
                assert(q * low >= q) by (nonlinear_arith)
                    requires
                        low >= 1,
                        q >= 1,
                ;
            } else {
                assert(q * low == 0) by (nonlinear_arith)
                    requires
                        low == 0,
                ;
            }
            assert(whole_at(pn, qn, k) == (!lost && rest == 0));
        }
        (t, -(dropped as i32), !lost && rest == 0)
    } else {
        let (t, j, exact) = long_division(p, q);
        (t, j as i32, exact)
    };
    proof {
        assert(leading(pn, qn, shift as int));
        assert(exists|k: int| leading(pn, qn, k));
        lemma_leading_unique(pn, qn, shift as int, shift_of(pn, qn));
        assert(shift_of(pn, qn) == shift);
    }
    let half = t / 2;
    let up = t % 2 == 1 && (!exact || half % 2 == 1);
    let mut significand: u128 = if up {
        half + 1
    } else {
        half
    };
    let mut exponent: i32 = 53 - shift;
    if significand == 0x20_0000_0000_0000 {
        significand = 0x10_0000_0000_0000;
        exponent = exponent + 1;
    }
    proof {
        assert(rounded(pn, qn) == (exponent as int, significand as int));
        assert(-1022 <= exponent <= 1023);
        assert(0x10_0000_0000_0000 <= significand < 0x20_0000_0000_0000);
    }
    let biased = (exponent + 1023) as u64;
    let fraction = (significand - 0x10_0000_0000_0000) as u64;
    let sign: u64 = if negative {
        0x8000_0000_0000_0000
    } else {
        0
    };
    sign + biased * 0x10_0000_0000_0000 + fraction
}

/// A positive integer lies between two powers of 2: `2^e <= v < 2^(e + 1)`.
proof fn lemma_bit_length(v: nat) -> (e: nat)
    requires
        v >= 1,
    ensures
        pow2(e) <= v < pow2(e + 1),
    decreases v,
{
    if v == 1 {
        lemma2_to64();
        0
    } else {
        let e = lemma_bit_length(v / 2);
        lemma_pow2_unfold(e + 1);
        lemma_pow2_unfold(e + 2);
        e + 1
    }
}

/// An integer of `e + 1` bits, taken `53 - e` bits to the left, has 54.
proof fn lemma_integer_leading(v: nat, e: nat)
    requires
        pow2(e) <= v < pow2(e + 1),
    ensures
        leading(v, 1, 53 - e),
{
    lemma_pow2_unfold(54);
    if e <= 53 {
        let k = (53 - e) as nat;
        lemma_pow2_adds(e, k);
        lemma_pow2_adds(e + 1, k);
        lemma_pow2_pos(k);
        assert(pow2(e) * pow2(k) <= v * pow2(k) < pow2(e + 1) * pow2(k)) by (nonlinear_arith)
            requires
                pow2(e) <= v < pow2(e + 1),
                pow2(k) > 0,
        ;
        assert(e + k == 53);
        assert((v * pow2(k)) as int / 1int == v * pow2(k));
    } else {
        let d = (e - 53) as nat;
        lemma_pow2_adds(53, d);
        lemma_pow2_adds(54, d);
        lemma_pow2_pos(d);
        assert(53 + d == e);
        assert(1 * pow2(d) == pow2(d));
        lemma_div_by_multiple(pow2(53) as int, pow2(d) as int);
        lemma_div_is_ordered((pow2(53) * pow2(d)) as int, v as int, pow2(d) as int);
        lemma_multiply_divide_lt(v as int, pow2(d) as int, pow2(54) as int);
        assert(pow2(54) * pow2(d) == pow2(d) * pow2(54)) by (nonlinear_arith);
    }
}

/// An integer's double: its exponent is that of its leading bit, at most 127 for an
/// `i128`.
proof fn lemma_integer_normal(value: int)
    requires
        i128::MIN <= value <= i128::MAX,
    ensures
        normal_quotient(value, 1),
{
    if value != 0 {
        let v = abs(value);
        lemma_powers();
        let e = lemma_bit_length(v);
        if e >= 128 {
            lemma_pow2_strictly_increases(127, e);
        }
        assert(e <= 127);
        lemma_integer_leading(v, e);
        let k = shift_of(v, 1);
        lemma_leading_unique(v, 1, 53 - e, k);
    }
}

/// The bits of the double nearest to an integer, ties to even (`value as f64`).
pub fn nearest_from_i128(value: i128) -> (bits: u64)
    ensures
        bits == nearest_bits(value as int, 1),
{
    proof {
        lemma_integer_normal(value as int);
    }
    quotient_bits(value, 1)
}

/// The bits of the double nearest to an integer, ties to even.
pub fn nearest_from_u64(value: u64) -> (bits: u64)
    ensures
        bits == nearest_bits(value as int, 1),
{
    nearest_from_i128(value as i128)
}

/// The bits of the double nearest to a count, ties to even; exact below `2^53`.
pub fn nearest_from_usize(value: usize) -> (bits: u64)
    ensures
        bits == nearest_bits(value as int, 1),
{
    nearest_from_u64(value as u64)
}

} // verus!
