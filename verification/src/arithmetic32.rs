//! IEEE-754 binary32 arithmetic on bit patterns, in integers.
//!
//! A finite pattern stands for `(-1)^sign * mantissa * 2^unit_exponent`.
//! Every operation forms its exact result as a sign, a magnitude and a power
//! of two, and rounds it to the nearest pattern, ties to the even mantissa.
//! Where the exact result is no dyadic number (a quotient, a root), the
//! magnitude is cut off well below the mantissa and its lowest bit records
//! that something was cut, which leaves the rounding unchanged. Operations
//! on values that are no numbers give the one pattern `NAN_BITS`.
//!
//! The definitions of the operations are opaque, to keep them out of proofs
//! that only pass values on: a proof that needs one reveals it.

use vstd::prelude::*;
use vstd::arithmetic::div_mod::{
    lemma_div_multiples_vanish,
    lemma_div_multiples_vanish_quotient,
    lemma_fundamental_div_mod,
    lemma_mod_multiples_basic,
    lemma_truncate_middle,
};
use vstd::arithmetic::power2::{
    lemma2_to64,
    lemma2_to64_rest,
    lemma_pow2_adds,
    lemma_pow2_pos,
    lemma_pow2_strictly_increases,
    lemma_pow2_unfold,
    pow2,
};

verus! {

/// The sign bit.
pub const SIGN_BIT: u32 = 0x8000_0000;

/// Bit pattern of positive infinity.
pub const INFINITY_BITS: u32 = 0x7F80_0000;

/// The bit pattern that stands for every value that is no number.
pub const NAN_BITS: u32 = 0x7FC0_0000;

/// Weight of the lowest exponent bit, and the implicit leading mantissa bit.
pub const MANTISSA_UNIT: u32 = 0x80_0000;

/// Bit pattern of `0.0`.
pub const ZERO_BITS: u32 = 0;

/// Bit pattern of `1.0`.
pub const ONE_BITS: u32 = 0x3F80_0000;

/// Bit pattern of `-0.0`.
pub const NEGATIVE_ZERO_BITS: u32 = 0x8000_0000;

/// Bit pattern of `0.5`.
pub const HALF_BITS: u32 = 0x3F00_0000;

/// Bit pattern of `2.0`.
pub const TWO_BITS: u32 = 0x4000_0000;

/// The sign bit is set.
pub open spec fn is_negative(bits: u32) -> bool {
    bits >= SIGN_BIT
}

/// The pattern without its sign.
pub open spec fn abs_bits(bits: u32) -> u32 {
    if bits >= SIGN_BIT {
        (bits - SIGN_BIT) as u32
    } else {
        bits
    }
}

/// The pattern stands for no number.
pub open spec fn is_nan(bits: u32) -> bool {
    abs_bits(bits) > INFINITY_BITS
}

/// The pattern stands for an infinity.
pub open spec fn is_infinite(bits: u32) -> bool {
    abs_bits(bits) == INFINITY_BITS
}

/// The pattern stands for a zero.
pub open spec fn is_zero(bits: u32) -> bool {
    abs_bits(bits) == 0
}

/// The pattern stands for a number that is not infinite.
pub open spec fn is_finite(bits: u32) -> bool {
    abs_bits(bits) < INFINITY_BITS
}

/// The mantissa of a finite pattern, with its leading bit where it is normal.
pub open spec fn mantissa(bits: u32) -> nat {
    let e = abs_bits(bits) / MANTISSA_UNIT;
    let m = abs_bits(bits) % MANTISSA_UNIT;
    if e == 0 {
        m as nat
    } else {
        (MANTISSA_UNIT + m) as nat
    }
}

/// The power of two that one unit of the mantissa of a finite pattern is
/// worth.
pub open spec fn unit_exponent(bits: u32) -> int {
    let e = abs_bits(bits) / MANTISSA_UNIT;
    if e == 0 {
        -149
    } else {
        e - 150
    }
}

/// The pattern with its sign changed.
pub open spec fn negated(bits: u32) -> u32 {
    if bits >= SIGN_BIT {
        (bits - SIGN_BIT) as u32
    } else {
        (bits + SIGN_BIT) as u32
    }
}

/// Number of bits of `n`.
pub open spec fn bit_length(n: nat) -> nat
    decreases n,
{
    if n == 0 {
        0
    } else {
        1 + bit_length(n / 2)
    }
}

/// `mag / 2^drop` rounded to the nearest integer, ties to even.
pub open spec fn round_even_nat(mag: nat, drop: nat) -> nat {
    let p = pow2(drop);
    let q = mag / p;
    let r = mag % p;
    if 2 * r > p || (2 * r == p && q % 2 == 1) {
        q + 1
    } else {
        q
    }
}

/// The unit exponent at which `mag * 2^exp` is rounded: so that the mantissa
/// has 24 bits, but not below the unit of the smallest patterns.
pub open spec fn rounding_unit(mag: nat, exp: int) -> int {
    let u = bit_length(mag) - 24 + exp;
    if u < -149 {
        -149
    } else {
        u
    }
}

/// The pattern nearest to `(-1)^negative * mag * 2^exp`, ties to the even
/// mantissa; an infinity where the value is beyond the largest pattern.
#[verifier::opaque]
pub open spec fn round_pack(negative: bool, mag: nat, exp: int) -> u32 {
    let sign: nat = if negative {
        SIGN_BIT as nat
    } else {
        0
    };
    if mag == 0 {
        sign as u32
    } else {
        let u = rounding_unit(mag, exp);
        let q = if u <= exp {
            mag * pow2((exp - u) as nat)
        } else {
            round_even_nat(mag, (u - exp) as nat)
        };
        let body = (u + 149) * MANTISSA_UNIT + q;
        if body >= INFINITY_BITS {
            (sign + INFINITY_BITS) as u32
        } else {
            (sign + body) as u32
        }
    }
}

/// A number with bits has at least the weight of its highest bit and less
/// than twice that.
pub proof fn lemma_bit_length_bounds(n: nat)
    requires
        n > 0,
    ensures
        bit_length(n) >= 1,
        pow2((bit_length(n) - 1) as nat) <= n < pow2(bit_length(n)),
    decreases n,
{
    lemma2_to64();
    if n == 1 {
        assert(bit_length(1) == 1 + bit_length(0));
    } else {
        lemma_bit_length_bounds(n / 2);
        lemma_pow2_unfold(bit_length(n));
        lemma_pow2_unfold((bit_length(n) - 1) as nat);
    }
}

/// A number below `2^k` has at most `k` bits.
pub proof fn lemma_bit_length_limit(n: nat, k: nat)
    requires
        n < pow2(k),
    ensures
        bit_length(n) <= k,
{
    if n > 0 {
        lemma_bit_length_bounds(n);
        if bit_length(n) > k {
            if bit_length(n) - 1 > k {
                lemma_pow2_strictly_increases(k, (bit_length(n) - 1) as nat);
            }
        }
    }
}

/// `2^k` as a machine integer.
fn power_of_two(k: u32) -> (p: u128)
    requires
        k <= 120,
    ensures
        p == pow2(k as nat),
        p >= 1,
{
    let mut p: u128 = 1;
    let mut i: u32 = 0;
    proof {
        lemma2_to64();
    }
    while i < k
        invariant
            i <= k <= 120,
            p == pow2(i as nat),
            p >= 1,
        decreases k - i,
    {
        proof {
            lemma_pow2_unfold((i + 1) as nat);
            if i + 1 < 120 {
                lemma_pow2_strictly_increases((i + 1) as nat, 120);
            }
            lemma_pow2_adds(60, 60);
            lemma2_to64_rest();
        }
        p = p * 2;
        i += 1;
    }
    p
}

/// Counts the bits of `n`.
fn count_bits(n: u128) -> (len: u32)
    requires
        n < 0x10_0000_0000_0000_0000_0000_0000,
    ensures
        len == bit_length(n as nat),
        len <= 100,
{
    proof {
        lemma_pow2_adds(50, 50);
        lemma2_to64_rest();
        lemma_bit_length_limit(n as nat, 100);
    }
    let mut len: u32 = 0;
    let mut rest: u128 = n;
    while rest > 0
        invariant
            bit_length(n as nat) == len + bit_length(rest as nat),
            bit_length(n as nat) <= 100,
        decreases rest,
    {
        rest = rest / 2;
        len += 1;
    }
    len
}

/// Rounds `(-1)^negative * mag * 2^exp` to the nearest pattern.
pub fn round_pack_bits(negative: bool, mag: u128, exp: i32) -> (bits: u32)
    requires
        mag < 0x10_0000_0000_0000_0000_0000_0000,
        -1000 <= exp <= 1000,
    ensures
        bits == round_pack(negative, mag as nat, exp as int),
{
    proof {
        reveal(round_pack);
    }
    let sign: u32 = if negative {
        SIGN_BIT
    } else {
        0
    };
    if mag == 0 {
        return sign;
    }
    let len: u32 = count_bits(mag);
    let natural: i32 = len as i32 - 24 + exp;
    let u: i32 = if natural < -149 {
        -149
    } else {
        natural
    };
    proof {
        lemma_bit_length_bounds(mag as nat);
        lemma2_to64();
        lemma2_to64_rest();
    }
    let q: u128 = if u <= exp {
        let shift: u32 = (exp - u) as u32;
        let p: u128 = power_of_two(shift);
        proof {
            // at most 24 bits after the shift
            assert(len + shift <= 24);
            lemma_pow2_adds(len as nat, shift as nat);
            if len + shift < 24 {
                lemma_pow2_strictly_increases((len + shift) as nat, 24);
            }
            assert(mag * p < pow2(len as nat) * pow2(shift as nat)) by (nonlinear_arith)
                requires
                    mag < pow2(len as nat),
                    p == pow2(shift as nat),
                    p >= 1,
            ;
        }
        mag * p
    } else {
        let drop: u32 = (u - exp) as u32;
        if drop >= 110 {
            proof {
                lemma_pow2_adds(50, 50);
                lemma_pow2_strictly_increases(101, drop as nat);
                lemma_pow2_unfold(101);
                let p = pow2(drop as nat);
                assert(2 * mag < p);
                assert(mag as nat / p == 0 && mag as nat % p == mag) by (nonlinear_arith)
                    requires
                        0 <= mag < p,
                ;
            }
            0
        } else {
            let p: u128 = power_of_two(drop);
            let whole: u128 = mag / p;
            let rest: u128 = mag % p;
            proof {
                lemma_pow2_strictly_increases(drop as nat, 110);
                lemma_pow2_adds(55, 55);
                // the quotient has at most 24 bits
                assert(len <= drop + 24);
                lemma_pow2_adds(drop as nat, 24);
                if len < drop + 24 {
                    lemma_pow2_strictly_increases(len as nat, (drop + 24) as nat);
                }
                assert(whole < 0x100_0000) by (nonlinear_arith)
                    requires
                        mag < p * 0x100_0000,
                        whole == mag / p,
                        p >= 1,
                ;
            }
            if 2 * rest > p || (2 * rest == p && whole % 2 == 1) {
                whole + 1
            } else {
                whole
            }
        }
    };
    assert(q <= 0x100_0000);
    if u + 149 >= 255 {
        proof {
            assert((u + 149) * MANTISSA_UNIT + q >= INFINITY_BITS) by (nonlinear_arith)
                requires
                    u + 149 >= 255,
                    q >= 0,
                    MANTISSA_UNIT == 0x80_0000,
                    INFINITY_BITS == 0x7F80_0000,
            ;
        }
        return sign + INFINITY_BITS;
    }
    let body: u64 = (u + 149) as u64 * (MANTISSA_UNIT as u64) + q as u64;
    if body >= INFINITY_BITS as u64 {
        sign + INFINITY_BITS
    } else {
        sign + body as u32
    }
}

/// The pattern of the given sign and magnitude pattern.
pub open spec fn with_sign(negative: bool, magnitude: u32) -> u32 {
    if negative {
        (magnitude + SIGN_BIT) as u32
    } else {
        magnitude
    }
}

/// The product of two patterns.
#[verifier::opaque]
pub open spec fn product(a: u32, b: u32) -> u32 {
    let negative = is_negative(a) != is_negative(b);
    if is_nan(a) || is_nan(b) {
        NAN_BITS
    } else if is_infinite(a) || is_infinite(b) {
        if is_zero(a) || is_zero(b) {
            NAN_BITS
        } else {
            with_sign(negative, INFINITY_BITS)
        }
    } else {
        round_pack(negative, mantissa(a) * mantissa(b), unit_exponent(a) + unit_exponent(b))
    }
}

/// The sum of two finite patterns that are not zero, the first with the
/// larger unit. An addend more than sixty binary places below the unit of
/// the other is too small to move it.
#[verifier::opaque]
pub open spec fn aligned_sum(hi: u32, lo: u32) -> u32 {
    let gap = unit_exponent(hi) - unit_exponent(lo);
    if gap > 60 {
        hi
    } else {
        let x = mantissa(hi) * pow2(gap as nat);
        let y = mantissa(lo);
        if is_negative(hi) == is_negative(lo) {
            round_pack(is_negative(hi), x + y, unit_exponent(lo))
        } else if x == y {
            0
        } else if x > y {
            round_pack(is_negative(hi), (x - y) as nat, unit_exponent(lo))
        } else {
            round_pack(is_negative(lo), (y - x) as nat, unit_exponent(lo))
        }
    }
}

/// The sum of two patterns.
#[verifier::opaque]
pub open spec fn sum(a: u32, b: u32) -> u32 {
    if is_nan(a) || is_nan(b) {
        NAN_BITS
    } else if is_infinite(a) {
        if is_infinite(b) && is_negative(a) != is_negative(b) {
            NAN_BITS
        } else {
            a
        }
    } else if is_infinite(b) {
        b
    } else if is_zero(a) && is_zero(b) {
        if is_negative(a) == is_negative(b) {
            a
        } else {
            0
        }
    } else if is_zero(a) {
        b
    } else if is_zero(b) {
        a
    } else if unit_exponent(a) >= unit_exponent(b) {
        aligned_sum(a, b)
    } else {
        aligned_sum(b, a)
    }
}

/// The difference of two patterns.
#[verifier::opaque]
pub open spec fn difference(a: u32, b: u32) -> u32 {
    if is_nan(b) {
        NAN_BITS
    } else {
        sum(a, negated(b))
    }
}

/// The quotient of two patterns. The mantissa of the dividend is taken fifty
/// binary places further before the division.
#[verifier::opaque]
pub open spec fn quotient(a: u32, b: u32) -> u32 {
    let negative = is_negative(a) != is_negative(b);
    if is_nan(a) || is_nan(b) {
        NAN_BITS
    } else if is_infinite(a) {
        if is_infinite(b) {
            NAN_BITS
        } else {
            with_sign(negative, INFINITY_BITS)
        }
    } else if is_infinite(b) {
        with_sign(negative, 0)
    } else if is_zero(b) {
        if is_zero(a) {
            NAN_BITS
        } else {
            with_sign(negative, INFINITY_BITS)
        }
    } else if is_zero(a) {
        with_sign(negative, 0)
    } else {
        let n = mantissa(a) * 0x4_0000_0000_0000;
        let d = mantissa(b);
        let cut: nat = if n % d != 0 {
            1
        } else {
            0
        };
        round_pack(negative, (n / d) * 2 + cut, unit_exponent(a) - unit_exponent(b) - 51)
    }
}

/// `r` is the integer square root of `n`.
pub open spec fn is_int_sqrt(r: nat, n: nat) -> bool {
    r * r <= n < (r + 1) * (r + 1)
}

/// The integer square root of `n`.
pub open spec fn int_sqrt(n: nat) -> nat {
    choose|r: nat| is_int_sqrt(r, n)
}

/// The square root of a pattern. The mantissa is taken to an even unit and
/// fifty-two binary places further before the root.
#[verifier::opaque]
pub open spec fn root(a: u32) -> u32 {
    if is_nan(a) {
        NAN_BITS
    } else if is_zero(a) {
        a
    } else if is_negative(a) {
        NAN_BITS
    } else if is_infinite(a) {
        a
    } else {
        let odd = unit_exponent(a) % 2 != 0;
        let m = if odd {
            mantissa(a) * 2
        } else {
            mantissa(a)
        };
        let u = if odd {
            unit_exponent(a) - 1
        } else {
            unit_exponent(a)
        };
        let n = m * 0x10_0000_0000_0000;
        let r = int_sqrt(n);
        let cut: nat = if r * r != n {
            1
        } else {
            0
        };
        round_pack(false, r * 2 + cut, (u - 52) / 2 - 1)
    }
}

/// The pattern nearest to a natural number.
#[verifier::opaque]
pub open spec fn from_nat(n: nat) -> u32 {
    round_pack(false, n, 0)
}

/// The pattern nearest to an integer.
#[verifier::opaque]
pub open spec fn from_int(v: int) -> u32 {
    if v < 0 {
        round_pack(true, (-v) as nat, 0)
    } else {
        round_pack(false, v as nat, 0)
    }
}

/// The whole part of a pattern as an index: zero for negative values and
/// for no number, the largest index for values beyond it.
#[verifier::opaque]
pub open spec fn to_index(bits: u32) -> usize {
    if is_nan(bits) || is_negative(bits) {
        0
    } else if is_infinite(bits) {
        usize::MAX
    } else {
        let whole = if unit_exponent(bits) >= 0 {
            mantissa(bits) * pow2(unit_exponent(bits) as nat)
        } else {
            mantissa(bits) / pow2((-unit_exponent(bits)) as nat)
        };
        if whole > usize::MAX {
            usize::MAX
        } else {
            whole as usize
        }
    }
}

/// The whole number nearest to a pattern, halves away from zero, as far as
/// `limit`: zero for negative values and for no number, `limit` for values
/// beyond it.
pub open spec fn nearest_index(bits: u32, limit: nat) -> nat {
    if is_nan(bits) || is_negative(bits) {
        0
    } else if is_infinite(bits) {
        limit
    } else {
        let whole = if unit_exponent(bits) >= 0 {
            mantissa(bits) * pow2(unit_exponent(bits) as nat)
        } else {
            (2 * mantissa(bits) + pow2((-unit_exponent(bits)) as nat)) / pow2(
                (1 - unit_exponent(bits)) as nat,
            )
        };
        if whole > limit {
            limit
        } else {
            whole
        }
    }
}

/// The place of a pattern in the order of values: both zeros share a place.
pub open spec fn order_key(bits: u32) -> int {
    if is_negative(bits) {
        -(abs_bits(bits) as int)
    } else {
        bits as int
    }
}

/// The first value is less than the second. Nothing is less than no number,
/// and no number is less than anything.
pub open spec fn less(a: u32, b: u32) -> bool {
    !is_nan(a) && !is_nan(b) && order_key(a) < order_key(b)
}

/// The larger of two values; the other one where one is no number.
pub open spec fn maximum(a: u32, b: u32) -> u32 {
    if is_nan(a) {
        b
    } else if is_nan(b) {
        a
    } else if less(a, b) {
        b
    } else {
        a
    }
}

/// The smaller of two values; the other one where one is no number.
pub open spec fn minimum(a: u32, b: u32) -> u32 {
    if is_nan(a) {
        b
    } else if is_nan(b) {
        a
    } else if less(b, a) {
        b
    } else {
        a
    }
}

/// A value is a number from zero to one.
pub open spec fn in_unit_range(v: u32) -> bool {
    !is_nan(v) && 0 <= order_key(v) <= order_key(ONE_BITS)
}

/// Among patterns of numbers that are not negative, a smaller pattern is
/// below everything that a larger one is below.
pub proof fn lemma_smaller_is_below(smaller: u32, larger: u32, bound: u32)
    requires
        smaller <= larger < INFINITY_BITS,
        less(larger, bound),
    ensures
        less(smaller, bound),
{
}

/// A number between `2^(k-1)` and `2^k` has `k` bits.
pub proof fn lemma_bit_length_is(n: nat, k: nat)
    requires
        k >= 1,
        pow2((k - 1) as nat) <= n < pow2(k),
    ensures
        bit_length(n) == k,
{
    lemma_pow2_pos((k - 1) as nat);
    lemma_bit_length_limit(n, k);
    lemma_bit_length_bounds(n);
    if bit_length(n) < k {
        if bit_length(n) < k - 1 {
            lemma_pow2_strictly_increases(bit_length(n), (k - 1) as nat);
        }
    }
}

/// A value that is a pattern rounds to that pattern, however finely its
/// magnitude is written: `mantissa * 2^places` in units that are `places`
/// binary places below the unit of the pattern.
pub proof fn lemma_round_pack_exact(bits: u32, places: nat)
    requires
        is_finite(bits),
    ensures
        round_pack(
            is_negative(bits),
            mantissa(bits) * pow2(places),
            unit_exponent(bits) - places,
        ) == bits,
{
    reveal(round_pack);
    let m = mantissa(bits);
    let ux = unit_exponent(bits);
    let p = pow2(places);
    let mag = m * p;
    lemma_pow2_pos(places);
    lemma2_to64();
    if m == 0 {
        assert(mag == 0) by (nonlinear_arith)
            requires
                mag == m * p,
                m == 0,
        ;
    } else {
        assert(mag > 0) by (nonlinear_arith)
            requires
                mag == m * p,
                m >= 1,
                p >= 1,
        ;
        // the magnitude has at most 24 bits more than the places, and
        // exactly that many where the pattern is normal
        lemma_pow2_adds(24, places);
        assert(mag < pow2(24 + places)) by (nonlinear_arith)
            requires
                mag == m * p,
                m < 0x100_0000,
                p >= 1,
                pow2(24 + places) == 0x100_0000 * p,
        ;
        lemma_bit_length_limit(mag, 24 + places);
        if ux > -149 {
            lemma_pow2_adds(23, places);
            assert(mag >= pow2(23 + places)) by (nonlinear_arith)
                requires
                    mag == m * p,
                    m >= 0x80_0000,
                    p >= 1,
                    pow2(23 + places) == 0x80_0000 * p,
            ;
            lemma_bit_length_is(mag, 24 + places);
        }
        assert(rounding_unit(mag, ux - places) == ux);
        if places == 0 {
            assert(mag == m) by (nonlinear_arith)
                requires
                    mag == m * p,
                    p == 1,
            ;
            assert(pow2(0) == 1);
            assert(mag * pow2(0) == m);
        } else {
            assert(mag / p == m && mag % p == 0) by (nonlinear_arith)
                requires
                    mag == m * p,
                    p >= 1,
            ;
            assert(round_even_nat(mag, places) == m);
        }
    }
}

/// The value of a finite pattern without its sign, in units of `2^-149`.
pub open spec fn wide(bits: u32) -> nat {
    mantissa(bits) * pow2((unit_exponent(bits) + 149) as nat)
}

/// The mantissa that a magnitude `mag * 2^exp` gets in the unit at which it
/// is rounded: the magnitude itself, written in that unit, where the unit is
/// fine enough, and else the magnitude rounded to it, ties to even.
pub open spec fn rounded_mantissa(mag: nat, exp: int) -> nat {
    let u = rounding_unit(mag, exp);
    if u <= exp {
        mag * pow2((exp - u) as nat)
    } else {
        round_even_nat(mag, (u - exp) as nat)
    }
}

/// Rounding to a unit moves a magnitude by at most half a unit.
pub proof fn lemma_round_even_nat_is_nearest(mag: nat, drop: nat)
    ensures
        2 * (round_even_nat(mag, drop) * pow2(drop) - mag) <= pow2(drop),
        2 * (mag - round_even_nat(mag, drop) * pow2(drop)) <= pow2(drop),
        mag / pow2(drop) <= round_even_nat(mag, drop) <= mag / pow2(drop) + 1,
{
    let p = pow2(drop);
    lemma_pow2_pos(drop);
    let q0 = mag / p;
    let r = mag % p;
    assert(mag == q0 * p + r && 0 <= r < p) by (nonlinear_arith)
        requires
            q0 == mag / p,
            r == mag % p,
            p >= 1,
    ;
    assert((q0 + 1) * p == q0 * p + p) by (nonlinear_arith);
}

/// The fields of a pattern put together from an exponent field and a
/// mantissa: a mantissa of 24 bits takes the field after `e`, and one of
/// `2^24` the field after that.
#[verifier::spinoff_prover]
proof fn lemma_fields_of_body(e: nat, q: nat)
    requires
        e <= 252,
        q <= 0x100_0000,
        q >= 0x80_0000 || e == 0,
    ensures
        e * 0x80_0000 + q < INFINITY_BITS,
        wide((e * 0x80_0000 + q) as u32) == q * pow2(e),
        wide((SIGN_BIT + e * 0x80_0000 + q) as u32) == q * pow2(e),
{
    lemma2_to64();
    let body = e * 0x80_0000 + q;
    assert(body < INFINITY_BITS);
    let plain = body as u32;
    let signed = (SIGN_BIT + body) as u32;
    assert(abs_bits(plain) == body);
    assert(abs_bits(signed) == body);
    if q < 0x80_0000 {
        assert(body == q);
        assert(q * pow2(0) == q) by (nonlinear_arith)
            requires
                pow2(0) == 1,
        ;
    } else if q == 0x100_0000 {
        assert(body / 0x80_0000 == e + 2 && body % 0x80_0000 == 0);
        lemma_pow2_unfold(e + 1);
        assert(0x80_0000 * pow2(e + 1) == q * pow2(e)) by (nonlinear_arith)
            requires
                pow2(e + 1) == 2 * pow2(e),
                q == 0x100_0000,
        ;
    } else {
        assert(body / 0x80_0000 == e + 1 && body % 0x80_0000 == q - 0x80_0000);
    }
}

/// A rounded mantissa has at most 24 bits, or is `2^24`; it has 24 bits
/// unless the unit is that of the smallest patterns.
#[verifier::spinoff_prover]
proof fn lemma_rounded_mantissa_bounds(mag: nat, exp: int)
    requires
        mag > 0,
    ensures
        rounded_mantissa(mag, exp) <= 0x100_0000,
        rounded_mantissa(mag, exp) >= 0x80_0000 || rounding_unit(mag, exp) == -149,
{
    let len = bit_length(mag);
    let u = rounding_unit(mag, exp);
    let q = rounded_mantissa(mag, exp);
    lemma_bit_length_bounds(mag);
    lemma2_to64();
    if u <= exp {
        let shift = (exp - u) as nat;
        let p = pow2(shift);
        lemma_pow2_pos(shift);
        // the shifted magnitude has at most 24 bits
        assert(len + shift <= 24);
        lemma_pow2_adds(len, shift);
        if len + shift < 24 {
            lemma_pow2_strictly_increases(len + shift, 24);
        }
        assert(mag * p < pow2(len) * p) by (nonlinear_arith)
            requires
                mag < pow2(len),
                p >= 1,
        ;
        if u > -149 {
            assert(len + shift == 24);
            lemma_pow2_adds((len - 1) as nat, shift);
            assert(mag * p >= pow2((len - 1) as nat) * p) by (nonlinear_arith)
                requires
                    mag >= pow2((len - 1) as nat),
                    p >= 1,
            ;
        }
    } else {
        let drop = (u - exp) as nat;
        let p = pow2(drop);
        lemma_pow2_pos(drop);
        lemma_round_even_nat_is_nearest(mag, drop);
        assert(len <= drop + 24);
        lemma_pow2_adds(drop, 24);
        if len < drop + 24 {
            lemma_pow2_strictly_increases(len, drop + 24);
        }
        assert(mag / p < 0x100_0000) by (nonlinear_arith)
            requires
                mag < p * 0x100_0000,
                p >= 1,
        ;
        if u > -149 {
            assert(len == drop + 24);
            lemma_pow2_adds(drop, 23);
            assert(mag / p >= 0x80_0000) by (nonlinear_arith)
                requires
                    mag >= p * 0x80_0000,
                    p >= 1,
            ;
        }
    }
}

/// What a rounded pattern is worth: its mantissa in the unit at which the
/// magnitude was rounded. Together with `lemma_round_even_nat_is_nearest`
/// this says that `round_pack` gives the pattern nearest to `mag * 2^exp`,
/// as long as that is no infinity.
pub proof fn lemma_round_pack_value(negative: bool, mag: nat, exp: int)
    requires
        mag > 0,
        rounding_unit(mag, exp) <= 103,
    ensures
        is_finite(round_pack(negative, mag, exp)),
        is_negative(round_pack(negative, mag, exp)) == negative,
        wide(round_pack(negative, mag, exp)) == rounded_mantissa(mag, exp) * pow2(
            (rounding_unit(mag, exp) + 149) as nat,
        ),
{
    reveal(round_pack);
    let u = rounding_unit(mag, exp);
    let q = rounded_mantissa(mag, exp);
    lemma_rounded_mantissa_bounds(mag, exp);
    lemma_fields_of_body((u + 149) as nat, q);
}

/// The unit of the samples that the complement of a tone falls on: `2^-24`,
/// in units of `2^-149`.
pub open spec fn grid_step() -> nat {
    pow2(125)
}

/// One, in units of `2^-149`.
pub open spec fn wide_one() -> nat {
    pow2(149)
}

/// A pattern of a number that is not negative and at most one.
pub open spec fn is_tone(bits: u32) -> bool {
    bits < INFINITY_BITS && wide(bits) <= wide_one()
}

/// Among patterns of numbers that are not negative, the one with the
/// smaller unit is worth less.
pub proof fn lemma_smaller_unit_is_less(a: u32, b: u32)
    requires
        a < INFINITY_BITS,
        b < INFINITY_BITS,
        unit_exponent(a) < unit_exponent(b),
    ensures
        wide(a) < wide(b),
{
    let ea = (unit_exponent(a) + 149) as nat;
    let eb = (unit_exponent(b) + 149) as nat;
    lemma_pow2_pos(ea);
    lemma_pow2_unfold(ea + 1);
    if ea + 1 < eb {
        lemma_pow2_strictly_increases(ea + 1, eb);
    }
    assert(mantissa(a) < 0x100_0000);
    assert(mantissa(b) >= 0x80_0000);
    assert(mantissa(a) * pow2(ea) < 0x80_0000 * pow2(eb)) by (nonlinear_arith)
        requires
            mantissa(a) < 0x100_0000,
            pow2(eb) >= 2 * pow2(ea),
            pow2(ea) >= 1,
    ;
    assert(0x80_0000 * pow2(eb) <= mantissa(b) * pow2(eb)) by (nonlinear_arith)
        requires
            mantissa(b) >= 0x80_0000,
    ;
}

/// Among patterns of numbers that are not negative, a smaller pattern is
/// worth no more, and a pattern is worth one exactly if it is `ONE_BITS`.
pub proof fn lemma_order_of_patterns(a: u32, b: u32)
    requires
        a <= b < INFINITY_BITS,
    ensures
        wide(a) <= wide(b),
        a < b ==> wide(a) < wide(b),
        wide(ONE_BITS) == wide_one(),
{
    lemma2_to64();
    lemma2_to64_rest();
    lemma_pow2_adds(23, 126);
    lemma_pow2_adds(63, 63);
    assert(mantissa(ONE_BITS) == 0x80_0000 && unit_exponent(ONE_BITS) == -23);
    if unit_exponent(a) < unit_exponent(b) {
        lemma_smaller_unit_is_less(a, b);
    } else {
        let e = (unit_exponent(a) + 149) as nat;
        assert(unit_exponent(a) == unit_exponent(b));
        assert(mantissa(a) <= mantissa(b));
        lemma_pow2_pos(e);
        assert(mantissa(a) * pow2(e) <= mantissa(b) * pow2(e)) by (nonlinear_arith)
            requires
                mantissa(a) <= mantissa(b),
        ;
        if a < b {
            assert(mantissa(a) < mantissa(b));
            assert(mantissa(a) * pow2(e) < mantissa(b) * pow2(e)) by (nonlinear_arith)
                requires
                    mantissa(a) < mantissa(b),
                    pow2(e) >= 1,
            ;
        }
    }
}

/// The tones are the patterns up to `ONE_BITS`.
pub proof fn lemma_tones_are_up_to_one(a: u32)
    ensures
        is_tone(a) <==> a <= ONE_BITS,
{
    if a <= ONE_BITS {
        lemma_order_of_patterns(a, ONE_BITS);
    } else if a < INFINITY_BITS {
        lemma_order_of_patterns(ONE_BITS, a);
    }
}

/// The product of two tones is a number that is not negative, within
/// `2^-24` of the exact product.
#[verifier::spinoff_prover]
pub proof fn lemma_product_of_tones(a: u32, b: u32)
    requires
        is_tone(a),
        is_tone(b),
    ensures
        product(a, b) < INFINITY_BITS,
        wide(product(a, b)) * wide_one() - wide(a) * wide(b) <= grid_step() * wide_one(),
        wide(a) * wide(b) - wide(product(a, b)) * wide_one() <= grid_step() * wide_one(),
{
    reveal(product);
    let ma = mantissa(a);
    let mb = mantissa(b);
    let mag = ma * mb;
    let exp = unit_exponent(a) + unit_exponent(b);
    let pa = pow2((unit_exponent(a) + 149) as nat);
    let pb = pow2((unit_exponent(b) + 149) as nat);
    let scale = pow2((exp + 298) as nat);
    let one = wide_one();
    let step = grid_step();
    let p = product(a, b);
    lemma_tones_are_up_to_one(a);
    lemma_tones_are_up_to_one(b);
    assert(-298 <= exp <= -46);
    lemma_pow2_adds((unit_exponent(a) + 149) as nat, (unit_exponent(b) + 149) as nat);
    lemma_pow2_pos((exp + 298) as nat);
    lemma_pow2_pos(125);
    lemma_pow2_pos(149);
    assert(wide(a) * wide(b) == mag * scale) by (nonlinear_arith)
        requires
            wide(a) == ma * pa,
            wide(b) == mb * pb,
            mag == ma * mb,
            scale == pa * pb,
    ;
    if mag == 0 {
        reveal(round_pack);
        assert(p == 0);
        assert(mantissa(0) == 0);
        assert(wide(p) == 0) by (nonlinear_arith)
            requires
                wide(p) == 0 * pow2((unit_exponent(0) + 149) as nat),
        ;
        assert(mag * scale == 0) by (nonlinear_arith)
            requires
                mag == 0,
        ;
        assert(wide(p) * one == 0) by (nonlinear_arith)
            requires
                wide(p) == 0,
        ;
        assert(step * one >= 0) by (nonlinear_arith)
            requires
                step >= 0,
                one >= 0,
        ;
    } else {
        // the exact product is at most one, so its magnitude has few bits
        let top = pow2((-exp) as nat);
        lemma_pow2_adds((-exp) as nat, (exp + 298) as nat);
        lemma_pow2_adds(149, 149);
        assert(wide(a) * wide(b) <= one * one) by (nonlinear_arith)
            requires
                wide(a) <= one,
                wide(b) <= one,
        ;
        assert(mag <= top) by (nonlinear_arith)
            requires
                mag * scale <= top * scale,
                scale >= 1,
        ;
        lemma_pow2_unfold((-exp + 1) as nat);
        lemma_pow2_pos((-exp) as nat);
        lemma_bit_length_limit(mag, (-exp + 1) as nat);
        let u = rounding_unit(mag, exp);
        assert(-149 <= u <= -23);
        lemma_round_pack_value(false, mag, exp);
        let q = rounded_mantissa(mag, exp);
        let pu = pow2((u + 149) as nat);
        assert(wide(p) == q * pu);
        lemma_pow2_adds((u + 149) as nat, 149);
        if u <= exp {
            lemma_pow2_adds((exp - u) as nat, (u + 298) as nat);
            assert(wide(p) * one == mag * scale) by (nonlinear_arith)
                requires
                    wide(p) == q * pu,
                    q == mag * pow2((exp - u) as nat),
                    pu * one == pow2((u + 298) as nat),
                    pow2((exp - u) as nat) * pow2((u + 298) as nat) == scale,
            ;
            assert(step * one >= 0) by (nonlinear_arith)
                requires
                    step >= 0,
                    one >= 0,
            ;
        } else {
            let d = (u - exp) as nat;
            let pd = pow2(d);
            lemma_round_even_nat_is_nearest(mag, d);
            lemma_pow2_adds(d, (exp + 298) as nat);
            lemma_pow2_adds(125, 149);
            lemma_pow2_unfold(275);
            if u + 298 < 275 {
                lemma_pow2_strictly_increases((u + 298) as nat, 275);
            }
            assert(pd * scale <= 2 * (step * one));
            assert(wide(p) * one == (q * pd) * scale) by (nonlinear_arith)
                requires
                    wide(p) == q * pu,
                    pu * one == pd * scale,
            ;
            assert(2 * ((q * pd) * scale - mag * scale) <= pd * scale && 2 * (mag * scale - (q
                * pd) * scale) <= pd * scale) by (nonlinear_arith)
                requires
                    2 * (q * pd - mag) <= pd,
                    2 * (mag - q * pd) <= pd,
                    scale >= 1,
            ;
        }
    }
}

/// A multiple of `m` divides by `m` without a rest.
proof fn lemma_multiple(x: nat, c: nat, m: nat)
    requires
        m > 0,
        x == c * m,
    ensures
        x % m == 0,
        x / m == c,
{
    lemma_mod_multiples_basic(c as int, m as int);
    lemma_div_multiples_vanish(c as int, m as int);
    assert(c * m == m * c) by (nonlinear_arith);
}

/// What divides by `m` without a rest is a multiple of `m`.
proof fn lemma_as_multiple(x: nat, m: nat)
    requires
        m > 0,
        x % m == 0,
    ensures
        x == (x / m) * m,
{
    lemma_fundamental_div_mod(x as int, m as int);
    assert(m * (x / m) == (x / m) * m) by (nonlinear_arith);
}

/// A tone of at least one half lies on the grid of `2^-24`.
pub proof fn lemma_upper_tones_on_grid(a: u32)
    requires
        is_tone(a),
        2 * wide(a) >= wide_one(),
    ensures
        wide(a) % grid_step() == 0,
{
    lemma_tones_are_up_to_one(a);
    let e = (unit_exponent(a) + 149) as nat;
    lemma_pow2_pos(125);
    lemma_pow2_pos(e);
    if e < 125 {
        lemma_pow2_strictly_increases(e, 125);
        if e < 124 {
            lemma_pow2_strictly_increases(e, 124);
        }
        lemma_pow2_adds(24, 124);
        lemma_pow2_unfold(149);
        lemma2_to64();
        assert(mantissa(a) * pow2(e) < 0x100_0000 * pow2(124)) by (nonlinear_arith)
            requires
                mantissa(a) < 0x100_0000,
                pow2(e) <= pow2(124),
                pow2(e) >= 1,
        ;
        assert(false);
    } else {
        lemma_pow2_adds((e - 125) as nat, 125);
        assert(wide(a) == (mantissa(a) * pow2((e - 125) as nat)) * grid_step())
            by (nonlinear_arith)
            requires
                wide(a) == mantissa(a) * pow2(e),
                pow2(e) == pow2((e - 125) as nat) * grid_step(),
        ;
        lemma_multiple(wide(a), mantissa(a) * pow2((e - 125) as nat), grid_step());
    }
}

/// The difference of two tones, the larger first, is a number that is not
/// negative, within `2^-25` of the exact difference. It is the exact
/// difference where both tones lie on the grid of `2^-24`, and lies on that
/// grid itself where the exact difference is at least one half.
#[verifier::spinoff_prover]
pub proof fn lemma_difference_of_tones(a: u32, b: u32)
    requires
        is_tone(a),
        is_tone(b),
        wide(b) <= wide(a),
    ensures
        difference(a, b) < INFINITY_BITS,
        2 * (wide(difference(a, b)) - (wide(a) - wide(b))) <= grid_step(),
        2 * ((wide(a) - wide(b)) - wide(difference(a, b))) <= grid_step(),
        wide(a) % grid_step() == 0 && wide(b) % grid_step() == 0 ==> wide(difference(a, b))
            == wide(a) - wide(b),
        2 * (wide(a) - wide(b)) >= wide_one() ==> wide(difference(a, b)) % grid_step() == 0,
{
    reveal(difference);
    reveal(sum);
    reveal(aligned_sum);
    lemma_tones_are_up_to_one(a);
    lemma_tones_are_up_to_one(b);
    lemma2_to64();
    let step = grid_step();
    let one = wide_one();
    let r = difference(a, b);
    let v: int = wide(a) - wide(b);
    let ua = unit_exponent(a);
    let ub = unit_exponent(b);
    let pa = pow2((ua + 149) as nat);
    let pb = pow2((ub + 149) as nat);
    let nb = negated(b);
    lemma_pow2_pos(125);
    lemma_pow2_pos((ua + 149) as nat);
    lemma_pow2_pos((ub + 149) as nat);
    assert(mantissa(nb) == mantissa(b) && unit_exponent(nb) == ub && is_negative(nb));
    assert(mantissa(0) == 0);
    assert(wide(0) == 0) by (nonlinear_arith)
        requires
            wide(0) == 0 * pow2((unit_exponent(0) + 149) as nat),
    ;
    if 2 * v >= one {
        assert(2 * wide(a) >= one);
        lemma_upper_tones_on_grid(a);
    }
    if b != 0 {
        assert(wide(b) >= 1) by (nonlinear_arith)
            requires
                wide(b) == mantissa(b) * pb,
                mantissa(b) >= 1,
                pb >= 1,
        ;
    }
    if b == 0 {
        if a == 0 {
            assert(r == 0);
        } else {
            assert(r == a);
        }
    } else if a == 0 {
        assert(false);
    } else {
        if ua < ub {
            lemma_smaller_unit_is_less(a, b);
        }
        assert(ua >= ub);
        assert(r == aligned_sum(a, nb));
        let gap = (ua - ub) as nat;
        if gap > 60 {
            assert(r == a);
            lemma_pow2_adds(24, (ub + 149) as nat);
            lemma_pow2_strictly_increases((ub + 173) as nat, 124);
            assert(wide(b) < pow2((ub + 173) as nat)) by (nonlinear_arith)
                requires
                    wide(b) == mantissa(b) * pb,
                    mantissa(b) < 0x100_0000,
                    pow2((ub + 173) as nat) == 0x100_0000 * pb,
                    pb >= 1,
            ;
            lemma_pow2_unfold(125);
            if wide(b) % step == 0 {
                lemma_as_multiple(wide(b), step);
                assert(wide(b) / step >= 1);
                assert((wide(b) / step) * step >= step) by (nonlinear_arith)
                    requires
                        wide(b) / step >= 1,
                ;
                assert(false);
            }
        } else {
            let x = mantissa(a) * pow2(gap);
            let y = mantissa(b);
            lemma_pow2_adds(gap, (ub + 149) as nat);
            assert(x * pb == wide(a)) by (nonlinear_arith)
                requires
                    x == mantissa(a) * pow2(gap),
                    wide(a) == mantissa(a) * pa,
                    pa == pow2(gap) * pb,
            ;
            assert(x >= y) by (nonlinear_arith)
                requires
                    x * pb == wide(a),
                    wide(b) == y * pb,
                    wide(b) <= wide(a),
                    pb >= 1,
            ;
            if x == y {
                assert(r == 0);
                assert(v == 0);
            } else {
                let mag = (x - y) as nat;
                assert(r == round_pack(false, mag, ub));
                assert(mag * pb == v) by (nonlinear_arith)
                    requires
                        mag == x - y,
                        x * pb == wide(a),
                        wide(b) == y * pb,
                        v == wide(a) - wide(b),
                ;
                // the difference is below one, so its magnitude has few bits
                let top = pow2((-ub) as nat);
                lemma_pow2_adds((-ub) as nat, (ub + 149) as nat);
                assert(mag < top) by (nonlinear_arith)
                    requires
                        mag * pb == v,
                        v < one,
                        top * pb == one,
                        pb >= 1,
                ;
                lemma_bit_length_limit(mag, (-ub) as nat);
                lemma_bit_length_bounds(mag);
                let len = bit_length(mag);
                let u = rounding_unit(mag, ub);
                assert(-149 <= u <= -24);
                lemma_round_pack_value(false, mag, ub);
                let q = rounded_mantissa(mag, ub);
                let pu = pow2((u + 149) as nat);
                lemma_pow2_pos((u + 149) as nat);
                assert(wide(r) == q * pu);
                if 2 * v >= one {
                    // at least one half: the unit is that of the grid
                    lemma_pow2_unfold((-ub) as nat);
                    assert(2 * mag >= top) by (nonlinear_arith)
                        requires
                            mag * pb == v,
                            2 * v >= one,
                            top * pb == one,
                            pb >= 1,
                    ;
                    if len < -ub {
                        lemma_pow2_strictly_increases(len, (-ub) as nat);
                        if len + 1 < -ub {
                            lemma_pow2_strictly_increases(len, (-ub - 1) as nat);
                        }
                        assert(false);
                    }
                    assert(u == -24);
                    lemma_multiple(wide(r), q, step);
                }
                if u <= ub {
                    lemma_pow2_adds((ub - u) as nat, (u + 149) as nat);
                    assert(wide(r) == v) by (nonlinear_arith)
                        requires
                            wide(r) == q * pu,
                            q == mag * pow2((ub - u) as nat),
                            pow2((ub - u) as nat) * pu == pb,
                            mag * pb == v,
                    ;
                } else {
                    let d = (u - ub) as nat;
                    let pd = pow2(d);
                    lemma_pow2_pos(d);
                    lemma_pow2_adds(d, (ub + 149) as nat);
                    lemma_round_even_nat_is_nearest(mag, d);
                    if u + 149 < 125 {
                        lemma_pow2_strictly_increases((u + 149) as nat, 125);
                    }
                    assert(wide(r) - v == (q * pd - mag) * pb) by (nonlinear_arith)
                        requires
                            wide(r) == q * pu,
                            pu == pd * pb,
                            mag * pb == v,
                    ;
                    assert(2 * ((q * pd - mag) * pb) <= pd * pb && 2 * ((mag - q * pd) * pb) <= pd
                        * pb) by (nonlinear_arith)
                        requires
                            2 * (q * pd - mag) <= pd,
                            2 * (mag - q * pd) <= pd,
                            pb >= 1,
                    ;
                    assert((mag - q * pd) * pb == -((q * pd - mag) * pb)) by (nonlinear_arith);
                    if wide(a) % step == 0 && wide(b) % step == 0 {
                        // both on the grid: the magnitude is a multiple of
                        // what is dropped, and nothing is rounded
                        lemma_as_multiple(wide(a), step);
                        lemma_as_multiple(wide(b), step);
                        let n = (wide(a) / step - wide(b) / step) as int;
                        assert(v == n * step) by (nonlinear_arith)
                            requires
                                v == wide(a) - wide(b),
                                wide(a) == (wide(a) / step) * step,
                                wide(b) == (wide(b) / step) * step,
                                n == wide(a) / step - wide(b) / step,
                        ;
                        assert(n >= 0) by (nonlinear_arith)
                            requires
                                v == n * step,
                                v >= 0,
                                step >= 1,
                        ;
                        let fine = pow2((125 - (u + 149)) as nat);
                        lemma_pow2_adds((125 - (u + 149)) as nat, (u + 149) as nat);
                        assert(mag == (n * fine) * pd) by (nonlinear_arith)
                            requires
                                mag * pb == v,
                                v == n * step,
                                step == fine * pu,
                                pu == pd * pb,
                                pb >= 1,
                        ;
                        assert(n * fine >= 0) by (nonlinear_arith)
                            requires
                                n >= 0,
                                fine >= 0,
                        ;
                        lemma_multiple(mag, (n * fine) as nat, pd);
                        assert(q == mag / pd);
                        assert(wide(r) - v == 0) by (nonlinear_arith)
                            requires
                                wide(r) - v == (q * pd - mag) * pb,
                                q * pd == mag,
                        ;
                    }
                }
            }
        }
    }
}

/// The quotient of a tone and a tone that is not smaller, and not zero, is
/// a tone within `2^-24` of the exact quotient.
#[verifier::spinoff_prover]
pub proof fn lemma_quotient_of_tones(a: u32, b: u32)
    requires
        is_tone(a),
        is_tone(b),
        wide(a) <= wide(b),
        wide(b) > 0,
    ensures
        is_tone(quotient(a, b)),
        wide(quotient(a, b)) * wide(b) - wide(a) * wide_one() <= grid_step() * wide(b),
        wide(a) * wide_one() - wide(quotient(a, b)) * wide(b) <= grid_step() * wide(b),
{
    reveal(quotient);
    lemma_tones_are_up_to_one(a);
    lemma_tones_are_up_to_one(b);
    lemma_order_of_patterns(ONE_BITS, ONE_BITS);
    lemma2_to64();
    lemma2_to64_rest();
    let step = grid_step();
    let one = wide_one();
    let c = quotient(a, b);
    let ma = mantissa(a);
    let mb = mantissa(b);
    let ua = unit_exponent(a);
    let ub = unit_exponent(b);
    let pa = pow2((ua + 149) as nat);
    let pb = pow2((ub + 149) as nat);
    lemma_pow2_pos(125);
    lemma_pow2_pos(149);
    lemma_pow2_pos((ua + 149) as nat);
    lemma_pow2_pos((ub + 149) as nat);
    assert(mantissa(0) == 0);
    assert(wide(0) == 0) by (nonlinear_arith)
        requires
            wide(0) == 0 * pow2((unit_exponent(0) + 149) as nat),
    ;
    assert(b != 0);
    assert(step * wide(b) >= 0) by (nonlinear_arith)
        requires
            step >= 0,
            wide(b) >= 0,
    ;
    if a == 0 {
        assert(c == 0);
        assert(wide(c) * wide(b) == 0) by (nonlinear_arith)
            requires
                wide(c) == 0,
        ;
        assert(wide(a) * one == 0) by (nonlinear_arith)
            requires
                wide(a) == 0,
        ;
    } else if wide(a) == wide(b) {
        if a < b {
            lemma_order_of_patterns(a, b);
        } else if b < a {
            lemma_order_of_patterns(b, a);
        }
        assert(a == b);
        lemma_quotient_of_equals(b);
        assert(wide(c) * wide(b) == wide(a) * one) by (nonlinear_arith)
            requires
                wide(c) == one,
                wide(a) == wide(b),
        ;
    } else {
        let n = ma * 0x4_0000_0000_0000;
        let t = n / mb;
        let rem = n % mb;
        let cut: nat = if rem != 0 {
            1
        } else {
            0
        };
        let mag = t * 2 + cut;
        let exp = ua - ub - 51;
        assert(c == round_pack(false, mag, exp));
        assert(ma >= 1 && mb >= 1);
        assert(n == t * mb + rem && 0 <= rem < mb) by (nonlinear_arith)
            requires
                t == n / mb,
                rem == n % mb,
                mb >= 1,
        ;
        // the units are at most 23 binary places apart
        if ua >= ub + 24 {
            lemma_pow2_adds(24, (ub + 149) as nat);
            if ua > ub + 24 {
                lemma_pow2_strictly_increases((ub + 173) as nat, (ua + 149) as nat);
            }
            assert(wide(a) >= pa) by (nonlinear_arith)
                requires
                    wide(a) == ma * pa,
                    ma >= 1,
            ;
            assert(wide(b) < 0x100_0000 * pb) by (nonlinear_arith)
                requires
                    wide(b) == mb * pb,
                    mb < 0x100_0000,
                    pb >= 1,
            ;
            assert(false);
        }
        // the whole part of the quotient is below `2^(50 + ub - ua)`
        let half_top = pow2((50 + ub - ua) as nat);
        lemma_pow2_adds((50 + ub - ua) as nat, (ua + 149) as nat);
        lemma_pow2_adds(50, (ub + 149) as nat);
        assert(half_top * pa == 0x4_0000_0000_0000 * pb);
        if t >= half_top {
            assert(half_top * mb <= n) by (nonlinear_arith)
                requires
                    t >= half_top,
                    n == t * mb + rem,
                    rem >= 0,
                    mb >= 1,
            ;
            assert(mb * pb <= ma * pa) by (nonlinear_arith)
                requires
                    half_top * mb <= n,
                    n == ma * 0x4_0000_0000_0000,
                    half_top * pa == 0x4_0000_0000_0000 * pb,
                    pa >= 1,
            ;
            assert(false);
        }
        lemma_pow2_unfold((-exp) as nat);
        assert(mag < pow2((-exp) as nat));
        lemma_bit_length_limit(mag, (-exp) as nat);
        // and at least `2^26`
        assert(t >= 0x400_0000) by (nonlinear_arith)
            requires
                n == t * mb + rem,
                rem < mb,
                n == ma * 0x4_0000_0000_0000,
                ma >= 1,
                mb < 0x100_0000,
                mb >= 1,
        ;
        lemma_bit_length_bounds(mag);
        let len = bit_length(mag);
        if len <= 27 {
            if len < 27 {
                lemma_pow2_strictly_increases(len, 27);
            }
            assert(false);
        }
        let u = rounding_unit(mag, exp);
        assert(exp + 4 <= u <= -24);
        lemma_round_pack_value(false, mag, exp);
        lemma_rounded_mantissa_bounds(mag, exp);
        let q = rounded_mantissa(mag, exp);
        let pu = pow2((u + 149) as nat);
        let d = (u - exp) as nat;
        let pd = pow2(d);
        lemma_pow2_pos(d);
        lemma_pow2_pos((u + 149) as nat);
        assert(wide(c) == q * pu);
        // a tone
        if u + 149 < 125 {
            lemma_pow2_strictly_increases((u + 149) as nat, 125);
        }
        assert(pu <= step);
        lemma_pow2_adds(24, 125);
        assert(q * pu <= one) by (nonlinear_arith)
            requires
                q <= 0x100_0000,
                pu <= step,
                0x100_0000 * step == one,
        ;
        // its distance from the exact quotient
        lemma_round_even_nat_is_nearest(mag, d);
        lemma_pow2_strictly_increases(2, d);
        assert(pd >= 8) by {
            lemma_pow2_strictly_increases(3, d);
        }
        let far = pow2((u + ub + 349) as nat);
        lemma_pow2_adds((u + 149) as nat, (ub + 149) as nat);
        lemma_pow2_adds((u + ub + 298) as nat, 51);
        lemma_pow2_adds(d, (ua + 149) as nat);
        lemma_pow2_adds((d + ua + 149) as nat, 149);
        assert(pu * pb * 0x8_0000_0000_0000 == far);
        assert(pd * pa * one == far);
        let gap: int = q * pd * mb - 2 * n;
        assert(-(pd * mb) <= gap <= pd * mb) by (nonlinear_arith)
            requires
                gap == q * pd * mb - 2 * n,
                2 * (q * pd - mag) <= pd,
                2 * (mag - q * pd) <= pd,
                mag == t * 2 + cut,
                n == t * mb + rem,
                0 <= rem < mb,
                0 <= cut <= 1,
                pd >= 8,
                mb >= 1,
        ;
        let diff: int = wide(c) * wide(b) - wide(a) * one;
        let w = pa * one;
        let k: nat = 0x8_0000_0000_0000;
        let x = wide(c) * wide(b);
        let y = wide(a) * one;
        assert(far == pd * w) by (nonlinear_arith)
            requires
                pd * pa * one == far,
                w == pa * one,
        ;
        assert(x == (q * mb) * (pu * pb)) by (nonlinear_arith)
            requires
                x == wide(c) * wide(b),
                wide(c) == q * pu,
                wide(b) == mb * pb,
        ;
        assert(x * k == (q * mb) * far) by (nonlinear_arith)
            requires
                x == (q * mb) * (pu * pb),
                pu * pb * k == far,
        ;
        assert((q * mb) * far == (q * pd * mb) * w) by (nonlinear_arith)
            requires
                far == pd * w,
        ;
        assert(y * k == (2 * n) * w) by (nonlinear_arith)
            requires
                y == wide(a) * one,
                wide(a) == ma * pa,
                n == ma * 0x4_0000_0000_0000,
                w == pa * one,
                k == 0x8_0000_0000_0000,
        ;
        assert(diff * k == x * k - y * k) by (nonlinear_arith)
            requires
                diff == x - y,
        ;
        assert(gap * w == (q * pd * mb) * w - (2 * n) * w) by (nonlinear_arith)
            requires
                gap == q * pd * mb - 2 * n,
        ;
        assert(diff * k == gap * w);
        assert(pu * wide(b) * k == (pd * mb) * w) by (nonlinear_arith)
            requires
                wide(b) == mb * pb,
                pu * pb * k == far,
                far == pd * w,
        ;
        assert(w >= 1) by (nonlinear_arith)
            requires
                w == pa * one,
                pa >= 1,
                one >= 1,
        ;
        let bound = pu * wide(b);
        assert(-(bound * k) <= diff * k <= bound * k) by (nonlinear_arith)
            requires
                diff * k == gap * w,
                bound * k == (pd * mb) * w,
                -(pd * mb) <= gap <= pd * mb,
                w >= 1,
        ;
        assert(-bound <= diff <= bound) by (nonlinear_arith)
            requires
                -(bound * k) <= diff * k <= bound * k,
                k == 0x8_0000_0000_0000,
        ;
        assert(pu * wide(b) <= step * wide(b)) by (nonlinear_arith)
            requires
                pu <= step,
                wide(b) >= 0,
        ;
    }
}

/// The complement of a tone is a tone on the grid of `2^-24`, within `2^-25`
/// of the exact complement.
#[verifier::spinoff_prover]
pub proof fn lemma_complement_of_tone(x: u32)
    requires
        is_tone(x),
    ensures
        is_tone(difference(ONE_BITS, x)),
        wide(difference(ONE_BITS, x)) % grid_step() == 0,
        2 * (wide(difference(ONE_BITS, x)) - (wide_one() - wide(x))) <= grid_step(),
        2 * ((wide_one() - wide(x)) - wide(difference(ONE_BITS, x))) <= grid_step(),
{
    let step = grid_step();
    let one = wide_one();
    let c = difference(ONE_BITS, x);
    lemma_order_of_patterns(ONE_BITS, ONE_BITS);
    lemma_tones_are_up_to_one(ONE_BITS);
    lemma_difference_of_tones(ONE_BITS, x);
    lemma2_to64();
    lemma_pow2_pos(125);
    lemma_pow2_adds(24, 125);
    lemma_multiple(one, 0x100_0000, step);
    let v: int = one - wide(x);
    if 2 * v < one {
        lemma_upper_tones_on_grid(x);
        lemma_as_multiple(wide(x), step);
        let n = wide(x) / step;
        assert(n <= 0x100_0000) by (nonlinear_arith)
            requires
                wide(x) == n * step,
                wide(x) <= one,
                one == 0x100_0000 * step,
                step >= 1,
        ;
        assert(v == (0x100_0000 - n) * step) by (nonlinear_arith)
            requires
                v == one - wide(x),
                wide(x) == n * step,
                one == 0x100_0000 * step,
        ;
        lemma_multiple(wide(c), (0x100_0000 - n) as nat, step);
    }
    lemma_as_multiple(wide(c), step);
    let m = wide(c) / step;
    assert(m <= 0x100_0000) by (nonlinear_arith)
        requires
            wide(c) == m * step,
            2 * (wide(c) - v) <= step,
            v <= one,
            one == 0x100_0000 * step,
            step >= 1,
    ;
    assert(wide(c) <= one) by (nonlinear_arith)
        requires
            wide(c) == m * step,
            m <= 0x100_0000,
            one == 0x100_0000 * step,
            step >= 1,
    ;
}

/// Two numbers that are not negative differ by at most one part in `parts`.
pub open spec fn close_tones(a: u32, b: u32, parts: nat) -> bool {
    a < INFINITY_BITS && b < INFINITY_BITS && parts * (wide(a) - wide(b)) <= wide_one() && parts * (
    wide(b) - wide(a)) <= wide_one()
}

/// A number with `k` more binary places has `k` more bits.
pub proof fn lemma_bit_length_scaled(mag: nat, k: nat)
    requires
        mag > 0,
    ensures
        bit_length(mag * pow2(k)) == bit_length(mag) + k,
{
    let len = bit_length(mag);
    let pk = pow2(k);
    lemma_bit_length_bounds(mag);
    lemma_pow2_pos(k);
    lemma_pow2_adds((len - 1) as nat, k);
    lemma_pow2_adds(len, k);
    assert(pow2((len - 1) as nat) * pk <= mag * pk < pow2(len) * pk) by (nonlinear_arith)
        requires
            pow2((len - 1) as nat) <= mag < pow2(len),
            pk >= 1,
    ;
    lemma_bit_length_is(mag * pk, len + k);
}

/// Rounding does not depend on how finely the magnitude is written: with
/// `k` more binary places and an exponent that is `k` less it rounds to the
/// same pattern.
#[verifier::spinoff_prover]
pub proof fn lemma_round_pack_scaled(negative: bool, mag: nat, exp: int, k: nat)
    ensures
        round_pack(negative, mag * pow2(k), exp - k) == round_pack(negative, mag, exp),
{
    reveal(round_pack);
    let pk = pow2(k);
    let fine = mag * pk;
    lemma_pow2_pos(k);
    if mag == 0 {
        assert(fine == 0) by (nonlinear_arith)
            requires
                fine == mag * pk,
                mag == 0,
        ;
    } else {
        assert(fine > 0) by (nonlinear_arith)
            requires
                fine == mag * pk,
                mag >= 1,
                pk >= 1,
        ;
        lemma_bit_length_scaled(mag, k);
        let u = rounding_unit(mag, exp);
        assert(rounding_unit(fine, exp - k) == u);
        let q = rounded_mantissa(mag, exp);
        let q2 = rounded_mantissa(fine, exp - k);
        if u <= exp - k {
            lemma_pow2_adds(k, (exp - k - u) as nat);
            assert(q2 == q) by (nonlinear_arith)
                requires
                    q2 == fine * pow2((exp - k - u) as nat),
                    fine == mag * pk,
                    q == mag * pow2((exp - u) as nat),
                    pk * pow2((exp - k - u) as nat) == pow2((exp - u) as nat),
            ;
        } else if u <= exp {
            // what is dropped are places that were added
            let d2 = (u - exp + k) as nat;
            let part_q = pow2(d2);
            let keep = pow2((exp - u) as nat);
            lemma_pow2_pos(d2);
            lemma_pow2_adds((exp - u) as nat, d2);
            assert(fine == (mag * keep) * part_q) by (nonlinear_arith)
                requires
                    fine == mag * pk,
                    pk == keep * part_q,
            ;
            lemma_multiple(fine, mag * keep, part_q);
            assert(q2 == round_even_nat(fine, d2));
            assert(q2 == mag * keep);
        } else {
            let d = (u - exp) as nat;
            let p = pow2(d);
            let part_q = pow2(d + k);
            lemma_pow2_pos(d);
            lemma_pow2_adds(k, d);
            assert(part_q == pk * p);
            lemma_div_multiples_vanish_quotient(pk as int, mag as int, p as int);
            lemma_truncate_middle(mag as int, pk as int, p as int);
            assert(pk * mag == fine) by (nonlinear_arith)
                requires
                    fine == mag * pk,
            ;
            let r = mag % p;
            let r2 = fine % part_q;
            assert(fine / part_q == mag / p);
            assert(r2 == pk * r);
            assert((2 * r2 > part_q) == (2 * r > p) && (2 * r2 == part_q) == (2 * r == p))
                by (nonlinear_arith)
                requires
                    r2 == pk * r,
                    part_q == pk * p,
                    pk >= 1,
            ;
            assert(q2 == round_even_nat(fine, d + k));
            assert(q == round_even_nat(mag, d));
            assert(q2 == q);
        }
    }
}

/// The fields of the pattern of a whole number of `len` bits, at most 24:
/// the number moved up to 24 bits as mantissa, in the unit `2^(len - 24)`.
pub proof fn lemma_fields_of_whole(n: nat, len: nat)
    requires
        1 <= len <= 24,
        pow2((len - 1) as nat) <= n < pow2(len),
    ensures
        from_nat(n) < INFINITY_BITS,
        mantissa(from_nat(n)) == n * pow2((24 - len) as nat),
        unit_exponent(from_nat(n)) == len - 24,
{
    reveal(from_nat);
    reveal(round_pack);
    lemma2_to64();
    lemma_bit_length_is(n, len);
    let shift = (24 - len) as nat;
    let q = n * pow2(shift);
    lemma_pow2_pos(shift);
    lemma_pow2_adds((len - 1) as nat, shift);
    lemma_pow2_adds(len, shift);
    assert(pow2((len - 1) as nat) * pow2(shift) <= q < pow2(len) * pow2(shift))
        by (nonlinear_arith)
        requires
            q == n * pow2(shift),
            pow2((len - 1) as nat) <= n < pow2(len),
            pow2(shift) >= 1,
    ;
    assert(0x80_0000 <= q < 0x100_0000);
    assert(rounding_unit(n, 0) == len - 24);
    let e = (len + 125) as nat;
    let body = e * 0x80_0000 + q;
    assert(from_nat(n) == body);
    assert(body / 0x80_0000 == e + 1 && body % 0x80_0000 == q - 0x80_0000);
}

/// A number divided by one is the number.
pub proof fn lemma_quotient_by_one(x: u32)
    requires
        !is_nan(x),
    ensures
        quotient(x, ONE_BITS) == x,
{
    reveal(round_pack);
    reveal(quotient);
    if is_finite(x) && !is_zero(x) {
        let m = mantissa(x);
        let n = m * 0x4_0000_0000_0000;
        lemma2_to64();
        assert(mantissa(ONE_BITS) == 0x80_0000 && unit_exponent(ONE_BITS) == -23);
        assert(n / 0x80_0000 == m * 0x800_0000 && n % 0x80_0000 == 0) by (nonlinear_arith)
            requires
                n == m * 0x4_0000_0000_0000,
        ;
        assert(pow2(28) == 0x1000_0000);
        assert((n / 0x80_0000) * 2 + 0 == m * pow2(28)) by (nonlinear_arith)
            requires
                n / 0x80_0000 == m * 0x800_0000,
                pow2(28) == 0x1000_0000,
        ;
        lemma_round_pack_exact(x, 28);
    }
}

/// A number times one is the number.
pub proof fn lemma_product_by_one(x: u32)
    requires
        !is_nan(x),
    ensures
        product(x, ONE_BITS) == x,
{
    reveal(round_pack);
    reveal(product);
    if is_finite(x) {
        lemma2_to64();
        assert(mantissa(ONE_BITS) == 0x80_0000 && unit_exponent(ONE_BITS) == -23);
        assert(pow2(23) == 0x80_0000);
        lemma_round_pack_exact(x, 23);
    }
}

/// A number divided by itself is one.
pub proof fn lemma_quotient_of_equals(x: u32)
    requires
        is_finite(x),
        !is_zero(x),
    ensures
        quotient(x, x) == ONE_BITS,
{
    reveal(round_pack);
    reveal(quotient);
    let m = mantissa(x);
    let n = m * 0x4_0000_0000_0000;
    assert(m >= 1);
    assert(n / m == 0x4_0000_0000_0000 && n % m == 0) by (nonlinear_arith)
        requires
            n == m * 0x4_0000_0000_0000,
            m >= 1,
    ;
    lemma2_to64();
    lemma2_to64_rest();
    let mag: nat = 0x8_0000_0000_0000;
    lemma_bit_length_is(mag, 52);
    assert(rounding_unit(mag, -51) == -23);
    assert(round_even_nat(mag, 28) == 0x80_0000);
}

/// Zero taken from a number, or added to it, leaves the number.
pub proof fn lemma_zero_changes_nothing(x: u32)
    requires
        !is_nan(x),
    ensures
        difference(x, 0) == x,
        sum(x, 0) == x || (x == SIGN_BIT && sum(x, 0) == 0),
{
    reveal(round_pack);
    reveal(aligned_sum);
    reveal(sum);
    reveal(difference);
}

/// Zero is the pattern of the number zero, and zero divided by a positive
/// number is zero.
pub proof fn lemma_zero_over(x: u32)
    requires
        0 < x < INFINITY_BITS,
    ensures
        from_nat(0) == 0,
        quotient(0, x) == 0,
{
    reveal(round_pack);
    reveal(quotient);
    reveal(from_nat);
}

/// One taken from one is zero, and one times zero is zero.
pub proof fn lemma_one_and_zero()
    ensures
        difference(ONE_BITS, ONE_BITS) == 0,
        product(ONE_BITS, 0) == 0,
{
    reveal(round_pack);
    reveal(product);
    reveal(aligned_sum);
    reveal(sum);
    reveal(difference);
    lemma2_to64();
    assert(mantissa(ONE_BITS) * pow2(0) == mantissa(ONE_BITS));
    assert(mantissa(0) == 0);
    assert(mantissa(ONE_BITS) * mantissa(0) == 0) by (nonlinear_arith)
        requires
            mantissa(0) == 0,
    ;
}

/// The pattern of `255`.
pub proof fn lemma_pattern_of_255()
    ensures
        from_nat(255) == 0x437F_0000,
{
    reveal(round_pack);
    reveal(from_nat);
    lemma2_to64();
    lemma_bit_length_is(255, 8);
    assert(rounding_unit(255, 0) == -16);
}

/// There is one integer square root.
pub proof fn lemma_int_sqrt_unique(r: nat, n: nat)
    requires
        is_int_sqrt(r, n),
    ensures
        int_sqrt(n) == r,
{
    let s = int_sqrt(n);
    assert(is_int_sqrt(s, n));
    if s < r {
        assert((s + 1) * (s + 1) <= r * r) by (nonlinear_arith)
            requires
                s + 1 <= r,
        ;
    } else if r < s {
        assert((r + 1) * (r + 1) <= s * s) by (nonlinear_arith)
            requires
                r + 1 <= s,
        ;
    }
}

/// Sign, mantissa and unit exponent of a pattern.
fn fields(bits: u32) -> (parts: (bool, u32, i32))
    ensures
        parts.0 == is_negative(bits),
        parts.1 == mantissa(bits),
        parts.2 == unit_exponent(bits),
        parts.1 < 0x100_0000,
        -149 <= parts.2 <= 105,
        parts.2 > -149 ==> parts.1 >= 0x80_0000,
{
    let negative: bool = bits >= SIGN_BIT;
    let rest: u32 = if negative {
        bits - SIGN_BIT
    } else {
        bits
    };
    let e: u32 = rest / MANTISSA_UNIT;
    let m: u32 = rest % MANTISSA_UNIT;
    if e == 0 {
        (negative, m, -149)
    } else {
        (negative, MANTISSA_UNIT + m, e as i32 - 150)
    }
}

/// The pattern without its sign.
fn magnitude(bits: u32) -> (rest: u32)
    ensures
        rest == abs_bits(bits),
        rest < SIGN_BIT,
{
    if bits >= SIGN_BIT {
        bits - SIGN_BIT
    } else {
        bits
    }
}

/// The pattern of the given sign and magnitude pattern.
fn signed(negative: bool, rest: u32) -> (bits: u32)
    requires
        rest < SIGN_BIT,
    ensures
        bits == with_sign(negative, rest),
{
    if negative {
        rest + SIGN_BIT
    } else {
        rest
    }
}

/// Multiplies two patterns.
pub fn product_bits(a: u32, b: u32) -> (bits: u32)
    ensures
        bits == product(a, b),
{
    proof {
        reveal(product);
    }
    let (na, ma, ua) = fields(a);
    let (nb, mb, ub) = fields(b);
    let ra: u32 = magnitude(a);
    let rb: u32 = magnitude(b);
    let negative: bool = na != nb;
    if ra > INFINITY_BITS || rb > INFINITY_BITS {
        NAN_BITS
    } else if ra == INFINITY_BITS || rb == INFINITY_BITS {
        if ra == 0 || rb == 0 {
            NAN_BITS
        } else {
            signed(negative, INFINITY_BITS)
        }
    } else {
        assert(ma * mb < 0x100_0000 * 0x100_0000) by (nonlinear_arith)
            requires
                ma < 0x100_0000,
                mb < 0x100_0000,
        ;
        round_pack_bits(negative, ma as u128 * mb as u128, ua + ub)
    }
}

/// Adds two finite patterns that are not zero, the first with the larger
/// unit.
fn aligned_sum_bits(hi: u32, lo: u32) -> (bits: u32)
    requires
        is_finite(hi),
        is_finite(lo),
        unit_exponent(hi) >= unit_exponent(lo),
    ensures
        bits == aligned_sum(hi, lo),
{
    proof {
        reveal(aligned_sum);
    }
    let (nh, mh, uh) = fields(hi);
    let (nl, ml, ul) = fields(lo);
    let gap: i32 = uh - ul;
    if gap > 60 {
        return hi;
    }
    let p: u128 = power_of_two(gap as u32);
    proof {
        lemma2_to64_rest();
        if gap < 60 {
            lemma_pow2_strictly_increases(gap as nat, 60);
        }
        assert(mh * p < 0x100_0000 * 0x1000_0000_0000_0000) by (nonlinear_arith)
            requires
                mh < 0x100_0000,
                p <= 0x1000_0000_0000_0000,
        ;
    }
    let x: u128 = mh as u128 * p;
    let y: u128 = ml as u128;
    if nh == nl {
        round_pack_bits(nh, x + y, ul)
    } else if x == y {
        0
    } else if x > y {
        round_pack_bits(nh, x - y, ul)
    } else {
        round_pack_bits(nl, y - x, ul)
    }
}

/// Adds two patterns.
pub fn sum_bits(a: u32, b: u32) -> (bits: u32)
    ensures
        bits == sum(a, b),
{
    proof {
        reveal(sum);
    }
    let ra: u32 = magnitude(a);
    let rb: u32 = magnitude(b);
    let na: bool = a >= SIGN_BIT;
    let nb: bool = b >= SIGN_BIT;
    if ra > INFINITY_BITS || rb > INFINITY_BITS {
        NAN_BITS
    } else if ra == INFINITY_BITS {
        if rb == INFINITY_BITS && na != nb {
            NAN_BITS
        } else {
            a
        }
    } else if rb == INFINITY_BITS {
        b
    } else if ra == 0 && rb == 0 {
        if na == nb {
            a
        } else {
            0
        }
    } else if ra == 0 {
        b
    } else if rb == 0 {
        a
    } else {
        let (_, _, ua) = fields(a);
        let (_, _, ub) = fields(b);
        if ua >= ub {
            aligned_sum_bits(a, b)
        } else {
            aligned_sum_bits(b, a)
        }
    }
}

/// Changes the sign of a pattern.
pub fn negated_bits(bits: u32) -> (out: u32)
    ensures
        out == negated(bits),
{
    if bits >= SIGN_BIT {
        bits - SIGN_BIT
    } else {
        bits + SIGN_BIT
    }
}

/// Subtracts the second pattern from the first.
pub fn difference_bits(a: u32, b: u32) -> (bits: u32)
    ensures
        bits == difference(a, b),
{
    proof {
        reveal(difference);
    }
    if magnitude(b) > INFINITY_BITS {
        NAN_BITS
    } else {
        sum_bits(a, negated_bits(b))
    }
}

/// Divides the first pattern by the second.
pub fn quotient_bits(a: u32, b: u32) -> (bits: u32)
    ensures
        bits == quotient(a, b),
{
    proof {
        reveal(quotient);
    }
    let (na, ma, ua) = fields(a);
    let (nb, mb, ub) = fields(b);
    let ra: u32 = magnitude(a);
    let rb: u32 = magnitude(b);
    let negative: bool = na != nb;
    if ra > INFINITY_BITS || rb > INFINITY_BITS {
        NAN_BITS
    } else if ra == INFINITY_BITS {
        if rb == INFINITY_BITS {
            NAN_BITS
        } else {
            signed(negative, INFINITY_BITS)
        }
    } else if rb == INFINITY_BITS {
        signed(negative, 0)
    } else if rb == 0 {
        if ra == 0 {
            NAN_BITS
        } else {
            signed(negative, INFINITY_BITS)
        }
    } else if ra == 0 {
        signed(negative, 0)
    } else {
        assert(mb > 0);
        let n: u128 = ma as u128 * 0x4_0000_0000_0000;
        let d: u128 = mb as u128;
        let whole: u128 = n / d;
        let cut: u128 = if n % d != 0 {
            1
        } else {
            0
        };
        assert(whole <= n) by (nonlinear_arith)
            requires
                whole == n / d,
                d >= 1,
                n >= 0,
        ;
        round_pack_bits(negative, whole * 2 + cut, ua - ub - 51)
    }
}

/// The integer square root of a number below `2^78`.
fn int_sqrt_bits(n: u128) -> (r: u128)
    requires
        n < 0x40_0000_0000_0000_0000_00,
    ensures
        r == int_sqrt(n as nat),
        r < 0x80_0000_0000,
{
    let mut lo: u128 = 0;
    let mut hi: u128 = 0x80_0000_0000;
    while hi - lo > 1
        invariant
            lo < hi <= 0x80_0000_0000,
            lo * lo <= n < hi * hi,
        decreases hi - lo,
    {
        let mid: u128 = lo + (hi - lo) / 2;
        assert(mid * mid < 0x80_0000_0000 * 0x80_0000_0000) by (nonlinear_arith)
            requires
                mid < 0x80_0000_0000,
        ;
        if mid * mid <= n {
            lo = mid;
        } else {
            hi = mid;
        }
    }
    proof {
        assert(is_int_sqrt(lo as nat, n as nat));
        lemma_int_sqrt_unique(lo as nat, n as nat);
    }
    lo
}

/// Takes the square root of a pattern.
pub fn root_bits(a: u32) -> (bits: u32)
    ensures
        bits == root(a),
{
    proof {
        reveal(root);
    }
    let (na, ma, ua) = fields(a);
    let ra: u32 = magnitude(a);
    if ra > INFINITY_BITS {
        NAN_BITS
    } else if ra == 0 {
        a
    } else if na {
        NAN_BITS
    } else if ra == INFINITY_BITS {
        a
    } else {
        let odd: bool = (ua + 150) % 2 != 0;
        let m: u128 = if odd {
            ma as u128 * 2
        } else {
            ma as u128
        };
        let u: i32 = if odd {
            ua - 1
        } else {
            ua
        };
        let n: u128 = m * 0x10_0000_0000_0000;
        let r: u128 = int_sqrt_bits(n);
        assert(r * r < 0x80_0000_0000 * 0x80_0000_0000) by (nonlinear_arith)
            requires
                r < 0x80_0000_0000,
        ;
        let cut: u128 = if r * r != n {
            1
        } else {
            0
        };
        let half: i32 = (u + 400) / 2 - 200 - 26;
        assert(half == (u - 52) / 2);
        round_pack_bits(false, r * 2 + cut, half - 1)
    }
}

/// The pattern nearest to an unsigned integer.
pub fn from_nat_bits(n: u64) -> (bits: u32)
    ensures
        bits == from_nat(n as nat),
{
    proof {
        reveal(from_nat);
    }
    round_pack_bits(false, n as u128, 0)
}

/// The pattern nearest to an unsigned integer below `2^100`.
pub fn from_wide_bits(n: u128) -> (bits: u32)
    requires
        n < 0x10_0000_0000_0000_0000_0000_0000,
    ensures
        bits == from_nat(n as nat),
{
    proof {
        reveal(from_nat);
    }
    round_pack_bits(false, n, 0)
}

/// The pattern nearest to a signed integer.
pub fn from_int_bits(v: i64) -> (bits: u32)
    ensures
        bits == from_int(v as int),
{
    proof {
        reveal(from_int);
    }
    if v < 0 {
        let mag: u128 = (-(v as i128)) as u128;
        round_pack_bits(true, mag, 0)
    } else {
        round_pack_bits(false, v as u128, 0)
    }
}

/// Cuts a pattern down to a whole index.
pub fn to_index_bits(bits: u32) -> (index: usize)
    ensures
        index == to_index(bits),
{
    proof {
        reveal(to_index);
    }
    let (negative, m, u) = fields(bits);
    let rest: u32 = magnitude(bits);
    if rest > INFINITY_BITS || negative {
        0
    } else if rest == INFINITY_BITS {
        usize::MAX
    } else if u >= 0 {
        if m == 0 {
            proof {
                assert(0 * pow2(u as nat) == 0) by (nonlinear_arith);
            }
            0
        } else if u > 41 {
            proof {
                // a normal mantissa at this unit is beyond every index
                if u > 42 {
                    lemma_pow2_strictly_increases(42, u as nat);
                }
                lemma2_to64_rest();
                assert(m * pow2(u as nat) > usize::MAX) by (nonlinear_arith)
                    requires
                        m >= 0x80_0000,
                        pow2(u as nat) >= 0x400_0000_0000,
                        usize::MAX <= 0xFFFF_FFFF_FFFF_FFFF,
                ;
            }
            usize::MAX
        } else {
            let p: u128 = power_of_two(u as u32);
            proof {
                lemma2_to64_rest();
                if u < 41 {
                    lemma_pow2_strictly_increases(u as nat, 41);
                }
                assert(m * p <= 0x100_0000 * 0x200_0000_0000) by (nonlinear_arith)
                    requires
                        m < 0x100_0000,
                        p <= 0x200_0000_0000,
                ;
            }
            let whole: u128 = m as u128 * p;
            if whole > usize::MAX as u128 {
                usize::MAX
            } else {
                whole as usize
            }
        }
    } else {
        let down: u32 = (-u) as u32;
        if down > 30 {
            proof {
                lemma_pow2_strictly_increases(30, down as nat);
                lemma2_to64();
                let p = pow2(down as nat);
                assert(m as nat / p == 0) by (nonlinear_arith)
                    requires
                        0 <= m < p,
                ;
            }
            0
        } else {
            let p: u128 = power_of_two(down);
            let wide: u128 = m as u128;
            let whole: u128 = wide / p;
            assert(whole <= wide) by (nonlinear_arith)
                requires
                    whole == wide / p,
                    p >= 1,
                    wide >= 0,
            ;
            whole as usize
        }
    }
}

/// Whether the first value is less than the second.
pub fn less_bits(a: u32, b: u32) -> (lt: bool)
    ensures
        lt == less(a, b),
{
    let ra: u32 = magnitude(a);
    let rb: u32 = magnitude(b);
    if ra > INFINITY_BITS || rb > INFINITY_BITS {
        return false;
    }
    let ka: i64 = if a >= SIGN_BIT {
        -(ra as i64)
    } else {
        a as i64
    };
    let kb: i64 = if b >= SIGN_BIT {
        -(rb as i64)
    } else {
        b as i64
    };
    ka < kb
}

/// The larger of two values.
pub fn maximum_bits(a: u32, b: u32) -> (out: u32)
    ensures
        out == maximum(a, b),
{
    if magnitude(a) > INFINITY_BITS {
        b
    } else if magnitude(b) > INFINITY_BITS {
        a
    } else if less_bits(a, b) {
        b
    } else {
        a
    }
}

/// The smaller of two values.
pub fn minimum_bits(a: u32, b: u32) -> (out: u32)
    ensures
        out == minimum(a, b),
{
    if magnitude(a) > INFINITY_BITS {
        b
    } else if magnitude(b) > INFINITY_BITS {
        a
    } else if less_bits(b, a) {
        b
    } else {
        a
    }
}

} // verus!
