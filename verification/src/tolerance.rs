//! How far the rounded operations of `arithmetic32` are from the exact
//! ones, for operands of moderate size: each result of at most four in
//! magnitude is within `2^-22` of the exact result.
//!
//! Values are counted in units of `2^-149`, in which every finite pattern is
//! a whole number.

use vstd::prelude::*;
use vstd::arithmetic::power2::{
    lemma2_to64,
    lemma2_to64_rest,
    lemma_pow2_adds,
    lemma_pow2_pos,
    lemma_pow2_strictly_increases,
    lemma_pow2_unfold,
    pow2,
};
use crate::arithmetic32::{
    aligned_sum,
    difference,
    is_finite,
    is_negative,
    is_zero,
    lemma_bit_length_limit,
    lemma_round_even_nat_is_nearest,
    lemma_round_pack_value,
    mantissa,
    negated,
    product,
    quotient,
    round_pack,
    rounded_mantissa,
    rounding_unit,
    sum,
    unit_exponent,
    wide,
    wide_one,
};

verus! {

/// The value of a finite pattern, in units of `2^-149`.
pub open spec fn value(bits: u32) -> int {
    if is_negative(bits) {
        -(wide(bits) as int)
    } else {
        wide(bits) as int
    }
}

/// How far a rounded result of at most four in magnitude can be from the
/// exact one: `2^-22`, in units of `2^-149`.
pub open spec fn slack() -> nat {
    pow2(127)
}

/// A finite pattern of at most `limit` in magnitude.
pub open spec fn within(bits: u32, limit: nat) -> bool {
    is_finite(bits) && wide(bits) <= limit
}

/// A magnitude of at most four rounds to a finite pattern within `2^-22` of
/// it. The magnitude `mag * 2^exp` and the pattern are compared in units
/// that are `s` binary places below `2^-149`.
#[verifier::spinoff_prover]
pub proof fn lemma_round_pack_near(negative: bool, mag: nat, exp: int, s: nat)
    requires
        mag > 0,
        exp + 149 + s >= 0,
        mag * pow2((exp + 149 + s) as nat) <= pow2(151) * pow2(s),
    ensures
        is_finite(round_pack(negative, mag, exp)),
        is_negative(round_pack(negative, mag, exp)) == negative,
        wide(round_pack(negative, mag, exp)) * pow2(s) - mag * pow2((exp + 149 + s) as nat)
            <= slack() * pow2(s),
        mag * pow2((exp + 149 + s) as nat) - wide(round_pack(negative, mag, exp)) * pow2(s)
            <= slack() * pow2(s),
{
    let r = round_pack(negative, mag, exp);
    let fine = pow2((exp + 149 + s) as nat);
    let ps = pow2(s);
    let v = mag * fine;
    lemma_pow2_pos(s);
    lemma_pow2_pos((exp + 149 + s) as nat);
    lemma_pow2_adds(151, s);
    // the magnitude has few bits
    if exp >= 3 {
        if exp + 149 + s > 151 + s {
            lemma_pow2_strictly_increases(151 + s, (exp + 149 + s) as nat);
        }
        assert(mag * fine >= fine) by (nonlinear_arith)
            requires
                mag >= 1,
        ;
        if exp > 2 {
            assert(false);
        }
    }
    assert(exp <= 2);
    let top = pow2((2 - exp) as nat);
    lemma_pow2_adds((2 - exp) as nat, (exp + 149 + s) as nat);
    assert(mag <= top) by (nonlinear_arith)
        requires
            mag * fine <= top * fine,
            fine >= 1,
    ;
    lemma_pow2_unfold((3 - exp) as nat);
    lemma_pow2_pos((2 - exp) as nat);
    lemma_bit_length_limit(mag, (3 - exp) as nat);
    let u = rounding_unit(mag, exp);
    assert(-149 <= u <= -21);
    lemma_round_pack_value(negative, mag, exp);
    let q = rounded_mantissa(mag, exp);
    let pu = pow2((u + 149) as nat);
    assert(wide(r) == q * pu);
    assert(slack() * ps >= 0) by (nonlinear_arith)
        requires
            slack() >= 0,
            ps >= 0,
    ;
    if u <= exp {
        lemma_pow2_adds((exp - u) as nat, (u + 149) as nat);
        lemma_pow2_adds((exp + 149) as nat, s);
        assert(wide(r) * ps == v) by (nonlinear_arith)
            requires
                wide(r) == q * pu,
                q == mag * pow2((exp - u) as nat),
                pow2((exp - u) as nat) * pu == pow2((exp + 149) as nat),
                pow2((exp + 149) as nat) * ps == fine,
                v == mag * fine,
        ;
    } else {
        let d = (u - exp) as nat;
        let pd = pow2(d);
        lemma_round_even_nat_is_nearest(mag, d);
        lemma_pow2_adds((u + 149) as nat, s);
        lemma_pow2_adds(d, (exp + 149 + s) as nat);
        lemma_pow2_adds(127, s);
        lemma_pow2_unfold((128 + s) as nat);
        if u + 149 + s < 128 + s {
            lemma_pow2_strictly_increases((u + 149 + s) as nat, 128 + s);
        }
        assert(pd * fine <= 2 * (slack() * ps));
        assert(wide(r) * ps == (q * pd) * fine) by (nonlinear_arith)
            requires
                wide(r) == q * pu,
                pu * ps == pd * fine,
        ;
        assert(2 * ((q * pd) * fine - mag * fine) <= pd * fine && 2 * (mag * fine - (q * pd)
            * fine) <= pd * fine) by (nonlinear_arith)
            requires
                2 * (q * pd - mag) <= pd,
                2 * (mag - q * pd) <= pd,
                fine >= 1,
        ;
    }
}

/// A pattern of at most four in magnitude has a unit of at most `2^-21`,
/// and one of at most two a unit of at most `2^-22`.
pub proof fn lemma_unit_of_small(a: u32)
    requires
        within(a, 4 * wide_one()),
    ensures
        unit_exponent(a) <= -21,
        wide(a) <= 2 * wide_one() ==> unit_exponent(a) <= -22,
        mantissa(a) < 0x100_0000,
{
    let e = (unit_exponent(a) + 149) as nat;
    lemma2_to64();
    lemma_pow2_unfold(150);
    lemma_pow2_unfold(151);
    lemma_pow2_unfold(152);
    lemma_pow2_pos(149);
    if unit_exponent(a) >= -21 {
        assert(mantissa(a) >= 0x80_0000);
        assert(wide(a) == mantissa(a) * pow2(e));
        lemma_pow2_adds(23, 128);
        if e > 128 {
            lemma_pow2_strictly_increases(128, e);
        }
        assert(mantissa(a) * pow2(e) >= 0x80_0000 * pow2(128)) by (nonlinear_arith)
            requires
                mantissa(a) >= 0x80_0000,
                pow2(e) >= pow2(128),
        ;
        if unit_exponent(a) >= -20 {
            lemma_pow2_adds(23, 129);
            if e > 129 {
                lemma_pow2_strictly_increases(129, e);
            }
            assert(mantissa(a) * pow2(e) >= 0x80_0000 * pow2(129)) by (nonlinear_arith)
                requires
                    mantissa(a) >= 0x80_0000,
                    pow2(e) >= pow2(129),
            ;
            assert(false);
        }
    }
}

/// The product of two patterns of at most two in magnitude is within
/// `2^-22` of the exact product.
#[verifier::spinoff_prover]
pub proof fn lemma_product_near(a: u32, b: u32)
    requires
        within(a, 2 * wide_one()),
        within(b, 2 * wide_one()),
    ensures
        is_finite(product(a, b)),
        value(product(a, b)) * wide_one() - value(a) * value(b) <= slack() * wide_one(),
        value(a) * value(b) - value(product(a, b)) * wide_one() <= slack() * wide_one(),
{
    reveal(product);
    let one = wide_one();
    let ma = mantissa(a);
    let mb = mantissa(b);
    let mag = ma * mb;
    let exp = unit_exponent(a) + unit_exponent(b);
    let pa = pow2((unit_exponent(a) + 149) as nat);
    let pb = pow2((unit_exponent(b) + 149) as nat);
    let fine = pow2((exp + 298) as nat);
    let negative = is_negative(a) != is_negative(b);
    let p = product(a, b);
    lemma_pow2_adds((unit_exponent(a) + 149) as nat, (unit_exponent(b) + 149) as nat);
    lemma_pow2_pos(149);
    lemma_pow2_pos(127);
    assert(wide(a) * wide(b) == mag * fine) by (nonlinear_arith)
        requires
            wide(a) == ma * pa,
            wide(b) == mb * pb,
            mag == ma * mb,
            fine == pa * pb,
    ;
    assert(slack() * one >= 0) by (nonlinear_arith)
        requires
            slack() >= 0,
            one >= 0,
    ;
    if mag == 0 {
        reveal(round_pack);
        assert(mantissa(p) == 0);
        assert(wide(p) == 0) by (nonlinear_arith)
            requires
                wide(p) == mantissa(p) * pow2((unit_exponent(p) + 149) as nat),
                mantissa(p) == 0,
        ;
        assert(wide(a) * wide(b) == 0) by (nonlinear_arith)
            requires
                wide(a) * wide(b) == mag * fine,
                mag == 0,
        ;
        assert(value(p) * one == 0) by (nonlinear_arith)
            requires
                value(p) == 0,
        ;
        assert(value(a) * value(b) == 0) by (nonlinear_arith)
            requires
                wide(a) * wide(b) == 0,
                value(a) == wide(a) || value(a) == -wide(a),
                value(b) == wide(b) || value(b) == -wide(b),
        ;
    } else {
        lemma_pow2_unfold(150);
        lemma_pow2_unfold(151);
        lemma_pow2_adds(151, 149);
        assert(wide(a) * wide(b) <= (2 * one) * (2 * one)) by (nonlinear_arith)
            requires
                wide(a) <= 2 * one,
                wide(b) <= 2 * one,
        ;
        assert((2 * one) * (2 * one) == pow2(151) * one) by (nonlinear_arith)
            requires
                pow2(151) == 4 * one,
        ;
        lemma_round_pack_near(negative, mag, exp, 149);
        assert(p == round_pack(negative, mag, exp));
        let wa = wide(a) as int;
        let wb = wide(b) as int;
        let wp = wide(p) as int;
        let whole = one as int;
        let exact: int = value(a) * value(b);
        let sign: int = if negative {
            -1
        } else {
            1
        };
        assert(exact == sign * (wa * wb)) by (nonlinear_arith)
            requires
                exact == value(a) * value(b),
                value(a) == wa || value(a) == -wa,
                value(b) == wb || value(b) == -wb,
                (value(a) == -wa) == is_negative(a) || wa == 0,
                (value(b) == -wb) == is_negative(b) || wb == 0,
                negative == (is_negative(a) != is_negative(b)),
                sign == if negative {
                    -1int
                } else {
                    1int
                },
        ;
        assert(value(p) * whole == sign * (wp * whole)) by (nonlinear_arith)
            requires
                value(p) == sign * wp,
        ;
        assert(sign * (wp * whole) - sign * (wa * wb) <= slack() * whole && sign * (wa * wb)
            - sign * (wp * whole) <= slack() * whole) by (nonlinear_arith)
            requires
                sign == 1 || sign == -1,
                wp * whole - wa * wb <= slack() * whole,
                wa * wb - wp * whole <= slack() * whole,
        ;
    }
}

/// A zero is worth nothing.
proof fn lemma_zero_is_worth_nothing(a: u32)
    requires
        is_zero(a),
    ensures
        wide(a) == 0,
        value(a) == 0,
{
    assert(mantissa(a) == 0);
    assert(wide(a) == 0) by (nonlinear_arith)
        requires
            wide(a) == mantissa(a) * pow2((unit_exponent(a) + 149) as nat),
            mantissa(a) == 0,
    ;
}

/// The sum of two patterns of at most four in magnitude together, neither
/// zero and the first with the larger unit, is within `2^-22` of the exact
/// sum.
#[verifier::spinoff_prover]
proof fn lemma_aligned_sum_near(hi: u32, lo: u32)
    requires
        is_finite(hi),
        is_finite(lo),
        wide(hi) + wide(lo) <= 4 * wide_one(),
        !is_zero(hi),
        !is_zero(lo),
        unit_exponent(hi) >= unit_exponent(lo),
    ensures
        is_finite(aligned_sum(hi, lo)),
        value(aligned_sum(hi, lo)) - (value(hi) + value(lo)) <= slack(),
        (value(hi) + value(lo)) - value(aligned_sum(hi, lo)) <= slack(),
{
    reveal(aligned_sum);
    lemma2_to64();
    let one = wide_one();
    let r = aligned_sum(hi, lo);
    let uh = unit_exponent(hi);
    let ul = unit_exponent(lo);
    let ph = pow2((uh + 149) as nat);
    let pl = pow2((ul + 149) as nat);
    let gap = (uh - ul) as nat;
    let wh = wide(hi) as int;
    let wl = wide(lo) as int;
    lemma_unit_of_small(hi);
    lemma_unit_of_small(lo);
    lemma_pow2_unfold(152);
    lemma_pow2_pos(127);
    lemma_pow2_pos(149);
    lemma_pow2_pos((ul + 149) as nat);
    lemma_pow2_pos((uh + 149) as nat);
    lemma_pow2_unfold(150);
    lemma_pow2_unfold(151);
    if gap > 60 {
        lemma_pow2_adds(24, (ul + 149) as nat);
        lemma_pow2_strictly_increases((ul + 173) as nat, 127);
        assert(wide(lo) < pow2((ul + 173) as nat)) by (nonlinear_arith)
            requires
                wide(lo) == mantissa(lo) * pl,
                mantissa(lo) < 0x100_0000,
                pow2((ul + 173) as nat) == 0x100_0000 * pl,
                pl >= 1,
        ;
    } else {
        let x = mantissa(hi) * pow2(gap);
        let y = mantissa(lo);
        lemma_pow2_adds(gap, (ul + 149) as nat);
        assert(x * pl == wh) by (nonlinear_arith)
            requires
                x == mantissa(hi) * pow2(gap),
                wh == mantissa(hi) * ph,
                ph == pow2(gap) * pl,
        ;
        assert(y * pl == wl);
        assert(wh >= 1 && wl >= 1) by (nonlinear_arith)
            requires
                wh == mantissa(hi) * ph,
                wl == mantissa(lo) * pl,
                mantissa(hi) >= 1,
                mantissa(lo) >= 1,
                ph >= 1,
                pl >= 1,
        ;
        let fine = pow2((ul + 149 + 0) as nat);
        assert(fine == pl);
        assert(pow2(0) == 1);
        if is_negative(hi) == is_negative(lo) {
            let mag = x + y;
            assert(mag * pl == wh + wl) by (nonlinear_arith)
                requires
                    mag == x + y,
                    x * pl == wh,
                    y * pl == wl,
            ;
            assert(mag > 0) by (nonlinear_arith)
                requires
                    mag * pl == wh + wl,
                    wh + wl >= 2,
                    pl >= 1,
                    mag >= 0,
            ;
            assert(pow2(151) * pow2(0) == 4 * one) by (nonlinear_arith)
                requires
                    pow2(151) == 4 * one,
                    pow2(0) == 1,
            ;
            lemma_round_pack_near(is_negative(hi), mag, ul, 0);
            assert(r == round_pack(is_negative(hi), mag, ul));
            assert(wide(r) * pow2(0) == wide(r) && slack() * pow2(0) == slack())
                by (nonlinear_arith)
                requires
                    pow2(0) == 1,
            ;
        } else if x == y {
            assert(r == 0);
            lemma_zero_is_worth_nothing(0);
            assert(wh == wl);
        } else if x > y {
            let mag = (x - y) as nat;
            assert(mag * pl == wh - wl) by (nonlinear_arith)
                requires
                    mag == x - y,
                    x * pl == wh,
                    y * pl == wl,
            ;
            assert(pow2(151) * pow2(0) == 4 * one) by (nonlinear_arith)
                requires
                    pow2(151) == 4 * one,
                    pow2(0) == 1,
            ;
            lemma_round_pack_near(is_negative(hi), mag, ul, 0);
            assert(r == round_pack(is_negative(hi), mag, ul));
            assert(wide(r) * pow2(0) == wide(r) && slack() * pow2(0) == slack())
                by (nonlinear_arith)
                requires
                    pow2(0) == 1,
            ;
        } else {
            let mag = (y - x) as nat;
            assert(mag * pl == wl - wh) by (nonlinear_arith)
                requires
                    mag == y - x,
                    x * pl == wh,
                    y * pl == wl,
            ;
            assert(pow2(151) * pow2(0) == 4 * one) by (nonlinear_arith)
                requires
                    pow2(151) == 4 * one,
                    pow2(0) == 1,
            ;
            lemma_round_pack_near(is_negative(lo), mag, ul, 0);
            assert(r == round_pack(is_negative(lo), mag, ul));
            assert(wide(r) * pow2(0) == wide(r) && slack() * pow2(0) == slack())
                by (nonlinear_arith)
                requires
                    pow2(0) == 1,
            ;
        }
    }
}

/// The sum of two patterns of at most four in magnitude together is within
/// `2^-22` of the exact sum.
pub proof fn lemma_sum_near(a: u32, b: u32)
    requires
        is_finite(a),
        is_finite(b),
        wide(a) + wide(b) <= 4 * wide_one(),
    ensures
        is_finite(sum(a, b)),
        value(sum(a, b)) - (value(a) + value(b)) <= slack(),
        (value(a) + value(b)) - value(sum(a, b)) <= slack(),
{
    reveal(sum);
    lemma_pow2_pos(127);
    if is_zero(a) {
        lemma_zero_is_worth_nothing(a);
        if is_zero(b) {
            lemma_zero_is_worth_nothing(b);
            lemma_zero_is_worth_nothing(0);
        }
    } else if is_zero(b) {
        lemma_zero_is_worth_nothing(b);
    } else if unit_exponent(a) >= unit_exponent(b) {
        lemma_aligned_sum_near(a, b);
    } else {
        lemma_aligned_sum_near(b, a);
    }
}

/// The difference of two patterns of at most four in magnitude together is
/// within `2^-22` of the exact difference.
pub proof fn lemma_difference_near(a: u32, b: u32)
    requires
        is_finite(a),
        is_finite(b),
        wide(a) + wide(b) <= 4 * wide_one(),
    ensures
        is_finite(difference(a, b)),
        value(difference(a, b)) - (value(a) - value(b)) <= slack(),
        (value(a) - value(b)) - value(difference(a, b)) <= slack(),
{
    reveal(difference);
    let nb = negated(b);
    assert(mantissa(nb) == mantissa(b) && unit_exponent(nb) == unit_exponent(b));
    assert(wide(nb) == wide(b));
    if is_zero(b) {
        lemma_zero_is_worth_nothing(b);
        lemma_zero_is_worth_nothing(nb);
    }
    assert(value(nb) == -value(b));
    lemma_sum_near(a, nb);
}

/// The quotient of a pattern of at most three halves in magnitude and a
/// pattern from one half to two is within `2^-21` of the exact quotient.
#[verifier::spinoff_prover]
pub proof fn lemma_quotient_near(a: u32, b: u32)
    requires
        within(a, 2 * wide_one()),
        2 * wide(a) <= 3 * wide_one(),
        within(b, 2 * wide_one()),
        !is_negative(b),
        2 * wide(b) >= wide_one(),
    ensures
        is_finite(quotient(a, b)),
        value(quotient(a, b)) * wide(b) - value(a) * wide_one() <= 2 * slack() * wide(b),
        value(a) * wide_one() - value(quotient(a, b)) * wide(b) <= 2 * slack() * wide(b),
{
    reveal(quotient);
    lemma2_to64();
    lemma2_to64_rest();
    let one = wide_one() as int;
    let eps = slack() as int;
    let c = quotient(a, b);
    let ma = mantissa(a);
    let mb = mantissa(b);
    let ua = unit_exponent(a);
    let ub = unit_exponent(b);
    let pa = pow2((ua + 149) as nat) as int;
    let pb = pow2((ub + 149) as nat) as int;
    let wa = wide(a) as int;
    let wb = wide(b) as int;
    let negative = is_negative(a);
    lemma_unit_of_small(a);
    lemma_unit_of_small(b);
    lemma_pow2_pos(127);
    lemma_pow2_pos(149);
    lemma_pow2_pos((ua + 149) as nat);
    lemma_pow2_pos((ub + 149) as nat);
    lemma_pow2_unfold(149);
    lemma_pow2_unfold(150);
    lemma_pow2_unfold(151);
    // the divisor is at least one half: its unit is at least `2^-24`
    if ub <= -25 {
        lemma_pow2_adds(24, 124);
        if ub + 149 < 124 {
            lemma_pow2_strictly_increases((ub + 149) as nat, 124);
        }
        assert(mb * pb < 0x100_0000 * pow2(124)) by (nonlinear_arith)
            requires
                mb < 0x100_0000,
                1 <= pb <= pow2(124),
        ;
        assert(false);
    }
    assert(-24 <= ub <= -22);
    assert(!is_zero(b));
    assert(2 * eps * wb >= 0) by (nonlinear_arith)
        requires
            eps >= 0,
            wb >= 0,
    ;
    if is_zero(a) {
        lemma_zero_is_worth_nothing(a);
        lemma_zero_is_worth_nothing(c);
        assert(value(c) * wb == 0 && value(a) * one == 0) by (nonlinear_arith)
            requires
                value(c) == 0,
                value(a) == 0,
        ;
    } else {
        let n = ma * 0x4_0000_0000_0000;
        let t = n / mb;
        let rem = n % mb;
        let cut: nat = if rem != 0 {
            1
        } else {
            0
        };
        let mag = t * 2 + cut;
        let exp = ua - ub - 51;
        let k: int = 0x8_0000_0000_0000;
        assert(c == round_pack(negative, mag, exp));
        assert(ma >= 1 && mb >= 1);
        assert(n == t * mb + rem && 0 <= rem < mb) by (nonlinear_arith)
            requires
                t == n / mb,
                rem == n % mb,
                mb >= 1,
        ;
        assert(t >= 0x400_0000) by (nonlinear_arith)
            requires
                n == t * mb + rem,
                rem < mb,
                n == ma * 0x4_0000_0000_0000,
                ma >= 1,
                mb < 0x100_0000,
                mb >= 1,
        ;
        let fine = pow2((exp + 200) as nat) as int;
        lemma_pow2_pos((exp + 200) as nat);
        lemma_pow2_adds((exp + 200) as nat, (ub + 149) as nat);
        lemma_pow2_adds((ua + 149) as nat, 149);
        let w = pa * one;
        assert(fine * pb == w);
        let v = mag * fine;
        // what the magnitude stands for, times the divisor
        let low: int = mag * mb - 2 * n;
        assert(-2 * mb <= low <= mb) by (nonlinear_arith)
            requires
                low == mag * mb - 2 * n,
                mag == t * 2 + cut,
                n == t * mb + rem,
                0 <= rem < mb,
                0 <= cut <= 1,
                cut == 0 ==> rem == 0,
                mb >= 1,
        ;
        assert(v * wb == (mag * mb) * w) by (nonlinear_arith)
            requires
                v == mag * fine,
                wb == mb * pb,
                fine * pb == w,
        ;
        assert(wa * one * k == (2 * n) * w) by (nonlinear_arith)
            requires
                wa == ma * pa,
                n == ma * 0x4_0000_0000_0000,
                w == pa * one,
                k == 0x8_0000_0000_0000,
        ;
        assert(v * wb - wa * one * k == low * w) by (nonlinear_arith)
            requires
                v * wb == (mag * mb) * w,
                wa * one * k == (2 * n) * w,
                low == mag * mb - 2 * n,
        ;
        // the divisor's part of that is small beside the slack
        if ua + 149 < 127 {
            lemma_pow2_strictly_increases((ua + 149) as nat, 127);
        }
        assert(pa <= eps);
        if ub + 149 > 125 {
            lemma_pow2_strictly_increases(125, (ub + 149) as nat);
        }
        lemma_pow2_adds(24, 125);
        assert(pb >= pow2(125));
        assert(one == 0x100_0000 * pow2(125));
        assert(2 * w <= eps * k * pb) by (nonlinear_arith)
            requires
                w == pa * one,
                pa <= eps,
                one == 0x100_0000 * pow2(125),
                pb >= pow2(125),
                pow2(125) >= 1,
                eps >= 0,
                k == 0x8_0000_0000_0000,
        ;
        assert(-(eps * k * wb) <= low * w <= eps * k * wb) by (nonlinear_arith)
            requires
                -2 * mb <= low <= mb,
                2 * w <= eps * k * pb,
                wb == mb * pb,
                w >= 0,
                mb >= 1,
        ;
        // the magnitude is at most four
        assert(mb * pa <= 0x100_0000 * eps) by (nonlinear_arith)
            requires
                mb < 0x100_0000,
                0 <= pa <= eps,
        ;
        lemma_pow2_adds(24, 127);
        assert(0x100_0000 * eps == 4 * one);
        assert(v * wb <= wa * one * k + 4 * one * one) by (nonlinear_arith)
            requires
                v * wb - wa * one * k == low * w,
                low <= mb,
                w == pa * one,
                mb * pa <= 4 * one,
                one >= 0,
                w >= 0,
        ;
        assert(wa * one * k <= 3 * (one * one) * 0x4_0000_0000_0000) by (nonlinear_arith)
            requires
                2 * wa <= 3 * one,
                one >= 0,
                k == 0x8_0000_0000_0000,
        ;
        assert(v <= 4 * one * k) by (nonlinear_arith)
            requires
                v * wb <= wa * one * k + 4 * one * one,
                wa * one * k <= 3 * (one * one) * 0x4_0000_0000_0000,
                2 * wb >= one,
                one >= 1,
                v >= 0,
                k == 0x8_0000_0000_0000,
        ;
        assert(pow2(151) * pow2(51) == 4 * one * k) by (nonlinear_arith)
            requires
                pow2(151) == 4 * one,
                pow2(51) == k,
        ;
        lemma_round_pack_near(negative, mag, exp, 51);
        let wc = wide(c) as int;
        assert(-(eps * k) <= wc * k - v <= eps * k);
        assert(-(eps * k * wb) <= (wc * k - v) * wb <= eps * k * wb) by (nonlinear_arith)
            requires
                -(eps * k) <= wc * k - v <= eps * k,
                wb >= 0,
        ;
        let x = wc * wb;
        let y = wa * one;
        assert((x - y) * k == (wc * k - v) * wb + (v * wb - wa * one * k)) by (nonlinear_arith)
            requires
                x == wc * wb,
                y == wa * one,
        ;
        assert(-(2 * eps * wb) <= x - y <= 2 * eps * wb) by (nonlinear_arith)
            requires
                (x - y) * k == (wc * k - v) * wb + (v * wb - wa * one * k),
                -(eps * k * wb) <= (wc * k - v) * wb <= eps * k * wb,
                v * wb - wa * one * k == low * w,
                -(eps * k * wb) <= low * w <= eps * k * wb,
                k == 0x8_0000_0000_0000,
        ;
        let sign: int = if negative {
            -1
        } else {
            1
        };
        let lhs: int = value(c) * wb - value(a) * one;
        let bound: int = 2 * eps * wb;
        assert(lhs == sign * (x - y)) by (nonlinear_arith)
            requires
                lhs == value(c) * wb - value(a) * one,
                value(c) == sign * wc,
                value(a) == sign * wa,
                x == wc * wb,
                y == wa * one,
        ;
        assert(lhs <= bound && -lhs <= bound) by (nonlinear_arith)
            requires
                lhs == sign * (x - y),
                sign == 1 || sign == -1,
                bound == 2 * eps * wb,
                -(2 * eps * wb) <= x - y <= 2 * eps * wb,
        ;
    }
    assert(2 * slack() * wide(b) == 2 * eps * wb);
    assert(value(c) * wb - value(a) * one <= 2 * eps * wb);
    assert(value(a) * one - value(c) * wb <= 2 * eps * wb);
}

/// Two finite numbers differ by at most one part in `parts`.
pub open spec fn close_values(a: u32, b: u32, parts: nat) -> bool {
    is_finite(a) && is_finite(b) && parts * (value(a) - value(b)) <= wide_one() && parts * (value(
        b,
    ) - value(a)) <= wide_one()
}

} // verus!
