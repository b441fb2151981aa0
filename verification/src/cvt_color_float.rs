//! The colour conversions on normalised samples, in binary32 arithmetic on
//! bit patterns: gray from RGB by four luma standards, RGB to and from CMYK,
//! RGB to and from YCbCr by three standards, and the channel moves.

use vstd::prelude::*;
use vstd::arithmetic::div_mod::lemma_mod_multiples_basic;
use vstd::arithmetic::power2::{lemma2_to64, lemma_pow2_adds, lemma_pow2_pos, lemma_pow2_unfold, pow2};
use crate::tolerance::{
    close_values,
    lemma_difference_near,
    lemma_product_near,
    lemma_quotient_near,
    lemma_sum_near,
    slack,
    value,
    within,
};
use crate::arithmetic32::{
    is_finite,
    is_negative,
    close_tones,
    grid_step,
    is_tone,
    lemma_complement_of_tone,
    lemma_difference_of_tones,
    lemma_order_of_patterns,
    lemma_product_of_tones,
    lemma_quotient_of_tones,
    lemma_tones_are_up_to_one,
    mantissa,
    unit_exponent,
    wide,
    wide_one,
    lemma_one_and_zero,
    lemma_zero_changes_nothing,
    difference,
    difference_bits,
    in_unit_range,
    is_zero,
    maximum,
    maximum_bits,
    minimum,
    minimum_bits,
    product,
    product_bits,
    quotient,
    quotient_bits,
    sum,
    sum_bits,
    HALF_BITS,
    NEGATIVE_ZERO_BITS,
    ONE_BITS,
    SIGN_BIT,
    ZERO_BITS,
};
use crate::cvt_constants::{
    average,
    average_weight,
    coefficients,
    coefficients_of,
    Coefficients,
    KB_2020,
    KB_601,
    KB_709,
    KR_2020,
    KR_601,
    KR_709,
};
use crate::enums::CvtType;
use crate::errors::PixelError;

verus! {

/// A value limited to the range from zero to one.
pub open spec fn clamped(v: u32) -> u32 {
    minimum(maximum(v, ZERO_BITS), ONE_BITS)
}

/// Gray of one pixel: `r * kr + g * kg + b * kb`.
pub open spec fn rgb_to_gray(r: u32, g: u32, b: u32, kr: u32, kg: u32, kb: u32) -> u32 {
    sum(sum(product(r, kr), product(g, kg)), product(b, kb))
}

/// YCbCr of one pixel: luma, and the blue and red differences brought into
/// their ranges and centred on one half.
pub open spec fn rgb_to_ycbcr(r: u32, g: u32, b: u32, c: Coefficients) -> (u32, u32, u32) {
    let y = rgb_to_gray(r, g, b, c.kr, c.kg, c.kb);
    (
        y,
        sum(quotient(difference(b, y), c.kd), HALF_BITS),
        sum(quotient(difference(r, y), c.ke), HALF_BITS),
    )
}

/// RGB of one YCbCr pixel, each channel limited to the range from zero to
/// one.
pub open spec fn ycbcr_to_rgb(y: u32, cb: u32, cr: u32, c: Coefficients) -> (u32, u32, u32) {
    let cb = difference(cb, HALF_BITS);
    let cr = difference(cr, HALF_BITS);
    (
        clamped(sum(y, product(c.ke, cr))),
        clamped(difference(difference(y, product(c.crg, cr)), product(c.cbg, cb))),
        clamped(sum(y, product(c.kd, cb))),
    )
}

/// RGB of one CMYK pixel: `(1 - c) * (1 - k)` and so on.
pub open spec fn cmyk_to_rgb(c: u32, m: u32, y: u32, k: u32) -> (u32, u32, u32) {
    let white = difference(ONE_BITS, k);
    (
        product(difference(ONE_BITS, c), white),
        product(difference(ONE_BITS, m), white),
        product(difference(ONE_BITS, y), white),
    )
}

/// CMYK of one pixel: black is pure key; otherwise key is the least of the
/// three complements, and each colour is what its complement has beyond key,
/// as a share of what is not key.
pub open spec fn rgb_to_cmyk(r: u32, g: u32, b: u32) -> (u32, u32, u32, u32) {
    if is_zero(r) && is_zero(g) && is_zero(b) {
        (ZERO_BITS, ZERO_BITS, ZERO_BITS, ONE_BITS)
    } else {
        let c = difference(ONE_BITS, r);
        let m = difference(ONE_BITS, g);
        let y = difference(ONE_BITS, b);
        let key = minimum(minimum(c, m), y);
        let rest = difference(ONE_BITS, key);
        (
            quotient(difference(c, key), rest),
            quotient(difference(m, key), rest),
            quotient(difference(y, key), rest),
            key,
        )
    }
}

/// Whatever the three channels of a YCbCr pixel hold, each channel of its
/// RGB pixel is a number from zero to one.
pub proof fn lemma_ycbcr_to_rgb_in_range(y: u32, cb: u32, cr: u32, c: Coefficients)
    ensures
        in_unit_range(ycbcr_to_rgb(y, cb, cr, c).0),
        in_unit_range(ycbcr_to_rgb(y, cb, cr, c).1),
        in_unit_range(ycbcr_to_rgb(y, cb, cr, c).2),
{
    let shifted_cb = difference(cb, HALF_BITS);
    let shifted_cr = difference(cr, HALF_BITS);
    lemma_clamped_in_range(sum(y, product(c.ke, shifted_cr)));
    lemma_clamped_in_range(
        difference(difference(y, product(c.crg, shifted_cr)), product(c.cbg, shifted_cb)),
    );
    lemma_clamped_in_range(sum(y, product(c.kd, shifted_cb)));
}

/// Limiting gives a number from zero to one, whatever is limited.
pub proof fn lemma_clamped_in_range(v: u32)
    ensures
        in_unit_range(clamped(v)),
{
}

/// A pattern of a number from zero to one: a tone, or the zero with a sign.
pub open spec fn is_unit(x: u32) -> bool {
    x <= ONE_BITS || x == NEGATIVE_ZERO_BITS
}

/// A number from zero to one is finite and worth from nothing to one.
proof fn lemma_unit(x: u32)
    requires
        is_unit(x),
    ensures
        is_finite(x),
        wide(x) <= wide_one(),
        0 <= value(x) <= wide_one(),
        x <= ONE_BITS ==> value(x) == wide(x),
        x == NEGATIVE_ZERO_BITS ==> value(x) == 0 && wide(x) == 0,
{
    if x <= ONE_BITS {
        lemma_tones_are_up_to_one(x);
    } else {
        assert(mantissa(x) == 0);
        lemma_pow2_pos(149);
        assert(wide(x) == 0) by (nonlinear_arith)
            requires
                wide(x) == mantissa(x) * pow2((unit_exponent(x) + 149) as nat),
                mantissa(x) == 0,
        ;
    }
}

/// The complement of the zero with a sign is that of zero.
proof fn lemma_complement_of_signed_zero()
    ensures
        difference(ONE_BITS, NEGATIVE_ZERO_BITS) == difference(ONE_BITS, ZERO_BITS),
{
    reveal(difference);
    reveal(sum);
}

/// Bit pattern of `2^-25`: the complement of a tone up to it rounds to one.
pub const DARK_BITS: u32 = 0x3300_0000;

/// The bound on a channel that went to CMYK and back, from the bounds on
/// the four roundings on its way: with `wc` for the complement of the tone
/// `wx`, `wq` for its share beyond the key `k`, `wd` for the complement of
/// that share and `wp` for the channel that comes back.
#[verifier::spinoff_prover]
proof fn lemma_round_trip_bound(
    wx: int,
    wc: int,
    k: int,
    wq: int,
    wd: int,
    wp: int,
    one: int,
    step: int,
)
    requires
        one > 0,
        step >= 0,
        0 <= k <= wc <= one,
        2 * (wc - (one - wx)) <= step,
        2 * ((one - wx) - wc) <= step,
        wq * (one - k) - (wc - k) * one <= step * (one - k),
        (wc - k) * one - wq * (one - k) <= step * (one - k),
        2 * (wd - (one - wq)) <= step,
        2 * ((one - wq) - wd) <= step,
        wp * one - wd * (one - k) <= step * one,
        wd * (one - k) - wp * one <= step * one,
    ensures
        wp - wx <= 3 * step,
        wx - wp <= 3 * step,
{
    let r = one - k;
    let part_d = wd * r;
    let part_q = wq * r;
    let part_b = (wc - k) * one;
    assert(2 * (part_d - one * r + part_q) <= step * r && 2 * (one * r - part_q - part_d) <= step * r)
        by (nonlinear_arith)
        requires
            part_d == wd * r,
            part_q == wq * r,
            2 * (wd - (one - wq)) <= step,
            2 * ((one - wq) - wd) <= step,
            r >= 0,
    ;
    assert(step * r <= step * one) by (nonlinear_arith)
        requires
            0 <= r <= one,
            step >= 0,
    ;
    assert(one * r - part_b == one * (one - wc)) by (nonlinear_arith)
        requires
            r == one - k,
            part_b == (wc - k) * one,
    ;
    let target = one * (one - wc);
    let back = wp * one;
    assert(2 * (back - target) <= 5 * (step * one) && 2 * (target - back) <= 5 * (step * one));
    assert(2 * (wp - (one - wc)) <= 5 * step && 2 * ((one - wc) - wp) <= 5 * step)
        by (nonlinear_arith)
        requires
            back == wp * one,
            target == one * (one - wc),
            2 * (back - target) <= 5 * (step * one),
            2 * (target - back) <= 5 * (step * one),
            one > 0,
    ;
}

/// A channel that is taken to its share beyond a key and back comes back
/// within `1e-5`, for a key on the grid of `2^-24` that is below one and no
/// more than the complement of the channel.
#[verifier::spinoff_prover]
proof fn lemma_channel_round_trip(x: u32, key: u32)
    requires
        is_tone(x),
        is_tone(key),
        wide(key) % grid_step() == 0,
        wide(key) <= wide(difference(ONE_BITS, x)),
        wide(key) < wide_one(),
    ensures
        close_tones(
            product(
                difference(
                    ONE_BITS,
                    quotient(
                        difference(difference(ONE_BITS, x), key),
                        difference(ONE_BITS, key),
                    ),
                ),
                difference(ONE_BITS, key),
            ),
            x,
            100000,
        ),
{
    let one = wide_one();
    let step = grid_step();
    let c = difference(ONE_BITS, x);
    let rest = difference(ONE_BITS, key);
    let beyond = difference(c, key);
    let share = quotient(beyond, rest);
    let d = difference(ONE_BITS, share);
    let p = product(d, rest);
    lemma2_to64();
    lemma_pow2_pos(125);
    lemma_pow2_adds(24, 125);
    lemma_order_of_patterns(ONE_BITS, ONE_BITS);
    lemma_tones_are_up_to_one(ONE_BITS);
    lemma_complement_of_tone(x);
    lemma_complement_of_tone(key);
    lemma_difference_of_tones(ONE_BITS, key);
    assert(wide(ONE_BITS) % step == 0) by {
        lemma_mod_multiples_basic(0x100_0000, step as int);
    }
    assert(wide(rest) == one - wide(key));
    lemma_difference_of_tones(c, key);
    assert(wide(beyond) == wide(c) - wide(key));
    assert(is_tone(beyond));
    lemma_quotient_of_tones(beyond, rest);
    lemma_complement_of_tone(share);
    lemma_product_of_tones(d, rest);
    lemma_round_trip_bound(
        wide(x) as int,
        wide(c) as int,
        wide(key) as int,
        wide(share) as int,
        wide(d) as int,
        wide(p) as int,
        one as int,
        step as int,
    );
    lemma_tones_are_up_to_one(x);
}

/// A colour of tones from zero to one that goes to CMYK and back comes
/// back within `1e-5` in each channel, unless it is too dark to tell from
/// black without being black: with a channel that is not zero and none above
/// `2^-25`, the key rounds to one and leaves nothing to take shares of.
#[verifier::spinoff_prover]
pub proof fn lemma_cmyk_round_trip(r: u32, g: u32, b: u32)
    requires
        is_unit(r),
        is_unit(g),
        is_unit(b),
        (is_zero(r) && is_zero(g) && is_zero(b)) || DARK_BITS < r <= ONE_BITS || DARK_BITS < g
            <= ONE_BITS || DARK_BITS < b <= ONE_BITS,
    ensures
        ({
            let cmyk = rgb_to_cmyk(r, g, b);
            let back = cmyk_to_rgb(cmyk.0, cmyk.1, cmyk.2, cmyk.3);
            close_values(back.0, r, 100000) && close_values(back.1, g, 100000) && close_values(
                back.2,
                b,
                100000,
            )
        }),
{
    let one = wide_one();
    let step = grid_step();
    lemma2_to64();
    lemma_pow2_pos(125);
    lemma_pow2_pos(149);
    lemma_unit(r);
    lemma_unit(g);
    lemma_unit(b);
    lemma_unit(ZERO_BITS);
    if is_zero(r) && is_zero(g) && is_zero(b) {
        lemma_black_round_trip();
    } else {
        // a zero with a sign has the complement of zero
        let r0 = if r == NEGATIVE_ZERO_BITS {
            ZERO_BITS
        } else {
            r
        };
        let g0 = if g == NEGATIVE_ZERO_BITS {
            ZERO_BITS
        } else {
            g
        };
        let b0 = if b == NEGATIVE_ZERO_BITS {
            ZERO_BITS
        } else {
            b
        };
        lemma_complement_of_signed_zero();
        let c = difference(ONE_BITS, r);
        let m = difference(ONE_BITS, g);
        let y = difference(ONE_BITS, b);
        assert(c == difference(ONE_BITS, r0) && m == difference(ONE_BITS, g0) && y == difference(
            ONE_BITS,
            b0,
        ));
        let key = minimum(minimum(c, m), y);
        lemma_tones_are_up_to_one(r0);
        lemma_tones_are_up_to_one(g0);
        lemma_tones_are_up_to_one(b0);
        lemma_complement_of_tone(r0);
        lemma_complement_of_tone(g0);
        lemma_complement_of_tone(b0);
        lemma_tones_are_up_to_one(c);
        lemma_tones_are_up_to_one(m);
        lemma_tones_are_up_to_one(y);
        assert(key == c || key == m || key == y);
        assert(key <= c && key <= m && key <= y);
        lemma_order_of_patterns(key, c);
        lemma_order_of_patterns(key, m);
        lemma_order_of_patterns(key, y);
        // a channel above `2^-25` has a complement below one
        assert(mantissa(DARK_BITS) == 0x80_0000 && unit_exponent(DARK_BITS) == -48);
        lemma_pow2_adds(23, 101);
        lemma_pow2_unfold(125);
        assert(2 * wide(DARK_BITS) == step);
        if DARK_BITS < r <= ONE_BITS {
            lemma_order_of_patterns(DARK_BITS, r);
        } else if DARK_BITS < g <= ONE_BITS {
            lemma_order_of_patterns(DARK_BITS, g);
        } else {
            lemma_order_of_patterns(DARK_BITS, b);
        }
        assert(wide(key) < one);
        lemma_channel_round_trip(r0, key);
        lemma_channel_round_trip(g0, key);
        lemma_channel_round_trip(b0, key);
        lemma_unit(r0);
        lemma_unit(g0);
        lemma_unit(b0);
        assert(value(r0) == value(r) && value(g0) == value(g) && value(b0) == value(b));
    }
}

/// A tone times a weight, rounded with slack `e`, is at most the weight and
/// the slack.
proof fn lemma_weighted_size(p: int, x: int, k: int, one: int, e: int)
    requires
        one > 0,
        e >= 0,
        0 <= x <= one,
        0 <= k,
        p * one - x * k <= e * one,
        x * k - p * one <= e * one,
    ensures
        -e <= p <= k + e,
{
    assert(0 <= x * k <= one * k) by (nonlinear_arith)
        requires
            0 <= x <= one,
            0 <= k,
    ;
    assert(p <= k + e) by (nonlinear_arith)
        requires
            p * one <= one * k + e * one,
            one > 0,
    ;
    assert(p >= -e) by (nonlinear_arith)
        requires
            p * one >= -(e * one),
            one > 0,
    ;
}

/// A product of factors within `la` and `lb`, rounded with slack `e`, is
/// within `bound + e` where `la * lb` is at most `bound`.
proof fn lemma_product_size(p: int, a: int, b: int, la: int, lb: int, bound: int, one: int, e: int)
    requires
        one > 0,
        e >= 0,
        -la <= a <= la,
        -lb <= b <= lb,
        la * lb <= bound * one,
        p * one - a * b <= e * one,
        a * b - p * one <= e * one,
    ensures
        -(bound + e) <= p <= bound + e,
{
    assert(-(la * lb) <= a * b <= la * lb) by (nonlinear_arith)
        requires
            -la <= a <= la,
            -lb <= b <= lb,
    ;
    assert(p <= bound + e) by (nonlinear_arith)
        requires
            p * one <= bound * one + e * one,
            one > 0,
    ;
    assert(p >= -(bound + e)) by (nonlinear_arith)
        requires
            p * one >= -(bound * one) - e * one,
            one > 0,
    ;
}

/// A quotient by a range of at least `1.3`, of a difference of at most
/// `1.25`, is at most one in magnitude.
#[verifier::spinoff_prover]
proof fn lemma_quotient_size(q: int, d: int, k: int, one: int, e: int)
    requires
        e >= 1,
        one == 4194304 * e,
        10 * k >= 13 * one,
        k <= 2 * one,
        -5 * one <= 4 * d <= 5 * one,
        q * k - d * one <= 2 * e * k,
        d * one - q * k <= 2 * e * k,
    ensures
        -one <= q <= one,
{
    assert(-5 * (one * one) <= 4 * (d * one) <= 5 * (one * one)) by (nonlinear_arith)
        requires
            -5 * one <= 4 * d <= 5 * one,
            one >= 0,
    ;
    assert(2 * e * k <= 4 * (e * one)) by (nonlinear_arith)
        requires
            0 <= k <= 2 * one,
            e >= 0,
    ;
    assert(160 * (e * one) <= one * one) by (nonlinear_arith)
        requires
            one == 4194304 * e,
            e >= 1,
    ;
    assert(2 * e * k == 2 * (e * k) && 2 * (e * k) <= 4 * (e * one)) by (nonlinear_arith)
        requires
            0 <= k <= 2 * one,
            e >= 0,
    ;
    let qk = q * k;
    let dw = d * one;
    let sq = one * one;
    let ew = e * one;
    assert(-5 * sq <= 4 * dw <= 5 * sq);
    assert(dw - 4 * ew <= qk <= dw + 4 * ew);
    assert(160 * ew <= sq);
    if q > one {
        assert(10 * (q * k) > 13 * (one * one)) by (nonlinear_arith)
            requires
                q > one,
                10 * k >= 13 * one,
                one > 0,
        ;
        assert(false);
    }
    if q < -one {
        assert(10 * (q * k) < -13 * (one * one)) by (nonlinear_arith)
            requires
                q < -one,
                10 * k >= 13 * one,
                one > 0,
        ;
        assert(false);
    }
}

/// Luma is within five slacks of the weighted sum of the channels, and so
/// from a little below zero to a little above one.
#[verifier::spinoff_prover]
proof fn lemma_luma_bound(
    r: int,
    g: int,
    b: int,
    kr: int,
    kg: int,
    kb: int,
    pr: int,
    pg: int,
    pb: int,
    s1: int,
    y: int,
    one: int,
    e: int,
)
    requires
        one > 0,
        e >= 0,
        0 <= r <= one,
        0 <= g <= one,
        0 <= b <= one,
        0 <= kr,
        0 <= kg,
        0 <= kb,
        kr + kg + kb <= one + 2 * e,
        pr * one - r * kr <= e * one,
        r * kr - pr * one <= e * one,
        pg * one - g * kg <= e * one,
        g * kg - pg * one <= e * one,
        pb * one - b * kb <= e * one,
        b * kb - pb * one <= e * one,
        -e <= s1 - (pr + pg) <= e,
        -e <= y - (s1 + pb) <= e,
    ensures
        y * one - (r * kr + g * kg + b * kb) <= 5 * (e * one),
        (r * kr + g * kg + b * kb) - y * one <= 5 * (e * one),
        -5 * e <= y <= one + 7 * e,
{
    let total = r * kr + g * kg + b * kb;
    assert(y * one == (y - (s1 + pb)) * one + (s1 - (pr + pg)) * one + pr * one + pg * one + pb
        * one) by (nonlinear_arith);
    assert(-(e * one) <= (y - (s1 + pb)) * one <= e * one) by (nonlinear_arith)
        requires
            -e <= y - (s1 + pb) <= e,
            one > 0,
    ;
    assert(-(e * one) <= (s1 - (pr + pg)) * one <= e * one) by (nonlinear_arith)
        requires
            -e <= s1 - (pr + pg) <= e,
            one > 0,
    ;
    assert(0 <= r * kr <= one * kr && 0 <= g * kg <= one * kg && 0 <= b * kb <= one * kb)
        by (nonlinear_arith)
        requires
            0 <= r <= one,
            0 <= g <= one,
            0 <= b <= one,
            0 <= kr,
            0 <= kg,
            0 <= kb,
    ;
    assert(one * kr + one * kg + one * kb <= one * one + 2 * (e * one)) by (nonlinear_arith)
        requires
            kr + kg + kb <= one + 2 * e,
            one > 0,
    ;
    let yw = y * one;
    let ew = e * one;
    assert(-5 * ew <= yw - total <= 5 * ew);
    assert(0 <= total <= one * one + 2 * ew);
    assert(y <= one + 7 * e) by (nonlinear_arith)
        requires
            yw == y * one,
            ew == e * one,
            yw <= one * one + 7 * ew,
            one > 0,
    ;
    assert(y >= -5 * e) by (nonlinear_arith)
        requires
            yw == y * one,
            ew == e * one,
            yw >= -5 * ew,
            one > 0,
    ;
}

/// A colour difference that is divided by its range, centred, brought back
/// and multiplied by the range again is within nine slacks of itself.
#[verifier::spinoff_prover]
proof fn lemma_chroma_back(d: int, q: int, c: int, c2: int, t: int, k: int, one: int, e: int)
    requires
        one > 0,
        e >= 0,
        0 <= k <= 2 * one,
        q * k - d * one <= 2 * e * k,
        d * one - q * k <= 2 * e * k,
        -2 * e <= 2 * c - (2 * q + one) <= 2 * e,
        -2 * e <= 2 * c2 - (2 * c - one) <= 2 * e,
        t * one - k * c2 <= e * one,
        k * c2 - t * one <= e * one,
    ensures
        -2 * e <= c2 - q <= 2 * e,
        -9 * e <= t - d <= 9 * e,
{
    let gap = c2 - q;
    assert(-2 * e <= gap <= 2 * e);
    let kg = k * gap;
    let ew = e * one;
    let qk = q * k;
    let dw = d * one;
    let tw = t * one;
    let kc = k * c2;
    assert(-4 * ew <= kg <= 4 * ew) by (nonlinear_arith)
        requires
            kg == k * gap,
            ew == e * one,
            -2 * e <= gap <= 2 * e,
            0 <= k <= 2 * one,
            e >= 0,
    ;
    assert(kc == qk + kg) by (nonlinear_arith)
        requires
            kc == k * c2,
            qk == q * k,
            kg == k * gap,
            gap == c2 - q,
    ;
    assert(-4 * ew <= qk - dw <= 4 * ew) by (nonlinear_arith)
        requires
            qk - dw <= 2 * e * k,
            dw - qk <= 2 * e * k,
            ew == e * one,
            0 <= k <= 2 * one,
            e >= 0,
    ;
    assert(-ew <= tw - kc <= ew);
    assert(-9 * ew <= tw - dw <= 9 * ew) by (nonlinear_arith)
        requires
            -ew <= tw - kc <= ew,
            kc == qk + kg,
            -4 * ew <= kg <= 4 * ew,
            -4 * ew <= qk - dw <= 4 * ew,
    ;
    assert(-9 * e <= t - d <= 9 * e) by (nonlinear_arith)
        requires
            tw == t * one,
            dw == d * one,
            ew == e * one,
            -9 * ew <= tw - dw <= 9 * ew,
            one > 0,
    ;
}

/// What the red or the blue difference takes from green, times the weight
/// of green, is within eleven slacks of the weight of that colour times its
/// difference: with `t` for what is taken, `c` for the share, `c2` for the
/// difference that came back, `q` for the one that went, `d` for the
/// difference itself, `kx` for the weight and `ks` for the range.
#[verifier::spinoff_prover]
proof fn lemma_share(
    t: int,
    c: int,
    c2: int,
    q: int,
    d: int,
    kx: int,
    ks: int,
    kg: int,
    one: int,
    e: int,
)
    requires
        one > 0,
        e >= 0,
        0 <= kx <= one,
        0 <= ks <= 2 * one,
        0 <= kg <= one,
        0 <= c <= one,
        -one <= q <= one,
        t * one - c * c2 <= e * one,
        c * c2 - t * one <= e * one,
        -3 * e <= c2 - q <= 3 * e,
        q * ks - d * one <= 2 * e * ks,
        d * one - q * ks <= 2 * e * ks,
        c * kg - kx * ks <= 3 * (e * one),
        kx * ks - c * kg <= 3 * (e * one),
    ensures
        t * kg - kx * d <= 11 * (e * one),
        kx * d - t * kg <= 11 * (e * one),
{
    let ck = c * kg;
    let kk = kx * ks;
    let qk = q * ks;
    let sq = one * one;
    let ew = e * one;
    let es = e * sq;
    let dw = d * one;
    let tw = t * one;
    let cc = c * c2;
    assert(0 <= ck <= sq) by (nonlinear_arith)
        requires
            ck == c * kg,
            sq == one * one,
            0 <= c <= one,
            0 <= kg <= one,
    ;
    // the difference that came back for the one that went
    let a1 = ck * c2;
    let a2 = ck * q;
    assert(-3 * es <= a1 - a2 <= 3 * es) by (nonlinear_arith)
        requires
            a1 == ck * c2,
            a2 == ck * q,
            es == e * sq,
            0 <= ck <= sq,
            -3 * e <= c2 - q <= 3 * e,
            e >= 0,
    ;
    // the share for the weight and the range
    let a3 = kk * q;
    assert(-3 * es <= a2 - a3 <= 3 * es) by (nonlinear_arith)
        requires
            a2 == ck * q,
            a3 == kk * q,
            es == e * sq,
            ew == e * one,
            -3 * ew <= ck - kk <= 3 * ew,
            -one <= q <= one,
            sq == one * one,
            e >= 0,
            one > 0,
    ;
    // the difference over its range for the difference
    let a4 = kx * qk;
    assert(a3 == a4) by (nonlinear_arith)
        requires
            a3 == kk * q,
            a4 == kx * qk,
            kk == kx * ks,
            qk == q * ks,
    ;
    assert(2 * e * ks <= 4 * ew) by (nonlinear_arith)
        requires
            ew == e * one,
            0 <= ks <= 2 * one,
            e >= 0,
    ;
    assert(-4 * ew <= qk - dw <= 4 * ew);
    let a5 = kx * dw;
    assert(-4 * es <= a4 - a5 <= 4 * es) by (nonlinear_arith)
        requires
            a4 == kx * qk,
            a5 == kx * dw,
            es == e * sq,
            ew == e * one,
            -4 * ew <= qk - dw <= 4 * ew,
            0 <= kx <= one,
            sq == one * one,
            e >= 0,
    ;
    // what is taken for the share times the difference
    let a0 = tw * kg;
    let a1b = cc * kg;
    assert(-es <= a0 - a1b <= es) by (nonlinear_arith)
        requires
            a0 == tw * kg,
            a1b == cc * kg,
            es == e * sq,
            ew == e * one,
            -ew <= tw - cc <= ew,
            0 <= kg <= one,
            sq == one * one,
            e >= 0,
    ;
    assert(a1b == a1) by (nonlinear_arith)
        requires
            a1b == cc * kg,
            cc == c * c2,
            a1 == ck * c2,
            ck == c * kg,
    ;
    let left = t * kg;
    let right = kx * d;
    assert(a0 == left * one) by (nonlinear_arith)
        requires
            a0 == tw * kg,
            tw == t * one,
            left == t * kg,
    ;
    assert(a5 == right * one) by (nonlinear_arith)
        requires
            a5 == kx * dw,
            dw == d * one,
            right == kx * d,
    ;
    assert(-11 * es <= left * one - right * one <= 11 * es);
    assert(-11 * ew <= left - right <= 11 * ew) by (nonlinear_arith)
        requires
            -11 * es <= left * one - right * one <= 11 * es,
            es == e * sq,
            sq == one * one,
            ew == e * one,
            one > 0,
    ;
}

/// Green comes back within seventy slacks: luma less what the red and the
/// blue difference take is, times the weight of green, within thirty-five
/// slacks of green times its weight, and that weight is at least one half.
#[verifier::spinoff_prover]
proof fn lemma_green_back(
    r: int,
    g: int,
    b: int,
    y: int,
    dr: int,
    db: int,
    t2: int,
    t3: int,
    g1: int,
    g0: int,
    kr: int,
    kg: int,
    kb: int,
    one: int,
    e: int,
)
    requires
        one > 0,
        e >= 0,
        0 <= kr <= one,
        0 <= kb <= one,
        one <= 2 * kg,
        kg <= one,
        -2 * e <= kr + kg + kb - one <= 2 * e,
        -2 * one <= y <= 2 * one,
        y * one - (r * kr + g * kg + b * kb) <= 5 * (e * one),
        (r * kr + g * kg + b * kb) - y * one <= 5 * (e * one),
        -e <= dr - (r - y) <= e,
        -e <= db - (b - y) <= e,
        -11 * (e * one) <= t2 * kg - kr * dr <= 11 * (e * one),
        -11 * (e * one) <= t3 * kg - kb * db <= 11 * (e * one),
        -e <= g1 - (y - t2) <= e,
        -e <= g0 - (g1 - t3) <= e,
    ensures
        -70 * e <= g0 - g <= 70 * e,
{
    let ew = e * one;
    let rest = g0 - (y - t2 - t3);
    assert(-2 * e <= rest <= 2 * e);
    let left = g0 * kg;
    let ykg = y * kg;
    let t2k = t2 * kg;
    let t3k = t3 * kg;
    let rk = rest * kg;
    assert(left == ykg - t2k - t3k + rk) by (nonlinear_arith)
        requires
            left == g0 * kg,
            ykg == y * kg,
            t2k == t2 * kg,
            t3k == t3 * kg,
            rk == rest * kg,
            rest == g0 - (y - t2 - t3),
    ;
    assert(-2 * ew <= rk <= 2 * ew) by (nonlinear_arith)
        requires
            rk == rest * kg,
            ew == e * one,
            -2 * e <= rest <= 2 * e,
            0 <= kg <= one,
            e >= 0,
    ;
    let er = dr - (r - y);
    let eb = db - (b - y);
    let krd = kr * dr;
    let kbd = kb * db;
    let rkr = r * kr;
    let bkb = b * kb;
    let gkg = g * kg;
    let ykr = y * kr;
    let ykb = y * kb;
    let kre = kr * er;
    let kbe = kb * eb;
    assert(krd == rkr - ykr + kre) by (nonlinear_arith)
        requires
            krd == kr * dr,
            rkr == r * kr,
            ykr == y * kr,
            kre == kr * er,
            er == dr - (r - y),
    ;
    assert(kbd == bkb - ykb + kbe) by (nonlinear_arith)
        requires
            kbd == kb * db,
            bkb == b * kb,
            ykb == y * kb,
            kbe == kb * eb,
            eb == db - (b - y),
    ;
    assert(-ew <= kre <= ew && -ew <= kbe <= ew) by (nonlinear_arith)
        requires
            kre == kr * er,
            kbe == kb * eb,
            ew == e * one,
            -e <= er <= e,
            -e <= eb <= e,
            0 <= kr <= one,
            0 <= kb <= one,
            e >= 0,
    ;
    let off = kr + kg + kb - one;
    let yw = y * one;
    let yo = y * off;
    assert(ykg + ykr + ykb == yw + yo) by (nonlinear_arith)
        requires
            ykg == y * kg,
            ykr == y * kr,
            ykb == y * kb,
            yw == y * one,
            yo == y * off,
            off == kr + kg + kb - one,
    ;
    assert(-4 * ew <= yo <= 4 * ew) by (nonlinear_arith)
        requires
            yo == y * off,
            ew == e * one,
            -2 * e <= off <= 2 * e,
            -2 * one <= y <= 2 * one,
            e >= 0,
            one > 0,
    ;
    assert(-5 * ew <= yw - (rkr + gkg + bkb) <= 5 * ew);
    assert(-11 * ew <= t2k - krd <= 11 * ew);
    assert(-11 * ew <= t3k - kbd <= 11 * ew);
    assert(-35 * ew <= left - gkg <= 35 * ew);
    let gap = g0 - g;
    assert(left - gkg == gap * kg) by (nonlinear_arith)
        requires
            left == g0 * kg,
            gkg == g * kg,
            gap == g0 - g,
    ;
    if gap > 70 * e {
        assert(gap * kg > 35 * ew) by (nonlinear_arith)
            requires
                gap > 70 * e,
                ew == e * one,
                2 * kg >= one,
                one > 0,
                e >= 0,
        ;
        assert(false);
    }
    if gap < -70 * e {
        assert(gap * kg < -35 * ew) by (nonlinear_arith)
            requires
                gap < -70 * e,
                ew == e * one,
                2 * kg >= one,
                one > 0,
                e >= 0,
        ;
        assert(false);
    }
}

/// One is `2^22` slacks, one and one half are worth what their names say,
/// and a pattern that is worth more than nothing is not negative.
proof fn lemma_scale()
    ensures
        wide_one() == 4194304 * slack(),
        slack() >= 1,
        value(ONE_BITS) == wide_one(),
        2 * value(HALF_BITS) == wide_one(),
        is_finite(ONE_BITS) && is_finite(HALF_BITS),
        !is_negative(HALF_BITS),
{
    lemma2_to64();
    lemma_pow2_adds(22, 127);
    lemma_pow2_pos(127);
    lemma_pow2_adds(23, 126);
    lemma_pow2_adds(23, 125);
    lemma_pow2_unfold(149);
    assert(mantissa(ONE_BITS) == 0x80_0000 && unit_exponent(ONE_BITS) == -23);
    assert(mantissa(HALF_BITS) == 0x80_0000 && unit_exponent(HALF_BITS) == -24);
}

/// Limiting a value to the range from zero to one brings it no further
/// from a number in that range.
proof fn lemma_clamped_nearer(v: u32, x: int, d: int)
    requires
        is_finite(v),
        0 <= x <= wide_one(),
        value(v) - x <= d,
        x - value(v) <= d,
    ensures
        is_finite(clamped(v)),
        value(clamped(v)) - x <= d,
        x - value(clamped(v)) <= d,
{
    lemma_scale();
    let low = maximum(v, ZERO_BITS);
    let c = clamped(v);
    assert(mantissa(ZERO_BITS) == 0);
    assert(wide(ZERO_BITS) == 0) by (nonlinear_arith)
        requires
            wide(ZERO_BITS) == 0 * pow2((unit_exponent(ZERO_BITS) + 149) as nat),
    ;
    if is_negative(v) {
        if is_zero(v) {
            assert(mantissa(v) == 0);
            assert(wide(v) == 0) by (nonlinear_arith)
                requires
                    wide(v) == mantissa(v) * pow2((unit_exponent(v) + 149) as nat),
                    mantissa(v) == 0,
            ;
            assert(low == v);
            assert(c == v);
        } else {
            assert(low == ZERO_BITS);
            assert(c == ZERO_BITS);
        }
    } else {
        assert(low == v);
        if v > ONE_BITS {
            lemma_order_of_patterns(ONE_BITS, v);
            assert(c == ONE_BITS);
        } else {
            assert(c == v);
        }
    }
}

/// The coefficients that follow from a weight of red from `0.2` to `0.3`
/// and a weight of blue from `0.05` to `0.12`: the three weights add up to
/// one within two slacks, each range is from `1.3` to two, each share is at
/// most one, and a share times the weight of green is within three slacks
/// of the weight of its colour times its range.
#[verifier::spinoff_prover]
proof fn lemma_coefficients_near(kr: u32, kb: u32)
    requires
        kr <= ONE_BITS,
        kb <= ONE_BITS,
        5 * wide(kr) >= wide_one(),
        10 * wide(kr) <= 3 * wide_one(),
        20 * wide(kb) >= wide_one(),
        25 * wide(kb) <= 3 * wide_one(),
    ensures
        ({
            let c = coefficients(kr, kb);
            let one = wide_one() as int;
            let e = slack() as int;
            &&& c.kr == kr && c.kb == kb
            &&& within(c.kg, 2 * wide_one()) && !is_negative(c.kg)
            &&& 100 * value(c.kg) >= 57 * one && value(c.kg) <= one
            &&& -2 * e <= value(kr) + value(c.kg) + value(kb) - one <= 2 * e
            &&& within(c.ke, 2 * wide_one()) && !is_negative(c.ke)
            &&& 10 * value(c.ke) >= 13 * one && value(c.ke) <= 2 * one
            &&& within(c.kd, 2 * wide_one()) && !is_negative(c.kd)
            &&& 10 * value(c.kd) >= 13 * one && value(c.kd) <= 2 * one
            &&& within(c.crg, 2 * wide_one()) && 0 <= value(c.crg) <= one
            &&& -3 * (e * one) <= value(c.crg) * value(c.kg) - value(kr) * value(c.ke) <= 3 * (e
                * one)
            &&& within(c.cbg, 2 * wide_one()) && 0 <= value(c.cbg) <= one
            &&& -3 * (e * one) <= value(c.cbg) * value(c.kg) - value(kb) * value(c.kd) <= 3 * (e
                * one)
        }),
{
    lemma_scale();
    let c = coefficients(kr, kb);
    let one = wide_one() as int;
    let e = slack() as int;
    let ew = e * one;
    let sq = one * one;
    let vr = value(kr);
    let vb = value(kb);
    assert(vr == wide(kr) && vb == wide(kb));
    assert(160 * ew <= sq) by (nonlinear_arith)
        requires
            ew == e * one,
            sq == one * one,
            one == 4194304 * e,
            e >= 1,
    ;
    // the complements and the weight of green
    let dr = difference(ONE_BITS, kr);
    let db = difference(ONE_BITS, kb);
    lemma_difference_near(ONE_BITS, kr);
    lemma_difference_near(ONE_BITS, kb);
    let vdr = value(dr);
    let vdb = value(db);
    assert(wide(dr) == vdr && wide(db) == vdb);
    lemma_difference_near(dr, kb);
    let vg = value(c.kg);
    assert(c.kg == difference(dr, kb));
    assert(wide(c.kg) == vg);
    // the ranges
    lemma_quotient_near(dr, HALF_BITS);
    lemma_quotient_near(db, HALF_BITS);
    assert(c.ke == quotient(dr, HALF_BITS) && c.kd == quotient(db, HALF_BITS));
    let ve = value(c.ke);
    let vd = value(c.kd);
    let half = wide(HALF_BITS) as int;
    assert(2 * half == one);
    assert(-2 * ew <= ve * one - 2 * (vdr * one) <= 2 * ew) by (nonlinear_arith)
        requires
            ve * half - vdr * one <= 2 * e * half,
            vdr * one - ve * half <= 2 * e * half,
            2 * half == one,
            ew == e * one,
    ;
    assert(-2 * e <= ve - 2 * vdr <= 2 * e) by (nonlinear_arith)
        requires
            -2 * ew <= ve * one - 2 * (vdr * one) <= 2 * ew,
            ew == e * one,
            one > 0,
    ;
    assert(-2 * ew <= vd * one - 2 * (vdb * one) <= 2 * ew) by (nonlinear_arith)
        requires
            vd * half - vdb * one <= 2 * e * half,
            vdb * one - vd * half <= 2 * e * half,
            2 * half == one,
            ew == e * one,
    ;
    assert(-2 * e <= vd - 2 * vdb <= 2 * e) by (nonlinear_arith)
        requires
            -2 * ew <= vd * one - 2 * (vdb * one) <= 2 * ew,
            ew == e * one,
            one > 0,
    ;
    assert(wide(c.ke) == ve && wide(c.kd) == vd);
    // the shares
    let pr = product(kr, c.ke);
    let pb = product(kb, c.kd);
    lemma_product_near(kr, c.ke);
    lemma_product_near(kb, c.kd);
    let vpr = value(pr);
    let vpb = value(pb);
    let re = vr * ve;
    let bd = vb * vd;
    assert(26 * sq <= 100 * re && 200 * re <= 99 * sq) by (nonlinear_arith)
        requires
            re == vr * ve,
            sq == one * one,
            5 * vr >= one,
            10 * vr <= 3 * one,
            10 * ve >= 13 * one,
            20 * ve <= 33 * one,
            one > 0,
    ;
    assert(13 * sq <= 200 * bd && 4 * bd <= sq) by (nonlinear_arith)
        requires
            bd == vb * vd,
            sq == one * one,
            20 * vb >= one,
            25 * vb <= 3 * one,
            10 * vd >= 13 * one,
            vd <= 2 * one,
            one > 0,
    ;
    assert(0 <= vpr && 3 * vpr <= 2 * one) by (nonlinear_arith)
        requires
            vpr * one - re <= ew,
            re - vpr * one <= ew,
            26 * sq <= 100 * re,
            200 * re <= 99 * sq,
            160 * ew <= sq,
            sq == one * one,
            ew == e * one,
            one > 0,
            e >= 0,
    ;
    assert(0 <= vpb && 3 * vpb <= 2 * one) by (nonlinear_arith)
        requires
            vpb * one - bd <= ew,
            bd - vpb * one <= ew,
            13 * sq <= 200 * bd,
            4 * bd <= sq,
            160 * ew <= sq,
            sq == one * one,
            ew == e * one,
            one > 0,
            e >= 0,
    ;
    assert(wide(pr) <= one && wide(pb) <= one);
    lemma_quotient_near(pr, c.kg);
    lemma_quotient_near(pb, c.kg);
    assert(c.crg == quotient(pr, c.kg) && c.cbg == quotient(pb, c.kg));
    let vcr = value(c.crg);
    let vcb = value(c.cbg);
    let crk = vcr * vg;
    let cbk = vcb * vg;
    assert(2 * e * vg <= 2 * ew) by (nonlinear_arith)
        requires
            0 <= vg <= one,
            ew == e * one,
            e >= 0,
    ;
    assert(-3 * ew <= crk - re <= 3 * ew);
    assert(-3 * ew <= cbk - bd <= 3 * ew);
    assert(0 <= vcr <= one) by (nonlinear_arith)
        requires
            crk == vcr * vg,
            -3 * ew <= crk - re <= 3 * ew,
            26 * sq <= 100 * re,
            200 * re <= 99 * sq,
            160 * ew <= sq,
            100 * vg >= 57 * one,
            vg <= one,
            sq == one * one,
            one > 0,
    ;
    assert(0 <= vcb <= one) by (nonlinear_arith)
        requires
            cbk == vcb * vg,
            -3 * ew <= cbk - bd <= 3 * ew,
            13 * sq <= 200 * bd,
            4 * bd <= sq,
            160 * ew <= sq,
            100 * vg >= 57 * one,
            vg <= one,
            sq == one * one,
            one > 0,
    ;
    assert(wide(c.crg) <= one && wide(c.cbg) <= one);
    assert(c.kr == kr && c.kb == kb);
    assert(within(c.kg, 2 * wide_one()) && !is_negative(c.kg));
    assert(100 * vg >= 57 * one && vg <= one);
    assert(-2 * e <= vr + vg + vb - one <= 2 * e);
    assert(within(c.ke, 2 * wide_one()) && !is_negative(c.ke));
    assert(10 * ve >= 13 * one && ve <= 2 * one);
    assert(within(c.kd, 2 * wide_one()) && !is_negative(c.kd));
    assert(10 * vd >= 13 * one && vd <= 2 * one);
    assert(within(c.crg, 2 * wide_one()) && 0 <= vcr <= one);
    assert(within(c.cbg, 2 * wide_one()) && 0 <= vcb <= one);
}

/// Luma of a colour of tones, for weights that add up to one within two
/// slacks: within five slacks of the weighted sum, and so from a little
/// below zero to a little above one.
#[verifier::spinoff_prover]
proof fn lemma_luma_near(r: u32, g: u32, b: u32, kr: u32, kg: u32, kb: u32)
    requires
        is_unit(r),
        is_unit(g),
        is_unit(b),
        kr <= ONE_BITS,
        kb <= ONE_BITS,
        is_finite(kg),
        !is_negative(kg),
        value(kg) <= wide_one(),
        -2 * slack() <= value(kr) + value(kg) + value(kb) - wide_one() <= 2 * slack(),
    ensures
        ({
            let y = rgb_to_gray(r, g, b, kr, kg, kb);
            let one = wide_one() as int;
            let e = slack() as int;
            &&& is_finite(y)
            &&& -5 * e <= value(y) <= one + 7 * e
            &&& -5 * (e * one) <= value(y) * one - (value(r) * value(kr) + value(g) * value(kg)
                + value(b) * value(kb)) <= 5 * (e * one)
        }),
{
    lemma_scale();
    lemma_unit(r);
    lemma_unit(g);
    lemma_unit(b);
    lemma_tones_are_up_to_one(kr);
    lemma_tones_are_up_to_one(kb);
    let one = wide_one() as int;
    let e = slack() as int;
    let pr = product(r, kr);
    let pg = product(g, kg);
    let pb = product(b, kb);
    lemma_product_near(r, kr);
    lemma_product_near(g, kg);
    lemma_product_near(b, kb);
    lemma_weighted_size(value(pr), value(r), value(kr), one, e);
    lemma_weighted_size(value(pg), value(g), value(kg), one, e);
    lemma_weighted_size(value(pb), value(b), value(kb), one, e);
    let s1 = sum(pr, pg);
    lemma_sum_near(pr, pg);
    let y = sum(s1, pb);
    lemma_sum_near(s1, pb);
    lemma_luma_bound(
        value(r),
        value(g),
        value(b),
        value(kr),
        value(kg),
        value(kb),
        value(pr),
        value(pg),
        value(pb),
        value(s1),
        value(y),
        one,
        e,
    );
}

/// The difference of a tone and luma that is divided by its range, centred,
/// brought back and multiplied by the range again: what it is on the way,
/// and that the tone comes back within `1e-4` when luma is added and the sum
/// limited.
#[verifier::spinoff_prover]
proof fn lemma_chroma_near(x: u32, y: u32, k: u32)
    requires
        is_unit(x),
        is_finite(y),
        -5 * slack() <= value(y) <= wide_one() + 7 * slack(),
        within(k, 2 * wide_one()),
        !is_negative(k),
        10 * value(k) >= 13 * wide_one(),
    ensures
        ({
            let d = difference(x, y);
            let q = quotient(d, k);
            let c2 = difference(sum(q, HALF_BITS), HALF_BITS);
            let back = clamped(sum(y, product(k, c2)));
            let one = wide_one() as int;
            let e = slack() as int;
            &&& is_finite(d) && -e <= value(d) - (value(x) - value(y)) <= e
            &&& is_finite(q) && -one <= value(q) <= one
            &&& value(q) * value(k) - value(d) * one <= 2 * e * value(k)
            &&& value(d) * one - value(q) * value(k) <= 2 * e * value(k)
            &&& is_finite(c2) && -2 * e <= value(c2) - value(q) <= 2 * e
            &&& close_values(back, x, 10000)
        }),
{
    lemma_scale();
    lemma_unit(x);
    let one = wide_one() as int;
    let e = slack() as int;
    let d = difference(x, y);
    lemma_difference_near(x, y);
    let q = quotient(d, k);
    lemma_quotient_near(d, k);
    lemma_quotient_size(value(q), value(d), value(k), one, e);
    let c = sum(q, HALF_BITS);
    lemma_sum_near(q, HALF_BITS);
    let c2 = difference(c, HALF_BITS);
    lemma_difference_near(c, HALF_BITS);
    let t = product(k, c2);
    lemma_product_near(k, c2);
    lemma_chroma_back(value(d), value(q), value(c), value(c2), value(t), value(k), one, e);
    let x0 = sum(y, t);
    lemma_sum_near(y, t);
    lemma_clamped_nearer(x0, value(x), 11 * e);
}

/// What a colour difference takes from green, times the weight of green:
/// within eleven slacks of the weight of the colour times its difference,
/// and itself at most a little above one.
#[verifier::spinoff_prover]
proof fn lemma_share_near(
    share: u32,
    c2: u32,
    q: int,
    d: int,
    kx: int,
    ks: int,
    kg: int,
)
    requires
        within(share, 2 * wide_one()),
        0 <= value(share) <= wide_one(),
        is_finite(c2),
        -wide_one() <= q <= wide_one(),
        -2 * slack() <= value(c2) - q <= 2 * slack(),
        0 <= kx <= wide_one(),
        0 <= ks <= 2 * wide_one(),
        0 <= kg <= wide_one(),
        q * ks - d * wide_one() <= 2 * slack() * ks,
        d * wide_one() - q * ks <= 2 * slack() * ks,
        -3 * (slack() * wide_one()) <= value(share) * kg - kx * ks <= 3 * (slack() * wide_one()),
    ensures
        ({
            let t = product(share, c2);
            let one = wide_one() as int;
            let e = slack() as int;
            &&& is_finite(t)
            &&& -(one + 3 * e) <= value(t) <= one + 3 * e
            &&& -11 * (e * one) <= value(t) * kg - kx * d <= 11 * (e * one)
        }),
{
    lemma_scale();
    let one = wide_one() as int;
    let e = slack() as int;
    let t = product(share, c2);
    lemma_product_near(share, c2);
    let lim = one + 2 * e;
    assert(one * lim <= lim * one) by (nonlinear_arith);
    lemma_product_size(value(t), value(share), value(c2), one, lim, lim, one, e);
    lemma_share(value(t), value(share), value(c2), q, d, kx, ks, kg, one, e);
    let vt = value(t);
    let left = vt * kg;
    let right = kx * d;
    let ew = e * one;
    assert(is_finite(t));
    assert(-(one + 3 * e) <= vt <= one + 3 * e);
    assert(left - right <= 11 * ew && right - left <= 11 * ew);
    assert(-11 * ew <= left - right <= 11 * ew);
}

/// A colour of tones from zero to one that goes to YCbCr and back comes
/// back within `1e-4` in each channel, for the coefficients that follow from
/// a weight of red from `0.2` to `0.3` and a weight of blue from `0.05` to
/// `0.12`.
#[verifier::spinoff_prover]
proof fn lemma_ycbcr_round_trip_of(r: u32, g: u32, b: u32, kr: u32, kb: u32)
    requires
        is_unit(r),
        is_unit(g),
        is_unit(b),
        kr <= ONE_BITS,
        kb <= ONE_BITS,
        5 * wide(kr) >= wide_one(),
        10 * wide(kr) <= 3 * wide_one(),
        20 * wide(kb) >= wide_one(),
        25 * wide(kb) <= 3 * wide_one(),
    ensures
        ({
            let c = coefficients(kr, kb);
            let ycc = rgb_to_ycbcr(r, g, b, c);
            let back = ycbcr_to_rgb(ycc.0, ycc.1, ycc.2, c);
            close_values(back.0, r, 10000) && close_values(back.1, g, 10000) && close_values(
                back.2,
                b,
                10000,
            )
        }),
{
    lemma_scale();
    lemma_coefficients_near(kr, kb);
    lemma_unit(r);
    lemma_unit(g);
    lemma_unit(b);
    lemma_tones_are_up_to_one(kr);
    lemma_tones_are_up_to_one(kb);
    let c = coefficients(kr, kb);
    let one = wide_one() as int;
    let e = slack() as int;
    lemma_luma_near(r, g, b, kr, c.kg, kb);
    let y = rgb_to_gray(r, g, b, kr, c.kg, kb);
    // red and blue
    lemma_chroma_near(r, y, c.ke);
    lemma_chroma_near(b, y, c.kd);
    let dr = difference(r, y);
    let db = difference(b, y);
    let qr = quotient(dr, c.ke);
    let qb = quotient(db, c.kd);
    let cr2 = difference(sum(qr, HALF_BITS), HALF_BITS);
    let cb2 = difference(sum(qb, HALF_BITS), HALF_BITS);
    // green
    lemma_share_near(
        c.crg,
        cr2,
        value(qr),
        value(dr),
        value(kr),
        value(c.ke),
        value(c.kg),
    );
    lemma_share_near(
        c.cbg,
        cb2,
        value(qb),
        value(db),
        value(kb),
        value(c.kd),
        value(c.kg),
    );
    let t2 = product(c.crg, cr2);
    let t3 = product(c.cbg, cb2);
    let g1 = difference(y, t2);
    lemma_difference_near(y, t2);
    let g0 = difference(g1, t3);
    lemma_difference_near(g1, t3);
    lemma_green_back(
        value(r),
        value(g),
        value(b),
        value(y),
        value(dr),
        value(db),
        value(t2),
        value(t3),
        value(g1),
        value(g0),
        value(kr),
        value(c.kg),
        value(kb),
        one,
        e,
    );
    lemma_clamped_nearer(g0, value(g), 70 * e);
}

/// A colour of tones from zero to one that goes to YCbCr and back by
/// Rec. 601, Rec. 709 or Rec. 2020 comes back within `1e-4` in each channel,
/// and each channel that comes back is a number from zero to one.
#[verifier::spinoff_prover]
pub proof fn lemma_ycbcr_round_trip(r: u32, g: u32, b: u32, c: Coefficients)
    requires
        is_unit(r),
        is_unit(g),
        is_unit(b),
        c == coefficients(KR_601, KB_601) || c == coefficients(KR_709, KB_709) || c
            == coefficients(KR_2020, KB_2020),
    ensures
        ({
            let ycc = rgb_to_ycbcr(r, g, b, c);
            let back = ycbcr_to_rgb(ycc.0, ycc.1, ycc.2, c);
            &&& close_values(back.0, r, 10000)
            &&& close_values(back.1, g, 10000)
            &&& close_values(back.2, b, 10000)
            &&& in_unit_range(back.0) && in_unit_range(back.1) && in_unit_range(back.2)
        }),
{
    let ycc = rgb_to_ycbcr(r, g, b, c);
    lemma_ycbcr_to_rgb_in_range(ycc.0, ycc.1, ycc.2, c);
    lemma2_to64();
    lemma_pow2_adds(25, 124);
    lemma_pow2_adds(26, 123);
    lemma_pow2_adds(27, 122);
    lemma_pow2_adds(28, 121);
    lemma_pow2_pos(121);
    lemma_pow2_pos(122);
    lemma_pow2_pos(123);
    lemma_pow2_pos(124);
    if c == coefficients(KR_601, KB_601) {
        assert(mantissa(KR_601) == 0x99_1687 && unit_exponent(KR_601) == -25);
        assert(mantissa(KB_601) == 0xE9_78D5 && unit_exponent(KB_601) == -27);
        lemma_ycbcr_round_trip_of(r, g, b, KR_601, KB_601);
    } else if c == coefficients(KR_709, KB_709) {
        assert(mantissa(KR_709) == 0xD9_B3D0 && unit_exponent(KR_709) == -26);
        assert(mantissa(KB_709) == 0x93_DD98 && unit_exponent(KB_709) == -27);
        lemma_ycbcr_round_trip_of(r, g, b, KR_709, KB_709);
    } else {
        assert(mantissa(KR_2020) == 0x86_809D && unit_exponent(KR_2020) == -25);
        assert(mantissa(KB_2020) == 0xF2_E48F && unit_exponent(KB_2020) == -28);
        lemma_ycbcr_round_trip_of(r, g, b, KR_2020, KB_2020);
    }
}

/// Black goes to pure key and comes back as black, exactly.
pub proof fn lemma_black_round_trip()
    ensures
        rgb_to_cmyk(ZERO_BITS, ZERO_BITS, ZERO_BITS) == (ZERO_BITS, ZERO_BITS, ZERO_BITS, ONE_BITS),
        cmyk_to_rgb(ZERO_BITS, ZERO_BITS, ZERO_BITS, ONE_BITS) == (
            ZERO_BITS,
            ZERO_BITS,
            ZERO_BITS,
        ),
{
    lemma_one_and_zero();
    lemma_zero_changes_nothing(ONE_BITS);
}

/// The coefficients of the standard that a conversion follows; Rec. 601
/// where it follows none.
pub open spec fn cvt_coefficients(op: CvtType) -> Coefficients {
    match op {
        CvtType::RGB2GrayBt2020 | CvtType::RGB2YCvCrBt2020 | CvtType::YCvCr2RGBBt2020 =>
            coefficients(KR_2020, KB_2020),
        CvtType::RGB2GrayBt709 | CvtType::RGB2YCvCrBt709 | CvtType::YCvCr2RGBBt709 => coefficients(
            KR_709,
            KB_709,
        ),
        CvtType::RGB2GrayAverage => Coefficients {
            kr: average(),
            kg: average(),
            kb: average(),
            ..coefficients(KR_601, KB_601)
        },
        _ => coefficients(KR_601, KB_601),
    }
}

/// Sample `j` of the output pixel that a conversion makes of the input pixel
/// that starts at `at`.
pub open spec fn cvt_sample(img: Seq<u32>, at: int, j: int, op: CvtType) -> u32 {
    let c = cvt_coefficients(op);
    match op {
        CvtType::RGB2Gray
        | CvtType::RGB2GrayAverage
        | CvtType::RGB2GrayBt709
        | CvtType::RGB2GrayBt2020 => rgb_to_gray(img[at], img[at + 1], img[at + 2], c.kr, c.kg, c.kb),
        CvtType::RGB2CMYK => {
            let px = rgb_to_cmyk(img[at], img[at + 1], img[at + 2]);
            if j == 0 {
                px.0
            } else if j == 1 {
                px.1
            } else if j == 2 {
                px.2
            } else {
                px.3
            }
        },
        CvtType::CMYK2RGB => {
            let px = cmyk_to_rgb(img[at], img[at + 1], img[at + 2], img[at + 3]);
            if j == 0 {
                px.0
            } else if j == 1 {
                px.1
            } else {
                px.2
            }
        },
        CvtType::RGB2YCbCr | CvtType::RGB2YCvCrBt2020 | CvtType::RGB2YCvCrBt709 => {
            let px = rgb_to_ycbcr(img[at], img[at + 1], img[at + 2], c);
            if j == 0 {
                px.0
            } else if j == 1 {
                px.1
            } else {
                px.2
            }
        },
        CvtType::YCbCr2RGB | CvtType::YCvCr2RGBBt2020 | CvtType::YCvCr2RGBBt709 => {
            let px = ycbcr_to_rgb(img[at], img[at + 1], img[at + 2], c);
            if j == 0 {
                px.0
            } else if j == 1 {
                px.1
            } else {
                px.2
            }
        },
        CvtType::RGB2BGR | CvtType::BGR2RGB => img[at + 2 - j],
        CvtType::GRAY2RGB => img[at],
        CvtType::RGB2Luma => img[at],
    }
}

/// The samples that a conversion makes of whole input pixels.
pub open spec fn cvt_seq(img: Seq<u32>, op: CvtType) -> Seq<u32> {
    let group_in = crate::cvt_color::cvt_in_channels(op) as int;
    let group_out = crate::cvt_color::cvt_out_channels(op) as int;
    Seq::new(
        (((img.len() as int) / group_in) * group_out) as nat,
        |i: int| cvt_sample(img, (i / group_out) * group_in, i % group_out, op),
    )
}

/// Limits a value to the range from zero to one.
fn clamp(v: u32) -> (out: u32)
    ensures
        out == clamped(v),
{
    minimum_bits(maximum_bits(v, ZERO_BITS), ONE_BITS)
}

/// Whether a pattern stands for a zero.
fn zero(bits: u32) -> (z: bool)
    ensures
        z == is_zero(bits),
{
    bits == 0 || bits == SIGN_BIT
}

/// The coefficients of the standard that a conversion follows.
fn coefficients_for(op: CvtType) -> (c: Coefficients)
    ensures
        c == cvt_coefficients(op),
{
    match op {
        CvtType::RGB2GrayBt2020 | CvtType::RGB2YCvCrBt2020 | CvtType::YCvCr2RGBBt2020 =>
            coefficients_of(KR_2020, KB_2020),
        CvtType::RGB2GrayBt709 | CvtType::RGB2YCvCrBt709 | CvtType::YCvCr2RGBBt709 =>
            coefficients_of(KR_709, KB_709),
        CvtType::RGB2GrayAverage => {
            let base = coefficients_of(KR_601, KB_601);
            let w = average_weight();
            Coefficients { kr: w, kg: w, kb: w, ..base }
        },
        _ => coefficients_of(KR_601, KB_601),
    }
}

/// Converts one pixel and appends what it becomes.
fn convert_pixel(img: &[u32], at: usize, op: CvtType, c: Coefficients, out: &mut Vec<u32>)
    requires
        c == cvt_coefficients(op),
        op != CvtType::RGB2Luma,
        at + crate::cvt_color::cvt_in_channels(op) <= img@.len(),
    ensures
        final(out)@.len() == old(out)@.len() + crate::cvt_color::cvt_out_channels(op),
        forall|k: int| 0 <= k < old(out)@.len() ==> final(out)@[k] == old(out)@[k],
        forall|j: int|
            0 <= j < crate::cvt_color::cvt_out_channels(op) ==> final(out)@[old(out)@.len() + j]
                == cvt_sample(img@, at as int, j, op),
{
    let len: usize = img.len();
    match op {
        CvtType::RGB2Gray
        | CvtType::RGB2GrayAverage
        | CvtType::RGB2GrayBt709
        | CvtType::RGB2GrayBt2020 => {
            let (r, g, b) = (img[at], img[at + 1], img[at + 2]);
            out.push(
                sum_bits(
                    sum_bits(product_bits(r, c.kr), product_bits(g, c.kg)),
                    product_bits(b, c.kb),
                ),
            );
        },
        CvtType::RGB2CMYK => {
            let (r, g, b) = (img[at], img[at + 1], img[at + 2]);
            if zero(r) && zero(g) && zero(b) {
                out.push(ZERO_BITS);
                out.push(ZERO_BITS);
                out.push(ZERO_BITS);
                out.push(ONE_BITS);
            } else {
                let cy: u32 = difference_bits(ONE_BITS, r);
                let ma: u32 = difference_bits(ONE_BITS, g);
                let ye: u32 = difference_bits(ONE_BITS, b);
                let key: u32 = minimum_bits(minimum_bits(cy, ma), ye);
                let rest: u32 = difference_bits(ONE_BITS, key);
                out.push(quotient_bits(difference_bits(cy, key), rest));
                out.push(quotient_bits(difference_bits(ma, key), rest));
                out.push(quotient_bits(difference_bits(ye, key), rest));
                out.push(key);
            }
        },
        CvtType::CMYK2RGB => {
            let white: u32 = difference_bits(ONE_BITS, img[at + 3]);
            out.push(product_bits(difference_bits(ONE_BITS, img[at]), white));
            out.push(product_bits(difference_bits(ONE_BITS, img[at + 1]), white));
            out.push(product_bits(difference_bits(ONE_BITS, img[at + 2]), white));
        },
        CvtType::RGB2YCbCr | CvtType::RGB2YCvCrBt2020 | CvtType::RGB2YCvCrBt709 => {
            let (r, g, b) = (img[at], img[at + 1], img[at + 2]);
            let y: u32 = sum_bits(
                sum_bits(product_bits(r, c.kr), product_bits(g, c.kg)),
                product_bits(b, c.kb),
            );
            out.push(y);
            out.push(sum_bits(quotient_bits(difference_bits(b, y), c.kd), HALF_BITS));
            out.push(sum_bits(quotient_bits(difference_bits(r, y), c.ke), HALF_BITS));
        },
        CvtType::YCbCr2RGB | CvtType::YCvCr2RGBBt2020 | CvtType::YCvCr2RGBBt709 => {
            let y: u32 = img[at];
            let cb: u32 = difference_bits(img[at + 1], HALF_BITS);
            let cr: u32 = difference_bits(img[at + 2], HALF_BITS);
            out.push(clamp(sum_bits(y, product_bits(c.ke, cr))));
            out.push(
                clamp(
                    difference_bits(
                        difference_bits(y, product_bits(c.crg, cr)),
                        product_bits(c.cbg, cb),
                    ),
                ),
            );
            out.push(clamp(sum_bits(y, product_bits(c.kd, cb))));
        },
        CvtType::RGB2BGR | CvtType::BGR2RGB => {
            out.push(img[at + 2]);
            out.push(img[at + 1]);
            out.push(img[at]);
        },
        CvtType::GRAY2RGB => {
            out.push(img[at]);
            out.push(img[at]);
            out.push(img[at]);
        },
        CvtType::RGB2Luma => {},
    }
}

/// Converts the colour space of interleaved normalised samples, given as
/// binary32 bit patterns. Fails with a shape mismatch when the samples are
/// not whole pixels of the input space. The perceptual lightness
/// `RGB2Luma`, which takes powers, is not computed here and is refused as an
/// unsupported conversion.
pub fn cvt_color_float(img: &[u32], cvt_type: CvtType) -> (r: Result<Vec<u32>, PixelError>)
    ensures
        r is Ok <==> cvt_type != CvtType::RGB2Luma && img@.len() as nat
            % crate::cvt_color::cvt_in_channels(cvt_type) == 0,
        r is Ok ==> r->Ok_0@ == cvt_seq(img@, cvt_type),
        r is Err ==> r->Err_0 == (if cvt_type == CvtType::RGB2Luma {
            PixelError::UnsupportedConversion
        } else {
            PixelError::ShapeMismatch
        }),
{
    match cvt_type {
        CvtType::RGB2Luma => {
            return Err(PixelError::UnsupportedConversion);
        },
        _ => {},
    }
    let (group_in, group_out) = crate::cvt_color::cvt_channels(cvt_type);
    if img.len() % group_in != 0 {
        return Err(PixelError::ShapeMismatch);
    }
    let n: usize = img.len() / group_in;
    proof {
        vstd::arithmetic::div_mod::lemma_fundamental_div_mod(img@.len() as int, group_in as int);
        assert(group_in * n == n * group_in) by (nonlinear_arith);
    }
    let c: Coefficients = coefficients_for(cvt_type);
    let ghost target = cvt_seq(img@, cvt_type);
    let mut out: Vec<u32> = Vec::new();
    let mut i: usize = 0;
    while i < n
        invariant
            cvt_type != CvtType::RGB2Luma,
            group_in == crate::cvt_color::cvt_in_channels(cvt_type),
            group_out == crate::cvt_color::cvt_out_channels(cvt_type),
            1 <= group_in <= 4,
            1 <= group_out <= 4,
            c == cvt_coefficients(cvt_type),
            n * group_in == img@.len() <= usize::MAX,
            target == cvt_seq(img@, cvt_type),
            target.len() == n * group_out,
            i <= n,
            out@.len() == i * group_out,
            forall|k: int| 0 <= k < out@.len() ==> out@[k] == target[k],
        decreases n - i,
    {
        assert(i * group_in + group_in <= n * group_in && 0 <= i * group_in) by (nonlinear_arith)
            requires
                i < n,
                group_in >= 1,
        ;
        let ghost before = out@;
        convert_pixel(img, i * group_in, cvt_type, c, &mut out);
        proof {
            assert forall|k: int| 0 <= k < out@.len() implies out@[k] == target[k] by {
                if k >= before.len() {
                    let j = k - before.len();
                    assert(k == group_out * i + j) by (nonlinear_arith)
                        requires
                            k == i * group_out + j,
                    ;
                    vstd::arithmetic::div_mod::lemma_fundamental_div_mod_converse(
                        k,
                        group_out as int,
                        i as int,
                        j,
                    );
                    assert(k < n * group_out) by (nonlinear_arith)
                        requires
                            k == i * group_out + j,
                            j < group_out,
                            i < n,
                    ;
                }
            }
            assert((i + 1) * group_out == i * group_out + group_out) by (nonlinear_arith);
        }
        i += 1;
    }
    assert(out@ =~= target);
    Ok(out)
}

/// Converts interleaved RGB samples to CMYK; fails when the samples are not
/// whole triples.
pub fn rgb2cmyk(img: &[u32]) -> (r: Result<Vec<u32>, PixelError>)
    ensures
        r is Ok <==> img@.len() % 3 == 0,
        r is Ok ==> r->Ok_0@ == cvt_seq(img@, CvtType::RGB2CMYK),
        r is Err ==> r->Err_0 == PixelError::ShapeMismatch,
{
    cvt_color_float(img, CvtType::RGB2CMYK)
}

/// Converts interleaved CMYK samples to RGB; fails when the samples are not
/// whole groups of four.
pub fn cmyk2rgb(img: &[u32]) -> (r: Result<Vec<u32>, PixelError>)
    ensures
        r is Ok <==> img@.len() % 4 == 0,
        r is Ok ==> r->Ok_0@ == cvt_seq(img@, CvtType::CMYK2RGB),
        r is Err ==> r->Err_0 == PixelError::ShapeMismatch,
{
    cvt_color_float(img, CvtType::CMYK2RGB)
}

} // verus!
