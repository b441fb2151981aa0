//! What the sample codec of `binary32` is in the arithmetic of
//! `arithmetic32`: the normalised sample of an eight-bit sample is a
//! product, that of a sixteen-bit sample a quotient, and the integer sample
//! of a normalised sample the whole number nearest to a product.

use vstd::prelude::*;
use vstd::arithmetic::div_mod::{
    lemma_div_multiples_vanish_quotient,
    lemma_fundamental_div_mod_converse,
};
use vstd::arithmetic::power2::{
    lemma2_to64,
    lemma2_to64_rest,
    lemma_pow2_adds,
    lemma_pow2_pos,
    lemma_pow2_unfold,
    pow2,
};
use vstd::bits::{
    lemma_u64_low_bits_mask_is_mod,
    lemma_u64_pow2_no_overflow,
    lemma_u64_shl_is_mul,
    lemma_u64_shr_is_div,
    low_bits_mask,
};
use crate::arithmetic32::{
    bit_length,
    from_nat,
    lemma_bit_length_bounds,
    lemma_bit_length_is,
    lemma_bit_length_limit,
    lemma_fields_of_whole,
    lemma_round_even_nat_is_nearest,
    lemma_round_pack_scaled,
    mantissa,
    product,
    quotient,
    round_even_nat,
    round_pack,
    rounding_unit,
    unit_exponent,
};
use crate::arithmetic32::{
    lemma_quotient_of_equals,
    nearest_index,
    wide,
    wide_one,
    ONE_BITS,
};
use crate::convert::BYTE_SCALE_BITS;
use crate::tolerance::{lemma_round_pack_near, lemma_unit_of_small, within};
use crate::binary32::{
    byte_to_unit,
    excess_bits,
    lemma_end_points,
    pack,
    round_even,
    unit_to_byte,
    unit_to_scale,
    unit_to_word,
    word_shift,
    word_to_unit,
    UNIT_STEP,
};

verus! {

/// Bit pattern of the binary32 nearest to `1 / 255`.
pub const UNIT_STEP_BITS: u32 = 0x3B80_8081;

/// Rounding by shifts and masks is rounding by division.
pub proof fn lemma_round_even_agrees(p: u64, drop: u64)
    requires
        drop < 63,
    ensures
        round_even(p, drop) == round_even_nat(p as nat, drop as nat),
{
    lemma2_to64();
    if drop == 0 {
        assert(pow2(0) == 1);
        assert(p as nat / 1 == p && p as nat % 1 == 0);
        assert(round_even_nat(p as nat, 0) == p);
    } else {
        let d = drop as nat;
        lemma_pow2_pos(d);
        lemma_pow2_unfold(d);
        lemma_u64_pow2_no_overflow(d);
        lemma_u64_pow2_no_overflow((d - 1) as nat);
        lemma_u64_shr_is_div(p, drop);
        assert(1 * pow2(d) <= u64::MAX) by (nonlinear_arith)
            requires
                pow2(d) < u64::MAX,
        ;
        assert(1 * pow2((d - 1) as nat) <= u64::MAX) by (nonlinear_arith)
            requires
                pow2((d - 1) as nat) < u64::MAX,
        ;
        lemma_u64_shl_is_mul(1, drop);
        lemma_u64_shl_is_mul(1, (drop - 1) as u64);
        lemma_u64_low_bits_mask_is_mod(p, d);
        let q = p >> drop;
        let one_up = 1u64 << drop;
        let half = 1u64 << ((drop - 1) as u64);
        assert(one_up == pow2(d));
        assert(half == pow2((d - 1) as nat));
        assert(low_bits_mask(d) == pow2(d) - 1);
        let r = p & ((one_up - 1) as u64);
        assert(r == p as nat % pow2(d));
        assert(q == p as nat / pow2(d));
        assert((q & 1 == 1) == (q % 2 == 1)) by (bit_vector);
        assert(pow2(d) == 2 * pow2((d - 1) as nat));
        assert(q <= p / 2) by (nonlinear_arith)
            requires
                q == p as nat / pow2(d),
                pow2(d) >= 2,
        ;
        assert((r > half) == (2 * r > pow2(d)));
        assert((r == half) == (2 * r == pow2(d)));
        assert(round_even(p, drop) == if r > half || (r == half && q & 1 == 1) {
            (q + 1) as u64
        } else {
            q
        });
        assert(round_even_nat(p as nat, d) == if 2 * r > pow2(d) || (2 * r == pow2(d) && q % 2
            == 1) {
            (q + 1) as nat
        } else {
            q as nat
        });
    }
}

/// The normalised sample of an eight-bit sample other than zero is the
/// product of the sample and the binary32 nearest to `1 / 255`.
#[verifier::spinoff_prover]
pub proof fn lemma_byte_to_unit_is_product(b: u8)
    requires
        b != 0,
    ensures
        byte_to_unit(b) == product(from_nat(b as nat), UNIT_STEP_BITS),
{
    reveal(product);
    lemma2_to64();
    lemma2_to64_rest();
    let n = b as nat;
    let len = bit_length(n);
    lemma_bit_length_bounds(n);
    lemma_bit_length_limit(n, 8);
    lemma_fields_of_whole(n, len);
    let x = from_nat(n);
    let shift = (24 - len) as nat;
    let step: nat = 8421505;
    assert(mantissa(UNIT_STEP_BITS) == step && unit_exponent(UNIT_STEP_BITS) == -31);
    let p = n * step;
    assert(mantissa(x) * step == p * pow2(shift)) by (nonlinear_arith)
        requires
            mantissa(x) == n * pow2(shift),
            p == n * step,
    ;
    assert(product(x, UNIT_STEP_BITS) == round_pack(false, p * pow2(shift), -31 - shift));
    lemma_round_pack_scaled(false, p, -31, shift);
    // the product of sample and step, rounded
    let wide_p: u64 = (b as u64 * UNIT_STEP) as u64;
    assert(wide_p == p) by (nonlinear_arith)
        requires
            p == n * step,
            n == b,
            step == 8421505,
            b <= 255,
            wide_p == (b as u64 * 8421505u64) as u64,
    ;
    assert(0x80_0000 <= p < 0x1_0000_0000) by (nonlinear_arith)
        requires
            p == n * step,
            1 <= n <= 255,
            step == 8421505,
    ;
    let drop = excess_bits(wide_p);
    assert(drop <= 8);
    if drop == 0 {
        lemma_bit_length_is(p, 24);
    } else if drop == 1 {
        lemma_bit_length_is(p, 25);
    } else if drop == 2 {
        lemma_bit_length_is(p, 26);
    } else if drop == 3 {
        lemma_bit_length_is(p, 27);
    } else if drop == 4 {
        lemma_bit_length_is(p, 28);
    } else if drop == 5 {
        lemma_bit_length_is(p, 29);
    } else if drop == 6 {
        lemma_bit_length_is(p, 30);
    } else if drop == 7 {
        lemma_bit_length_is(p, 31);
    } else {
        lemma_bit_length_is(p, 32);
    }
    assert(bit_length(p) == 24 + drop);
    assert(rounding_unit(p, -31) == drop - 31);
    reveal(round_pack);
    lemma_round_even_agrees(wide_p, drop);
    lemma_round_even_nat_is_nearest(p, drop as nat);
    let q = round_even_nat(p, drop as nat);
    lemma_pow2_pos(drop as nat);
    assert(p / pow2(drop as nat) < 0x100_0000) by (nonlinear_arith)
        requires
            p < pow2((24 + drop) as nat),
            pow2((24 + drop) as nat) == 0x100_0000 * pow2(drop as nat),
            pow2(drop as nat) >= 1,
    ;
    assert(q <= 0x100_0000);
    if drop == 0 {
        assert(p * pow2(0) == p) by (nonlinear_arith)
            requires
                pow2(0) == 1,
        ;
    }
    let ex: u64 = (119 + drop) as u64;
    assert((ex << 23) == ex * 0x80_0000 && ((ex + 1) as u64) << 23 == (ex + 1) * 0x80_0000)
        by (bit_vector)
        requires
            ex < 200,
    ;
    assert(round_pack(false, p, -31) == (118 + drop) * 0x80_0000 + q);
    assert(pack(q as u64, ex) == (118 + drop) * 0x80_0000 + q);
}

/// Bit pattern of `65535.0`.
pub const WORD_SCALE_BITS: u32 = 0x477F_FF00;

/// The normalised sample of a sixteen-bit sample other than zero is the
/// quotient of the sample and `65535`.
#[verifier::spinoff_prover]
pub proof fn lemma_word_to_unit_is_quotient(x: u16)
    requires
        x != 0,
    ensures
        word_to_unit(x) == quotient(from_nat(x as nat), WORD_SCALE_BITS),
{
    reveal(quotient);
    lemma2_to64();
    lemma2_to64_rest();
    let xn = x as nat;
    let len = bit_length(xn);
    lemma_bit_length_bounds(xn);
    lemma_bit_length_limit(xn, 16);
    lemma_fields_of_whole(xn, len);
    let from = from_nat(xn);
    let scale: nat = 65535;
    assert(mantissa(WORD_SCALE_BITS) == scale * 256 && unit_exponent(WORD_SCALE_BITS) == -8);
    if x == 0xFFFF {
        assert(len == 16) by {
            if len < 16 {
                vstd::arithmetic::power2::lemma_pow2_strictly_increases(len, 16);
            }
        }
        assert(pow2(8) == 256);
        assert(mantissa(from) == mantissa(WORD_SCALE_BITS));
        assert(unit_exponent(from) == unit_exponent(WORD_SCALE_BITS));
        assert(from == WORD_SCALE_BITS);
        lemma_quotient_of_equals(WORD_SCALE_BITS);
        lemma_end_points();
    } else {
        lemma_word_below_full_scale(x, len);
    }
}

/// The case of `lemma_word_to_unit_is_quotient` below full scale, for a
/// sample of `len` bits.
#[verifier::spinoff_prover]
#[verifier::rlimit(40)]
proof fn lemma_word_below_full_scale(x: u16, len: nat)
    requires
        x != 0,
        x != 0xFFFF,
        len == bit_length(x as nat),
        1 <= len <= 16,
        pow2((len - 1) as nat) <= x < pow2(len),
        from_nat(x as nat) < 0x7F80_0000,
        mantissa(from_nat(x as nat)) == x * pow2((24 - len) as nat),
        unit_exponent(from_nat(x as nat)) == len - 24,
    ensures
        word_to_unit(x) == quotient(from_nat(x as nat), WORD_SCALE_BITS),
{
    reveal(quotient);
    lemma2_to64();
    lemma2_to64_rest();
    let xn = x as nat;
    let from = from_nat(xn);
    let scale: int = 65535;
    assert(mantissa(WORD_SCALE_BITS) == 65535 * 256 && unit_exponent(WORD_SCALE_BITS) == -8);
    // the shift of the codec
    let k = word_shift(x);
    if len == 1 {
        assert(k == 17 - len); assert(x as nat >= pow2(0) && (x as nat) < pow2(1));
    } else if len == 2 {
        assert(k == 17 - len); assert(x as nat >= pow2(1) && (x as nat) < pow2(2));
    } else if len == 3 {
        assert(k == 17 - len); assert(x as nat >= pow2(2) && (x as nat) < pow2(3));
    } else if len == 4 {
        assert(k == 17 - len); assert(x as nat >= pow2(3) && (x as nat) < pow2(4));
    } else if len == 5 {
        assert(k == 17 - len); assert(x as nat >= pow2(4) && (x as nat) < pow2(5));
    } else if len == 6 {
        assert(k == 17 - len); assert(x as nat >= pow2(5) && (x as nat) < pow2(6));
    } else if len == 7 {
        assert(k == 17 - len); assert(x as nat >= pow2(6) && (x as nat) < pow2(7));
    } else if len == 8 {
        assert(k == 17 - len); assert(x as nat >= pow2(7) && (x as nat) < pow2(8));
    } else if len == 9 {
        assert(k == 17 - len); assert(x as nat >= pow2(8) && (x as nat) < pow2(9));
    } else if len == 10 {
        assert(k == 17 - len); assert(x as nat >= pow2(9) && (x as nat) < pow2(10));
    } else if len == 11 {
        assert(k == 17 - len); assert(x as nat >= pow2(10) && (x as nat) < pow2(11));
    } else if len == 12 {
        assert(k == 17 - len); assert(x as nat >= pow2(11) && (x as nat) < pow2(12));
    } else if len == 13 {
        assert(k == 17 - len); assert(x as nat >= pow2(12) && (x as nat) < pow2(13));
    } else if len == 14 {
        assert(k == 17 - len); assert(x as nat >= pow2(13) && (x as nat) < pow2(14));
    } else if len == 15 {
        assert(k == 17 - len); assert(x as nat >= pow2(14) && (x as nat) < pow2(15));
    } else if len == 16 {
        assert(k == 17 - len); assert(x as nat >= pow2(15) && (x as nat) < pow2(16));
    }
    assert(k == 17 - len);
    let up = (40 - len) as nat;
    lemma_pow2_pos(up);
    lemma_pow2_adds(len, up);
    lemma_pow2_adds((len - 1) as nat, up);
    let nn: int = (xn * pow2(up)) as int;
    assert(pow2(39) <= nn < pow2(40)) by (nonlinear_arith)
        requires
            nn == xn * pow2(up),
            pow2((len - 1) as nat) <= xn < pow2(len),
            pow2((len - 1) as nat) * pow2(up) == pow2(39),
            pow2(len) * pow2(up) == pow2(40),
            pow2(up) >= 1,
    ;
    lemma_pow2_adds(24, 16);
    lemma_pow2_adds(23, 16);
    assert(nn <= pow2(40) - pow2(up)) by (nonlinear_arith)
        requires
            nn == xn * pow2(up),
            xn + 1 <= pow2(len),
            pow2(len) * pow2(up) == pow2(40),
            pow2(up) >= 1,
    ;
    if up < 24 {
        assert(false);
    }
    if up > 24 {
        vstd::arithmetic::power2::lemma_pow2_strictly_increases(24, up);
    }
    assert(nn <= 0x100_0000 * 65535 - 1) by {
        if len == 16 {
            assert(nn == xn * 0x100_0000);
            assert(xn <= 65534);
        }
    }
    let n64: u64 = (x as u64) << ((k + 23) as u64);
    assert(x * pow2((k + 23) as nat) <= u64::MAX);
    vstd::bits::lemma_u64_shl_is_mul(x as u64, (k + 23) as u64);
    assert(n64 == nn);
    let q0 = nn / scale;
    let r = nn % scale;
    assert(nn == scale * q0 + r && 0 <= r < scale) by {
        vstd::arithmetic::div_mod::lemma_fundamental_div_mod(nn, scale);
    }
    assert(0x80_0000 <= q0 < 0x100_0000) by (nonlinear_arith)
        requires
            nn == scale * q0 + r,
            0 <= r < scale,
            scale == 65535,
            nn >= 0x80_0000_0000,
            nn <= 0x100_0000 * 65535 - 1,
    ;
    let q: int = if 2 * r > 65535 {
        q0 + 1
    } else {
        q0
    };
    // the quotient of the arithmetic
    let big: int = 0x400_0000;
    let b2 = r * big;
    let f = b2 / scale;
    let g = b2 % scale;
    assert(b2 == scale * f + g && 0 <= g < scale) by {
        vstd::arithmetic::div_mod::lemma_fundamental_div_mod(b2, scale);
    }
    let n_q: int = (mantissa(from) * 0x4_0000_0000_0000) as int;
    let d_q: int = 16776960;
    lemma_pow2_adds((24 - len) as nat, 16);
    assert(pow2(up) == pow2((24 - len) as nat) * 0x1_0000);
    assert(n_q == (nn * big) * 256) by (nonlinear_arith)
        requires
            n_q == (xn * pow2((24 - len) as nat)) * 0x4_0000_0000_0000,
            nn == xn * pow2(up),
            pow2(up) == pow2((24 - len) as nat) * 0x1_0000,
            big == 0x400_0000,
    ;
    let t = q0 * big + f;
    assert(nn * big == scale * t + g) by (nonlinear_arith)
        requires
            nn == scale * q0 + r,
            b2 == r * big,
            b2 == scale * f + g,
            t == q0 * big + f,
    ;
    assert(n_q == t * d_q + g * 256) by (nonlinear_arith)
        requires
            n_q == (nn * big) * 256,
            nn * big == scale * t + g,
            d_q == 16776960,
            scale == 65535,
    ;
    assert(0 <= g * 256 < d_q);
    lemma_fundamental_div_mod_converse(n_q, d_q, t, g * 256);
    let cut: int = if g * 256 != 0 {
        1
    } else {
        0
    };
    let mag = t * 2 + cut;
    assert(0 <= f < big) by (nonlinear_arith)
        requires
            b2 == scale * f + g,
            0 <= g < scale,
            b2 == r * big,
            0 <= r < scale,
            scale == 65535,
            big == 0x400_0000,
    ;
    assert(quotient(from, WORD_SCALE_BITS) == round_pack(false, mag as nat, len - 67));
    // its magnitude has 51 bits, of which 27 are dropped
    assert(0x4_0000_0000_0000 <= mag < 0x8_0000_0000_0000) by (nonlinear_arith)
        requires
            mag == t * 2 + cut,
            t == q0 * big + f,
            0 <= f < big,
            0 <= cut <= 1,
            0x80_0000 <= q0 < 0x100_0000,
            big == 0x400_0000,
    ;
    lemma_bit_length_is(mag as nat, 51);
    assert(rounding_unit(mag as nat, len - 67) == len - 40);
    let low = 2 * f + cut;
    assert(pow2(27) == 0x800_0000);
    assert(mag == q0 * 0x800_0000 + low) by (nonlinear_arith)
        requires
            mag == t * 2 + cut,
            t == q0 * big + f,
            low == 2 * f + cut,
            big == 0x400_0000,
    ;
    assert(0 <= low < 0x800_0000);
    lemma_fundamental_div_mod_converse(mag, 0x800_0000, q0, low);
    // half of what is dropped is never met
    if 2 * r > 65535 {
        assert(f >= 0x200_0001) by (nonlinear_arith)
            requires
                b2 == scale * f + g,
                0 <= g < scale,
                b2 == r * big,
                r >= 32768,
                scale == 65535,
                big == 0x400_0000,
        ;
    } else {
        assert(f < 0x200_0000) by (nonlinear_arith)
            requires
                b2 == scale * f + g,
                0 <= g < scale,
                b2 == r * big,
                r <= 32767,
                scale == 65535,
                big == 0x400_0000,
        ;
    }
    assert(round_even_nat(mag as nat, 27) == q);
    reveal(round_pack);
    let ex: u64 = (127 - k) as u64;
    assert((ex << 23) == ex * 0x80_0000 && ((ex + 1) as u64) << 23 == (ex + 1) * 0x80_0000)
        by (bit_vector)
        requires
            ex < 200,
    ;
    assert(round_pack(false, mag as nat, len - 67) == (len + 109) * 0x80_0000 + q);
    assert(pack(q as u64, ex) == (len + 109) * 0x80_0000 + q);
}

/// A normalised sample below the least that counts has a product with the
/// full scale below one half, which is nearest to zero.
#[verifier::spinoff_prover]
proof fn lemma_small_samples_give_zero(v: u32, scale: nat, fl: nat, sbits: u32, sb: nat)
    requires
        v < fl * 0x80_0000,
        sb == 8 && scale == 255 && fl == 118 && sbits == BYTE_SCALE_BITS || sb == 16 && scale
            == 65535 && fl == 109 && sbits == WORD_SCALE_BITS,
    ensures
        nearest_index(product(v, sbits), scale) == 0,
{
    reveal(product);
    lemma2_to64();
    lemma2_to64_rest();
    let r = product(v, sbits);
    let mv = mantissa(v);
    let ms = mantissa(sbits);
    let uv = unit_exponent(v);
    let us = unit_exponent(sbits);
    assert(ms == scale * pow2((24 - sb) as nat) && us == sb - 24);
    let mag = mv * ms;
    let exp = uv + us;
    assert(r == round_pack(false, mag, exp));
    if mag == 0 {
        reveal(round_pack);
        assert(r == 0);
        assert(mantissa(0) == 0 && unit_exponent(0) == -149);
        lemma_pow2_unfold(150);
        lemma_pow2_pos(149);
        assert(pow2(149) / pow2(150) == 0) by (nonlinear_arith)
            requires
                pow2(150) == 2 * pow2(149),
                pow2(149) > 0,
        ;
    } else {
        let one = wide_one();
        let pv = pow2((uv + 149) as nat);
        let ps = pow2((us + 149) as nat);
        let fine = pow2((exp + 298) as nat);
        lemma_pow2_adds((uv + 149) as nat, (us + 149) as nat);
        lemma_pow2_pos((uv + 149) as nat);
        lemma_pow2_pos(149);
        lemma_pow2_pos(127);
        // the sample is below `2^(fl - 127)`
        let top = pow2((fl + 22) as nat);
        lemma_pow2_adds(24, (uv + 149) as nat);
        if uv + 173 < fl + 22 {
            vstd::arithmetic::power2::lemma_pow2_strictly_increases((uv + 173) as nat, fl + 22);
        }
        assert(uv + 173 <= fl + 22);
        assert(wide(v) < top) by (nonlinear_arith)
            requires
                wide(v) == mv * pv,
                mv < 0x100_0000,
                0x100_0000 * pv <= top,
                pv >= 1,
        ;
        // the full scale is below `2^sb`
        lemma_pow2_adds((24 - sb) as nat, (us + 149) as nat);
        lemma_pow2_adds(sb, 149);
        let ws = ms * ps;
        assert(ws == scale * one) by (nonlinear_arith)
            requires
                ws == ms * ps,
                ms == scale * pow2((24 - sb) as nat),
                pow2((24 - sb) as nat) * ps == one,
        ;
        let exact = mag * fine;
        assert(exact == wide(v) * ws) by (nonlinear_arith)
            requires
                exact == mag * fine,
                mag == mv * ms,
                fine == pv * ps,
                wide(v) == mv * pv,
                ws == ms * ps,
        ;
        // so the product is below `0.499`
        lemma_pow2_adds((fl + 22) as nat, sb);
        lemma_pow2_unfold(148);
        lemma_pow2_unfold(149);
        lemma_pow2_unfold(150);
        lemma_pow2_unfold(151);
        lemma_pow2_adds(147, 149);
        lemma_pow2_adds(140, 8);
        lemma_pow2_adds(131, 16);
        lemma_pow2_adds(127, 20);
        let half = pow2(148);
        vstd::arithmetic::power2::lemma_pow2_strictly_increases(127, fl + 22);
        assert(exact + pow2(127) * one < half * one) by (nonlinear_arith)
            requires
                exact == wide(v) * ws,
                ws == scale * one,
                wide(v) < top,
                top * (scale + 1) <= half,
                top >= pow2(127),
                pow2(127) >= 1,
                scale >= 1,
                one > 0,
        ;
        assert(exact <= pow2(151) * pow2(149)) by (nonlinear_arith)
            requires
                exact + pow2(127) * one < half * one,
                pow2(151) == 8 * half,
                one == pow2(149),
                pow2(127) * one >= 0,
        ;
        lemma_round_pack_near(false, mag, exp, 149);
        assert(wide(r) < half) by (nonlinear_arith)
            requires
                wide(r) * one - exact <= pow2(127) * one,
                exact + pow2(127) * one < half * one,
                one > 0,
        ;
        assert(within(r, 4 * wide_one()));
        lemma_unit_of_small(r);
        let s = (-unit_exponent(r)) as nat;
        lemma_pow2_adds((149 - s) as nat, (s - 1) as nat);
        lemma_pow2_pos((149 - s) as nat);
        lemma_pow2_unfold(s);
        lemma_pow2_unfold(s + 1);
        assert(mantissa(r) < pow2((s - 1) as nat)) by (nonlinear_arith)
            requires
                wide(r) == mantissa(r) * pow2((149 - s) as nat),
                wide(r) < half,
                half == pow2((149 - s) as nat) * pow2((s - 1) as nat),
                pow2((149 - s) as nat) >= 1,
        ;
        let num = 2 * mantissa(r) + pow2(s);
        assert(num / pow2(s + 1) == 0) by (nonlinear_arith)
            requires
                0 <= num < pow2(s + 1),
        ;
    }
}

/// The integer sample of a normalised sample up to one is the whole number
/// nearest to the product of the sample and the full scale.
#[verifier::spinoff_prover]
#[verifier::rlimit(40)]
proof fn lemma_unit_to_scale_is_nearest(v: u32, scale: u64, fl: u64, sbits: u32, sb: nat)
    requires
        v <= ONE_BITS,
        sb == 8 && scale == 255 && fl == 118 && sbits == BYTE_SCALE_BITS || sb == 16 && scale
            == 65535 && fl == 109 && sbits == WORD_SCALE_BITS,
    ensures
        unit_to_scale(v, scale, fl) == nearest_index(product(v, sbits), scale as nat),
{
    lemma2_to64();
    lemma2_to64_rest();
    let e = (v >> 23) as u64;
    let m = (v & 0x7F_FFFF) as u64;
    assert(e == v / 0x80_0000 && m == v % 0x80_0000) by (bit_vector)
        requires
            e == (v >> 23) as u64,
            m == (v & 0x7F_FFFF) as u64,
    ;
    if e < fl {
        lemma_small_samples_give_zero(v, scale as nat, fl as nat, sbits, sb);
    } else {
        reveal(product);
        let mv = mantissa(v);
        let ms = mantissa(sbits);
        assert(mv == 0x80_0000 + m && unit_exponent(v) == e - 150);
        assert(ms == scale * pow2((24 - sb) as nat) && unit_exponent(sbits) == sb - 24);
        let up = (24 - sb) as nat;
        let sc = scale as nat;
        let p: nat = mv * sc;
        assert(mv * ms == p * pow2(up)) by (nonlinear_arith)
            requires
                ms == sc * pow2(up),
                p == mv * sc,
        ;
        assert(product(v, sbits) == round_pack(false, p * pow2(up), e - 150 - up));
        lemma_round_pack_scaled(false, p, e - 150, up);
        let r = round_pack(false, p, e - 150);
        let wide_p: u64 = ((0x80_0000u64 + m) * scale) as u64;
        assert(wide_p == p) by (nonlinear_arith)
            requires
                p == mv * sc,
                sc == scale,
                mv == 0x80_0000 + m,
                m < 0x80_0000,
                scale <= 65535,
                wide_p == ((0x80_0000u64 + m) * scale) as u64,
        ;
        assert(0x80_0000 * sc <= p < 0x100_0000 * sc) by (nonlinear_arith)
            requires
                p == mv * sc,
                0x80_0000 <= mv < 0x100_0000,
                sc >= 1,
        ;
        let drop = excess_bits(wide_p);
        if sb == 8 {
            if drop == 7 {
                lemma_bit_length_is(p, 31);
            } else {
                assert(drop == 8);
                lemma_bit_length_is(p, 32);
            }
        } else {
            if drop == 15 {
                lemma_bit_length_is(p, 39);
            } else {
                assert(drop == 16);
                lemma_bit_length_is(p, 40);
            }
        }
        assert(bit_length(p) == 24 + drop);
        let u = drop + e - 150;
        assert(rounding_unit(p, e - 150) == u);
        reveal(round_pack);
        lemma_round_even_agrees(wide_p, drop);
        lemma_round_even_nat_is_nearest(p, drop as nat);
        let q = round_even_nat(p, drop as nat);
        lemma_pow2_pos(drop as nat);
        lemma_pow2_adds(24, drop as nat);
        lemma_pow2_adds(23, drop as nat);
        assert(0x80_0000 <= p / pow2(drop as nat) < 0x100_0000) by (nonlinear_arith)
            requires
                pow2((23 + drop) as nat) <= p < pow2((24 + drop) as nat),
                pow2((24 + drop) as nat) == 0x100_0000 * pow2(drop as nat),
                pow2((23 + drop) as nat) == 0x80_0000 * pow2(drop as nat),
                pow2(drop as nat) >= 1,
        ;
        assert(0x80_0000 <= q <= 0x100_0000);
        let body = (u + 149) * 0x80_0000 + q;
        assert(r == body);
        // the whole number nearest to it
        let s = (150 - e - drop) as nat;
        assert(7 <= s <= 26);
        let ps = pow2(s);
        lemma_pow2_pos(s);
        lemma_pow2_pos((s - 1) as nat);
        lemma_pow2_unfold(s);
        lemma_pow2_unfold(s + 1);
        let a = q + pow2((s - 1) as nat);
        lemma_div_multiples_vanish_quotient(2, a as int, ps as int);
        assert(2 * a == 2 * q + ps);
        assert(2 * ps == pow2(s + 1));
        let whole = a / ps;
        if q < 0x100_0000 {
            assert(body / 0x80_0000 == u + 150 && body % 0x80_0000 == q - 0x80_0000);
            assert(mantissa(r) == q && unit_exponent(r) == u);
        } else {
            assert(body == (u + 151) * 0x80_0000);
            assert(mantissa(r) == 0x80_0000 && unit_exponent(r) == u + 1);
            assert(pow2((s - 1) as nat) * 2 == ps);
        }
        assert(nearest_index(r, scale as nat) == if whole > scale {
            scale as nat
        } else {
            whole
        });
        // and the same by shifts
        let s64 = s as u64;
        vstd::bits::lemma_u64_pow2_no_overflow((s - 1) as nat);
        assert(1 * pow2((s - 1) as nat) <= u64::MAX) by (nonlinear_arith)
            requires
                pow2((s - 1) as nat) < u64::MAX,
        ;
        lemma_u64_shl_is_mul(1, (s64 - 1) as u64);
        let half64: u64 = 1u64 << ((s64 - 1) as u64);
        assert(half64 == pow2((s - 1) as nat));
        lemma_pow2_strictly_increases_to(s);
        let sum64: u64 = ((q as u64) + half64) as u64;
        assert(sum64 == a);
        lemma_u64_shr_is_div(sum64, s64);
        assert(sum64 >> s64 == whole);
    }
}

/// A power of two up to `2^26` is below `2^27`.
proof fn lemma_pow2_strictly_increases_to(s: nat)
    requires
        s <= 26,
    ensures
        pow2(s) <= 0x400_0000,
        s >= 1 ==> pow2((s - 1) as nat) <= 0x200_0000,
{
    lemma2_to64();
    if s < 26 {
        vstd::arithmetic::power2::lemma_pow2_strictly_increases(s, 26);
    }
    if s >= 1 && s - 1 < 25 {
        vstd::arithmetic::power2::lemma_pow2_strictly_increases((s - 1) as nat, 25);
    }
}

/// The eight-bit sample of a normalised sample up to one is the whole
/// number nearest to the product of the sample and `255`.
pub proof fn lemma_unit_to_byte_is_nearest(v: u32)
    requires
        v <= ONE_BITS,
    ensures
        unit_to_byte(v) == nearest_index(product(v, BYTE_SCALE_BITS), 255),
{
    lemma_unit_to_scale_is_nearest(v, 255, 118, BYTE_SCALE_BITS, 8);
}

/// The sixteen-bit sample of a normalised sample up to one is the whole
/// number nearest to the product of the sample and `65535`.
pub proof fn lemma_unit_to_word_is_nearest(v: u32)
    requires
        v <= ONE_BITS,
    ensures
        unit_to_word(v) == nearest_index(product(v, WORD_SCALE_BITS), 65535),
{
    lemma_unit_to_scale_is_nearest(v, 65535, 109, WORD_SCALE_BITS, 16);
}

} // verus!
