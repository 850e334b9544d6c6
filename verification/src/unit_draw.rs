//! The comparison that decides whether a span is long enough to be built from
//! sub-patterns: four times the span, in seconds, against a uniform draw from
//! `[0, 1)` given by the bit pattern of its IEEE-754 double.
use vstd::prelude::*;
use vstd::arithmetic::power2::{
    pow2, lemma2_to64, lemma2_to64_rest, lemma_pow2_adds, lemma_pow2_pos,
    lemma_pow2_strictly_increases,
};
use vstd::arithmetic::div_mod::lemma_fundamental_div_mod;
use vstd::bits::lemma_u64_shr_is_div;

verus! {

/// Base-two logarithm of the number of ticks in one second.
pub const TICK_SHIFT: u64 = 54;

/// Bit pattern of the double `1.0`; the bit patterns of the doubles in
/// `[0, 1)` are exactly those below it.
pub const UNIT_ONE_BITS: u64 = 0x3FF0_0000_0000_0000;

/// Mask of the 52 fraction bits of a double.
pub const FRACTION_MASK: u64 = 0x000F_FFFF_FFFF_FFFF;

/// Exponent field of a double with sign bit clear.
pub open spec fn exponent_field(bits: u64) -> int {
    bits as int / pow2(52) as int
}

/// Fraction field of a double.
pub open spec fn fraction_field(bits: u64) -> int {
    bits as int % pow2(52) as int
}

/// The value of the non-negative finite double with bit pattern `bits`,
/// multiplied by 2^1074 (which makes every such value an integer).
pub open spec fn draw_scaled(bits: u64) -> int {
    if exponent_field(bits) == 0 {
        fraction_field(bits)
    } else {
        (pow2(52) + fraction_field(bits)) * pow2((exponent_field(bits) - 1) as nat)
    }
}

/// Four times `duration` ticks, as seconds, exceeds the draw: with both sides
/// scaled by 2^1074, `4 * duration * 2^(1074 - TICK_SHIFT) > draw * 2^1074`.
pub open spec fn exceeds_draw(duration: u64, bits: u64) -> bool {
    4 * duration * pow2((1074 - TICK_SHIFT) as nat) > draw_scaled(bits)
}

proof fn lemma_cancel_factor(a: int, b: int, c: int)
    requires
        c > 0,
    ensures
        (a * c > b * c) == (a > b),
{
    if a > b {
        assert(a * c > b * c) by (nonlinear_arith)
            requires
                a > b,
                c > 0,
        ;
    } else {
        assert(a * c <= b * c) by (nonlinear_arith)
            requires
                a <= b,
                c > 0,
        ;
    }
}

proof fn lemma_exceeds_quotient(d: int, m: int, p: int)
    requires
        p > 0,
        d >= 0,
        m >= 0,
    ensures
        (d * p > m) == (d > m / p),
{
    lemma_fundamental_div_mod(m, p);
    let q = m / p;
    let r = m % p;
    assert(0 <= r < p);
    if d > q {
        assert(d * p >= (q + 1) * p) by (nonlinear_arith)
            requires
                d >= q + 1,
                p > 0,
        ;
        assert((q + 1) * p == q * p + p) by (nonlinear_arith);
        assert(m == p * q + r);
        assert(p * q == q * p) by (nonlinear_arith);
    } else {
        assert(d * p <= q * p) by (nonlinear_arith)
            requires
                d <= q,
                p > 0,
        ;
        assert(p * q == q * p) by (nonlinear_arith);
    }
}

/// Whether four times `duration` ticks, as seconds, exceeds the uniform draw
/// whose double has bit pattern `draw`; this is the test by which the
/// generator decides that a span is built from sub-patterns.
pub fn exceeds_unit_draw(duration: u64, draw: u64) -> (exceeds: bool)
    requires
        draw < UNIT_ONE_BITS,
    ensures
        exceeds == exceeds_draw(duration, draw),
{
    proof {
        lemma2_to64();
        lemma2_to64_rest();
        lemma_u64_shr_is_div(draw, 52);
        assert(draw & FRACTION_MASK == draw % 0x10_0000_0000_0000) by (bit_vector);
        assert(draw < 0x3FF0_0000_0000_0000 ==> draw >> 52 < 0x3FF) by (bit_vector);
        lemma_pow2_pos(1020);
    }
    if duration == 0 {
        proof {
            assert(4 * duration * pow2(1020) == 0) by (nonlinear_arith)
                requires
                    duration == 0,
            ;
            if exponent_field(draw) != 0 {
                let e = (exponent_field(draw) - 1) as nat;
                lemma_pow2_pos(e);
                assert((pow2(52) + fraction_field(draw)) * pow2(e) >= 0) by (nonlinear_arith)
                    requires
                        fraction_field(draw) >= 0,
                        pow2(e) > 0,
                ;
            }
        }
        return false;
    }
    let exponent = draw >> 52;
    let fraction = draw & FRACTION_MASK;
    if exponent == 0 {
        proof {
            lemma_pow2_strictly_increases(52, 1020);
            assert(4 * duration * pow2(1020) >= pow2(1020)) by (nonlinear_arith)
                requires
                    duration >= 1,
                    pow2(1020) > 0,
            ;
        }
        return true;
    }
    let shift: u64 = 1023 - exponent;
    let significand: u64 = fraction + 0x10_0000_0000_0000;
    let ghost low: nat = (exponent - 1) as nat;
    proof {
        lemma_pow2_adds(low, shift as nat);
        assert(low + shift == 1022);
        assert(pow2(1022) == pow2(1020) * 4) by {
            lemma_pow2_adds(1020, 2);
        }
        lemma_pow2_pos(low);
        lemma_pow2_pos(shift as nat);
        assert(4 * duration * pow2(1020) == (duration * pow2(shift as nat)) * pow2(low))
            by (nonlinear_arith)
            requires
                pow2(1022) == pow2(1020) * 4,
                pow2(1022) == pow2(low) * pow2(shift as nat),
        ;
        lemma_cancel_factor(duration * pow2(shift as nat), significand as int, pow2(low) as int);
        assert(draw_scaled(draw) == significand * pow2(low));
    }
    if shift >= 53 {
        proof {
            lemma_pow2_strictly_increases(52, shift as nat);
            if shift > 53 {
                lemma_pow2_strictly_increases(53, shift as nat);
            }
            assert(duration * pow2(shift as nat) >= pow2(shift as nat)) by (nonlinear_arith)
                requires
                    duration >= 1,
            ;
        }
        return true;
    }
    proof {
        lemma_u64_shr_is_div(significand, shift);
        lemma_exceeds_quotient(duration as int, significand as int, pow2(shift as nat) as int);
    }
    duration > (significand >> shift)
}

/// Every draw of `[0, 1)`, scaled by 2^1074, lies below 2^1074.
proof fn lemma_draw_below_one(bits: u64)
    requires
        bits < UNIT_ONE_BITS,
    ensures
        0 <= draw_scaled(bits) < pow2(1074),
{
    lemma2_to64();
    lemma2_to64_rest();
    let e = exponent_field(bits);
    let m = fraction_field(bits);
    assert(e < 1023);
    lemma_pow2_strictly_increases(52, 1074);
    if e != 0 {
        let low = (e - 1) as nat;
        lemma_pow2_pos(low);
        lemma_pow2_adds(53, low);
        if low < 1021 {
            lemma_pow2_strictly_increases(low, 1021);
        }
        lemma_pow2_adds(53, 1021);
        assert((pow2(52) + m) * pow2(low) < pow2(53) * pow2(1021)) by (nonlinear_arith)
            requires
                0 <= m < pow2(52),
                pow2(53) == 2 * pow2(52),
                0 < pow2(low) <= pow2(1021),
        ;
        assert((pow2(52) + m) * pow2(low) >= 0) by (nonlinear_arith)
            requires
                0 <= m,
                pow2(low) > 0,
        ;
    }
}

/// Law: a span of a quarter second or more exceeds every draw of `[0, 1)`,
/// so the generator halves every such span that it does not double.
pub proof fn lemma_quarter_second_exceeds_every_draw(duration: u64, bits: u64)
    requires
        duration >= pow2((TICK_SHIFT - 2) as nat),
        bits < UNIT_ONE_BITS,
    ensures
        exceeds_draw(duration, bits),
{
    lemma_draw_below_one(bits);
    lemma_pow2_adds(52, 1020);
    lemma_pow2_adds(2, 1072);
    lemma2_to64();
    lemma2_to64_rest();
    lemma_pow2_pos(1020);
    assert(4 * pow2(52) * pow2(1020) == pow2(1074)) by (nonlinear_arith)
        requires
            pow2(52) * pow2(1020) == pow2(1072),
            pow2(2) * pow2(1072) == pow2(1074),
            pow2(2) == 4,
    ;
    assert(4 * duration * pow2(1020) >= 4 * pow2(52) * pow2(1020)) by (nonlinear_arith)
        requires
            duration >= pow2(52),
            pow2(1020) > 0,
    ;
}

/// Law: a longer span exceeds every draw that a shorter one exceeds.
pub proof fn lemma_exceeds_draw_monotonic(shorter: u64, longer: u64, bits: u64)
    requires
        shorter <= longer,
        exceeds_draw(shorter, bits),
    ensures
        exceeds_draw(longer, bits),
{
    lemma_pow2_pos(1020);
    assert(4 * shorter * pow2(1020) <= 4 * longer * pow2(1020)) by (nonlinear_arith)
        requires
            shorter <= longer,
            pow2(1020) > 0,
    ;
}

} // verus!
