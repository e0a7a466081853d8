//! Fixed-point pixel arithmetic.
//!
//! Values in `[0, 1]` are stored as `u16` in `[0, 32768]`.  Products use a
//! `u32` intermediate and round half up.
use crate::range::{
    lemma_finite_or_infinite, lemma_one, lemma_plus_value, lemma_rounded_monotone,
    lemma_times_order,
};
use crate::rounding::magnitude;
use crate::single::{lemma_nearest_exact, lemma_of_exact, Single, ONE};
use vstd::arithmetic::div_mod::*;
use vstd::arithmetic::power2::*;
use vstd::prelude::*;

verus! {

pub const FIX15_ONE: u32 = 32768;

pub const FIX15_HALF: u32 = 16384;

pub const FIX15_MAX_U16: u16 = 32768;

/// The pattern of 32768.0.
pub const ONE_BITS: u32 = 0x4700_0000;

/// The pattern of 0.5.
pub const HALF_BITS: u32 = 0x3f00_0000;

/// A fix15 number as a fraction of one.
pub open spec fn fraction(v: u16) -> Single {
    Single::of(v as int).over_spec(Single { bits: ONE_BITS })
}

/// A fraction of one in steps of fix15, held to the range.
pub open spec fn steps(v: Single) -> Single {
    let one = Single { bits: ONE_BITS };
    v.times_spec(one).clamp_spec(Single { bits: 0 }, one)
}

/// The fix15 number nearest to a fraction held to `[0, 1]`.
pub open spec fn quantized(v: Single) -> u16 {
    steps(v).plus_spec(Single { bits: HALF_BITS }).to_u16_spec()
}

/// What the patterns of 32768.0 and 0.5 stand for.
proof fn lemma_constants()
    ensures
        (Single { bits: ONE_BITS }).units() == pow2(164),
        (Single { bits: HALF_BITS }).units() == pow2(148),
        (Single { bits: 0 }).units() == 0,
{
    assert(pow2(23) == 0x80_0000) by {
        lemma2_to64();
    }
    lemma_pow2_adds(23, 141);
    lemma_pow2_adds(23, 125);
    assert(ONE_BITS as nat / 0x80_0000 == 142 && ONE_BITS as nat % 0x80_0000 == 0);
    assert(HALF_BITS as nat / 0x80_0000 == 126 && HALF_BITS as nat % 0x80_0000 == 0);
    assert(magnitude(ONE_BITS as nat, 24) == (0 + pow2(23)) * pow2(141));
    assert(magnitude(HALF_BITS as nat, 24) == (0 + pow2(23)) * pow2(125));
    assert(0nat / 0x80_0000 == 0);
}

/// The fraction that a fix15 number stands for is exact.
pub proof fn lemma_fraction_is_exact(v: u16)
    ensures
        fraction(v).finite(),
        !fraction(v).negative(),
        fraction(v).units() == v * pow2(134),
        fraction(v).units() * 0x8000 == v * pow2(149),
{
    lemma_of_exact(v as nat);
    lemma_constants();
    reveal(Single::over_spec);
    lemma_pow2_pos(164);
    lemma_pow2_adds(149, 149);
    lemma_pow2_adds(134, 164);
    lemma_pow2_adds(134, 15);
    assert(pow2(15) == 0x8000) by {
        lemma2_to64();
    }
    let n = Single::of(v as int).units() * pow2(149);
    assert(n == (v * pow2(134)) * pow2(164)) by (nonlinear_arith)
        requires
            n == (v * pow2(149)) * pow2(149),
            pow2(149) * pow2(149) == pow2(134) * pow2(164),
    ;
    lemma_nearest_exact(n, pow2(164), v as nat, 134);
    assert((v * pow2(134)) * 0x8000 == v * pow2(149)) by (nonlinear_arith)
        requires
            pow2(149) == pow2(134) * 0x8000,
    ;
}

/// A fix15 number as a fraction of one; always exact.
pub fn to_f32(v: u16) -> (r: Single)
    ensures
        r == fraction(v),
        r.finite(),
        !r.negative(),
        r.units() * 0x8000 == v * pow2(149),
{
    proof {
        lemma_fraction_is_exact(v);
    }
    Single::from_u32(v as u32).over(Single { bits: ONE_BITS })
}

/// The fix15 number nearest to a fraction, which is first held to `[0, 1]`.
pub fn from_f32(v: Single) -> (r: u16)
    ensures
        r == quantized(v),
        r <= FIX15_MAX_U16,
{
    proof {
        law_stored_is_in_range(v);
    }
    let one = Single { bits: ONE_BITS };
    v.times(one).clamp(Single { bits: 0 }, one).plus(Single { bits: HALF_BITS }).to_u16()
}

/// Every fix15 number survives the way to a fraction and back.
pub proof fn law_fraction_round_trips(v: u16)
    requires
        v <= FIX15_MAX_U16,
    ensures
        quantized(fraction(v)) == v,
{
    let one = Single { bits: ONE_BITS };
    let f = fraction(v);
    let scaled = f.times_spec(one);
    lemma_fraction_is_exact(v);
    lemma_constants();
    lemma_pow2_pos(149);
    lemma_pow2_pos(148);
    lemma_pow2_adds(134, 164);
    lemma_pow2_adds(149, 149);
    lemma_pow2_adds(15, 149);
    lemma_pow2_unfold(149);
    assert(pow2(15) == 0x8000) by {
        lemma2_to64();
    }
    reveal(Single::times_spec);
    reveal(Single::plus_spec);
    let n = f.units() * one.units();
    assert(n == (v * pow2(149)) * pow2(149)) by (nonlinear_arith)
        requires
            n == (v * pow2(134)) * pow2(164),
            pow2(134) * pow2(164) == pow2(149) * pow2(149),
    ;
    lemma_nearest_exact(n, pow2(149), v as nat, 149);
    assert(scaled.units() == v * pow2(149));
    assert(v * pow2(149) <= 0x8000 * pow2(149)) by (nonlinear_arith)
        requires
            v <= 0x8000,
            pow2(149) > 0,
    ;
    assert(v * pow2(149) >= 0) by (nonlinear_arith)
        requires
            v >= 0,
            pow2(149) > 0,
    ;
    let half = Single { bits: HALF_BITS };
    let sum = scaled.plus_spec(half);
    let m = (2 * v + 1) as nat;
    assert(scaled.units() + half.units() == (m * pow2(148)) * 1) by (nonlinear_arith)
        requires
            scaled.units() == v * pow2(149),
            half.units() == pow2(148),
            pow2(149) == 2 * pow2(148),
            m == 2 * v + 1,
    ;
    lemma_nearest_exact((scaled.units() + half.units()) as nat, 1, m, 148);
    assert(sum.units() == m * pow2(148));
    assert(m * pow2(148) == v * pow2(149) + pow2(148)) by (nonlinear_arith)
        requires
            pow2(149) == 2 * pow2(148),
            m == 2 * v + 1,
    ;
    lemma_fundamental_div_mod_converse(
        sum.units() as int,
        pow2(149) as int,
        v as int,
        pow2(148) as int,
    );
    assert(sum.truncated() == v);
}

/// What is no more, in steps, is no more to the nearest step.
proof fn lemma_nearest_step(a: Single, b: Single)
    requires
        a.finite(),
        b.finite(),
        0 <= a.value() <= b.value(),
    ensures
        a.plus_spec(Single { bits: HALF_BITS }).to_u16_spec() <= b.plus_spec(
            Single { bits: HALF_BITS },
        ).to_u16_spec(),
{
    let half = Single { bits: HALF_BITS };
    lemma_constants();
    lemma_pow2_pos(148);
    lemma_pow2_pos(149);
    lemma_plus_value(a, half);
    lemma_plus_value(b, half);
    lemma_rounded_monotone(0, a.value() + half.value());
    lemma_rounded_monotone(0, b.value() + half.value());
    lemma_rounded_monotone(a.value() + half.value(), b.value() + half.value());
    let x = a.plus_spec(half);
    let y = b.plus_spec(half);
    assert(x.truncated() == x.units() / pow2(149) || x.units() == 0);
    assert(y.truncated() == y.units() / pow2(149) || y.units() == 0);
    lemma_div_is_ordered(x.units() as int, y.units() as int, pow2(149) as int);
    lemma_div_pos_is_pos(x.units() as int, pow2(149) as int);
    lemma_div_pos_is_pos(y.units() as int, pow2(149) as int);
    assert(0int / (pow2(149) as int) == 0) by {
        lemma_div_by_multiple(0, pow2(149) as int);
    }
}

/// A larger fraction is not stored as a smaller number.
pub proof fn law_storing_keeps_order(v: Single, w: Single)
    requires
        v.le_spec(w),
    ensures
        quantized(v) <= quantized(w),
{
    let one = Single { bits: ONE_BITS };
    lemma_constants();
    lemma_pow2_pos(164);
    lemma_times_order(v, w, one);
    lemma_steps(v);
    lemma_steps(w);
    lemma_nearest_step(steps(v), steps(w));
}

/// The steps of a fraction are in range.
proof fn lemma_steps(v: Single)
    requires
        !v.nan(),
    ensures
        steps(v).finite(),
        0 <= steps(v).value() <= pow2(164),
        !v.times_spec(Single { bits: ONE_BITS }).nan(),
{
    let one = Single { bits: ONE_BITS };
    lemma_constants();
    lemma_pow2_pos(164);
    lemma_pow2_strictly_increases(164, 277);
    lemma_times_order(v, v, one);
    if !steps(v).finite() {
        lemma_finite_or_infinite(steps(v));
    }
}

/// Whatever is stored is in range, and the range is filled: nothing and less
/// give 0, one and more give 32768.
pub proof fn law_stored_is_in_range(v: Single)
    ensures
        quantized(v) <= FIX15_MAX_U16,
        v.le_spec(Single { bits: 0 }) ==> quantized(v) == 0,
        (Single { bits: ONE }).le_spec(v) ==> quantized(v) == FIX15_MAX_U16,
{
    let full = fraction(FIX15_MAX_U16);
    lemma_constants();
    lemma_one();
    lemma_fraction_is_exact(0);
    lemma_fraction_is_exact(FIX15_MAX_U16);
    law_fraction_round_trips(0);
    law_fraction_round_trips(FIX15_MAX_U16);
    assert(full.value() == pow2(149));
    assert(fraction(0).value() == 0) by {
        assert(0 * pow2(134) == 0);
    }
    if v.nan() {
        reveal(Single::times_spec);
        reveal(Single::plus_spec);
    } else {
        lemma_steps(v);
        lemma_steps(full);
        if v.le_spec(Single { bits: 0 }) {
            law_storing_keeps_order(v, fraction(0));
        }
        if (Single { bits: ONE }).le_spec(v) {
            law_storing_keeps_order(full, v);
        }
        if v.le_spec(full) {
            law_storing_keeps_order(v, full);
        } else {
            assert(steps(full).value() == pow2(164)) by {
                lemma_full_steps();
            }
            lemma_nearest_step(steps(v), steps(full));
        }
    }
}

proof fn lemma_full_steps()
    ensures
        steps(fraction(FIX15_MAX_U16)).value() == pow2(164),
{
    let one = Single { bits: ONE_BITS };
    let full = fraction(FIX15_MAX_U16);
    lemma_constants();
    lemma_one();
    lemma_fraction_is_exact(FIX15_MAX_U16);
    lemma_pow2_pos(149);
    reveal(Single::times_spec);
    let n = full.units() * one.units();
    assert(n == (1 * pow2(164)) * pow2(149)) by (nonlinear_arith)
        requires
            n == full.units() * one.units(),
            full.units() == pow2(149),
            one.units() == pow2(164),
    ;
    lemma_nearest_exact(n, pow2(149), 1, 164);
    lemma_pow2_pos(164);
}

/// One is neutral for the product of numbers up to one, and zero annihilates.
pub proof fn law_mul_identities(a: int)
    requires
        0 <= a <= FIX15_ONE,
    ensures
        (a * FIX15_ONE + FIX15_HALF) / (FIX15_ONE as int) == a,
        (a * 0 + FIX15_HALF) / (FIX15_ONE as int) == 0,
{
}

/// The product of two numbers up to one is no larger than either.
pub proof fn law_mul_stays_in_range(a: int, b: int)
    requires
        0 <= a <= FIX15_ONE,
        0 <= b <= FIX15_ONE,
    ensures
        0 <= (a * b + FIX15_HALF) / (FIX15_ONE as int) <= a,
        (a * b + FIX15_HALF) / (FIX15_ONE as int) <= b,
{
    assert(a * b <= a * FIX15_ONE && a * b <= FIX15_ONE * b && a * b >= 0) by (nonlinear_arith)
        requires
            0 <= a <= FIX15_ONE,
            0 <= b <= FIX15_ONE,
    ;
}

/// The product of two fix15 numbers, rounded half up.
pub fn mul(a: u32, b: u32) -> (r: u32)
    requires
        a * b + FIX15_HALF <= u32::MAX,
    ensures
        r == (a * b + FIX15_HALF) / FIX15_ONE as int,
{
    (a * b + FIX15_HALF) / FIX15_ONE
}

/// The sum, held at one.
pub fn add_sat(a: u32, b: u32) -> (r: u32)
    requires
        a + b <= u32::MAX,
    ensures
        r == (if a + b > FIX15_ONE {
            FIX15_ONE as int
        } else {
            a + b
        }),
{
    let s: u32 = a + b;
    if s > FIX15_ONE {
        FIX15_ONE
    } else {
        s
    }
}

} // verus!
