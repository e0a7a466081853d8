//! Turns: what the shortest way from one angle to another is.
//!
//! Values are in units of 2^-149; angles are in degrees.
use crate::angles::{folded, shortest_turn, wrapped, DEGREES_180, DEGREES_360};
use crate::clock::lemma_widen_exact;
use crate::double::Double;
use crate::means::size;
use crate::range::{
    lemma_known, lemma_nearest_at_most, lemma_negate, lemma_no_units, lemma_one, lemma_over_order,
    lemma_plus_near, lemma_plus_value, lemma_rounded_exact,
};
use crate::rounding::{lemma_code_exact, lemma_code_scale, magnitude};
use crate::single::{lemma_infinity_units, lemma_of_exact, Single};
use vstd::arithmetic::div_mod::*;
use vstd::arithmetic::power2::*;
use vstd::prelude::*;

verus! {

/// A single that becomes a double and a single again is itself.
proof fn lemma_there_and_back(a: Single, d: Double)
    requires
        a.finite(),
        !a.negative(),
        d.finite(),
        !d.negative(),
        d.value() == a.value() * pow2(925),
    ensures
        d.narrow().value() == a.value(),
        d.narrow().finite(),
{
    reveal(Double::narrow_spec);
    lemma_pow2_pos(925);
    let n = a.units();
    assert(d.units() == n * pow2(925));
    assert(1 * pow2(925) == pow2(925));
    lemma_code_scale(n, 1, pow2(925), 24);
    lemma_code_exact(a.mag(), 24);
}

/// A double less nothing is itself.
proof fn lemma_less_nothing(d: Double, zero: Double)
    requires
        d.finite(),
        !d.negative(),
        zero.finite(),
        zero.value() == 0,
    ensures
        d.minus(zero).finite(),
        d.minus(zero).value() == d.value(),
        d.value() > 0 ==> !d.minus(zero).negative(),
{
    reveal(Double::plus_spec);
    let less = zero.negate();
    assert(less.value() == 0 && less.finite());
    lemma_code_exact(d.mag(), 53);
    lemma_pow2_pos(52);
    assert(magnitude(0, 53) == 0);
}

/// A double times nothing is nothing.
proof fn lemma_times_no_double(d: Double, zero: Double)
    requires
        d.finite(),
        zero.finite(),
        zero.value() == 0,
    ensures
        d.times(zero).finite(),
        d.times(zero).value() == 0,
{
    reveal(Double::times_spec);
    lemma_pow2_pos(1074);
    lemma_pow2_pos(52);
    assert(magnitude(0, 53) == 0);
    assert(d.units() * 0 == 0) by (nonlinear_arith);
    assert(0 * pow2(1074) == 0 && 1 * pow2(1074) == pow2(1074));
    lemma_code_scale(0, 1, pow2(1074), 53);
    lemma_code_exact(0, 53);
}

/// What is above zero and below a turn by more than a thousandth has no whole
/// turn in it.
proof fn lemma_no_whole_turn(a: Single, n: Single)
    requires
        a.finite(),
        n.finite(),
        0 < a.value(),
        0 < n.value(),
        1024 * a.value() <= 1023 * n.value(),
    ensures
        folded(a, n).value() == a.value(),
        folded(a, n).finite(),
{
    let u = pow2(149) as int;
    let q = a.over(n);
    let most = Single { bits: 0x3f7f_c000 };
    lemma_one();
    lemma_no_units(a);
    lemma_no_units(n);
    lemma_known(0x3f7f_c000, 0xff_c000, 125);
    lemma_pow2_adds(24, 125);
    lemma_pow2_pos(125);
    assert(pow2(24) == 0x100_0000) by {
        lemma2_to64();
    }
    assert(1024 * most.value() == 1023 * u);
    lemma_over_order(a, a, n);
    let k = a.units() * pow2(149);
    assert(k <= most.units() * n.units()) by (nonlinear_arith)
        requires
            k == a.units() * u,
            1024 * a.units() <= 1023 * n.units(),
            1024 * most.units() == 1023 * u,
            u > 0,
    ;
    lemma_nearest_at_most(k, n.units(), 0x3f7f_c000);
    assert(q.finite() && q.value() < u) by {
        reveal(Single::over_spec);
        lemma_infinity_units();
    }
    let f = q.floor();
    assert(f.finite() && f.value() == 0) by {
        reveal(Single::floor_spec);
        lemma_no_units(q);
        if !q.zero() {
            lemma_small_mod(q.value() as nat, pow2(149));
            lemma_fundamental_div_mod(q.value(), u);
            let i = q.value() / u;
            assert(i == 0) by (nonlinear_arith)
                requires
                    q.value() == u * i + q.value() % u,
                    0 <= q.value() % u < u,
                    0 <= q.value() < u,
            ;
            lemma_of_exact(0);
            assert(0 * pow2(149) == 0);
        }
    }
    lemma_widen_exact(a);
    lemma_widen_exact(n);
    lemma_widen_exact(f);
    assert(0 * pow2(925) == 0);
    let (wa, wn, wf) = (Double::widen(a), Double::widen(n), Double::widen(f));
    lemma_times_no_double(wn, wf);
    lemma_less_nothing(wa, wn.times(wf));
    let av = a.value();
    lemma_pow2_pos(925);
    assert(av * pow2(925) > 0) by (nonlinear_arith)
        requires
            av > 0,
            pow2(925) > 0,
    ;
    lemma_there_and_back(a, wa.minus(wn.times(wf)));
}

/// An angle within 179 degrees of zero is its own place in the half turns around
/// zero.
pub proof fn law_small_angle_stays(a: Single)
    requires
        a.finite(),
        size(a.value()) <= 179 * pow2(149),
    ensures
        wrapped(a).finite(),
        size(wrapped(a).value() - a.value()) <= pow2(134),
{
    let u = pow2(149) as int;
    let half = Single { bits: DEGREES_180 };
    let full = Single { bits: DEGREES_360 };
    lemma_one();
    lemma_pow2_pos(125);
    lemma_known(DEGREES_180, 0xb4_0000, 133);
    lemma_known(DEGREES_360, 0xb4_0000, 134);
    lemma_pow2_adds(16, 133);
    lemma_pow2_adds(15, 134);
    lemma_pow2_adds(9, 149);
    lemma_pow2_unfold(134);
    assert(pow2(16) == 0x1_0000 && pow2(15) == 0x8000 && pow2(9) == 512) by {
        lemma2_to64();
    }
    lemma_plus_near(a, half, 158);
    let s = a.plus(half);
    lemma_no_whole_turn(s, full);
    let f = folded(s, full);
    lemma_negate(half);
    lemma_plus_near(f, half.negate(), 158);
}

/// The shortest way from one angle to another that is less than 178 degrees away
/// is their difference: from the first to the second.
pub proof fn law_short_turn_is_the_difference(a: Single, b: Single)
    requires
        a.finite(),
        b.finite(),
        size(b.value() - a.value()) <= 178 * pow2(149),
    ensures
        shortest_turn(a, b).finite(),
        size(shortest_turn(a, b).value() - (b.value() - a.value())) <= pow2(135),
{
    let u = pow2(149) as int;
    let half = Single { bits: DEGREES_180 };
    let zero = Single { bits: 0 };
    lemma_one();
    lemma_known(DEGREES_180, 0xb4_0000, 133);
    lemma_pow2_adds(16, 133);
    lemma_pow2_adds(9, 149);
    lemma_pow2_unfold(134);
    lemma_pow2_unfold(135);
    lemma_pow2_pos(133);
    assert(pow2(16) == 0x1_0000 && pow2(9) == 512) by {
        lemma2_to64();
    }
    lemma_negate(a);
    lemma_plus_near(b, a.negate(), 158);
    let d = b.minus(a);
    law_small_angle_stays(d);
    let r = wrapped(d);
    lemma_negate(half);
    assert(!half.lt(r) && !r.lt(half.negate()));
    lemma_plus_value(r, zero);
    lemma_rounded_exact(r);
    lemma_plus_near(r, zero, 158);
}

} // verus!
