//! What pigment hides: a dab that shows fully, or not at all.
use crate::blend::{
    faded, loaded, lock_alpha_paint, normal_and_eraser_paint, normal_paint, pigment,
    pigment_opacity, pigment_share, pixel_spectrum, shown, source_share, source_spectrum, stacked,
    Rgba, Source, SCALE,
};
use crate::means::{lemma_rest, lemma_same_value, size};
use crate::mixing::law_full_weight_stands_alone;
use crate::pickup::lemma_straight;
use crate::powers::{law_whole_weight_keeps_the_spectrum, lemma_reflectance_at_least};
use crate::range::{lemma_known, lemma_nearest_at_most, lemma_no_units, lemma_one};
use crate::single::{
    law_minus_itself, law_times_one, lemma_nearest_exact, lemma_of_exact, Single, ONE,
};
use crate::spectral::{blended, law_dense_canvas_is_spectral, seen};
use vstd::arithmetic::power2::*;
use vstd::prelude::*;

verus! {

/// A pixel on which something is painted.
pub open spec fn painted_pixel(p: Rgba) -> bool {
    &&& 0 <= p.r <= 65535
    &&& 0 <= p.g <= 65535
    &&& 0 <= p.b <= 65535
    &&& 0 < p.a <= 65535
}

/// Ten reflectances of up to 2^19.
pub open spec fn reflectances(bands: Seq<Single>) -> bool {
    bands.len() == 10 && forall|i: int|
        0 <= i < 10 ==> (#[trigger] bands[i]).bits <= 0x4900_0000
}

pub proof fn lemma_pixel_reflectances(p: Rgba)
    requires
        painted_pixel(p),
    ensures
        reflectances(pixel_spectrum(p)),
        forall|i: int| 0 <= i < 10 ==> (#[trigger] pixel_spectrum(p)[i]).bits >= 0x3600_0000,
{
    lemma_straight(p.r, p.a);
    lemma_straight(p.g, p.a);
    lemma_straight(p.b, p.a);
    let a = Single::of(p.a);
    assert forall|i: int| 0 <= i < 10 implies 0x3600_0000 <= (#[trigger] pixel_spectrum(p)[i]).bits
        <= 0x4900_0000 by {
        lemma_reflectance_at_least(
            Single::of(p.r).over_spec(a),
            Single::of(p.g).over_spec(a),
            Single::of(p.b).over_spec(a),
            i,
        );
    }
}

/// The share of all there is, and of nothing.
proof fn lemma_shares(n: int)
    requires
        0 < n <= 65535,
    ensures
        source_share(n, n) == (Single { bits: ONE }),
        source_share(0, n) == (Single { bits: 0 }),
        (Single { bits: ONE }).minus_spec(Single { bits: ONE }) == (Single { bits: 0 }),
        (Single { bits: ONE }).minus_spec(Single { bits: 0 }) == (Single { bits: ONE }),
{
    let one = Single { bits: ONE };
    let zero = Single { bits: 0 };
    let a = Single::of(n);
    lemma_one();
    lemma_of_exact(n as nat);
    lemma_of_exact(0);
    assert(a.units() > 0) by (nonlinear_arith)
        requires
            a.units() == n * pow2(149),
            n > 0,
            pow2(149) > 0,
    ;
    lemma_no_units(a);
    reveal(Single::over_spec);
    let m = a.units() * pow2(149);
    assert(m == (1 * pow2(149)) * a.units()) by (nonlinear_arith)
        requires
            m == a.units() * pow2(149),
    ;
    lemma_nearest_exact(m, a.units(), 1, 149);
    lemma_same_value(a.over_spec(a), one);
    assert(0 * pow2(149) == 0);
    lemma_no_units(Single::of(0));
    lemma_nearest_at_most(0, a.units(), 0);
    law_minus_itself(one);
    lemma_rest(zero);
}

/// Of a mix of pigments in which the source has all the share, the pixel has no
/// part; of one in which the source has none, the source has no part; and what
/// has all the share gives the same colour from either side.
pub proof fn law_whole_share_hides_the_other(
    bands: Seq<Single>,
    other: Seq<Single>,
    p: Rgba,
    q: Rgba,
)
    requires
        reflectances(bands),
        reflectances(other),
        painted_pixel(p),
        painted_pixel(q),
    ensures
        ({
            let one = Single { bits: ONE };
            let zero = Single { bits: 0 };
            &&& pigment(bands, p, one) == pigment(bands, q, one)
            &&& pigment(bands, p, zero) == pigment(other, p, zero)
            &&& pigment(pixel_spectrum(p), q, one) == pigment(bands, p, zero)
        }),
{
    lemma_pixel_reflectances(p);
    lemma_pixel_reflectances(q);
    lemma_shares(1);
    law_full_weight_stands_alone(bands, pixel_spectrum(p), pixel_spectrum(q));
    law_full_weight_stands_alone(pixel_spectrum(p), bands, other);
    law_full_weight_stands_alone(pixel_spectrum(p), pixel_spectrum(q), bands);
}

/// What a colour of pigment is stored as.
pub open spec fn stored(c: (Single, Single, Single), alpha: int) -> Rgba {
    Rgba { r: loaded(c.0, alpha), g: loaded(c.1, alpha), b: loaded(c.2, alpha), a: alpha }
}

proof fn lemma_full_normal(p: Rgba, mask: int, s: Source, bands: Seq<Single>, opacity: int)
    requires
        painted_pixel(p),
        shown(mask, pigment_opacity(opacity)) == 32768,
    ensures
        normal_paint(p, mask, s, bands, opacity) == stored(
            pigment(bands, p, Single { bits: ONE }),
            32768,
        ),
{
    lemma_shares(32768);
    assert(stacked(32768, p.a, 0) == 32768) by {
        assert(0 * p.a == 0) by (nonlinear_arith);
    }
}

proof fn lemma_full_locked(p: Rgba, mask: int, s: Source, bands: Seq<Single>, opacity: int)
    requires
        painted_pixel(p),
        shown(mask, pigment_opacity(opacity)) == 32768,
    ensures
        lock_alpha_paint(p, mask, s, bands, opacity) == stored(
            pigment(bands, p, Single { bits: ONE }),
            p.a,
        ),
{
    lemma_shares(p.a);
    assert(stacked(p.a, p.a, 0) == p.a) by {
        assert(0 * p.a == 0) by (nonlinear_arith);
    }
    assert(32768 * p.a / 32768 == p.a);
}

/// A dab of pigment that shows fully leaves nothing of what was painted before:
/// whatever that was, the pixel comes out the same.
pub proof fn law_full_pigment_covers(
    p: Rgba,
    q: Rgba,
    mask: int,
    s: Source,
    bands: Seq<Single>,
    opacity: int,
)
    requires
        painted_pixel(p),
        painted_pixel(q),
        reflectances(bands),
        shown(mask, pigment_opacity(opacity)) == 32768,
    ensures
        normal_paint(p, mask, s, bands, opacity) == normal_paint(q, mask, s, bands, opacity),
        normal_paint(p, mask, s, bands, opacity).a == 32768,
        p.a == q.a ==> lock_alpha_paint(p, mask, s, bands, opacity) == lock_alpha_paint(
            q,
            mask,
            s,
            bands,
            opacity,
        ),
        lock_alpha_paint(p, mask, s, bands, opacity).a == p.a,
{
    lemma_full_normal(p, mask, s, bands, opacity);
    lemma_full_normal(q, mask, s, bands, opacity);
    lemma_full_locked(p, mask, s, bands, opacity);
    lemma_full_locked(q, mask, s, bands, opacity);
    law_whole_share_hides_the_other(bands, bands, p, q);
}

/// A dab of pigment that does not show leaves the pixel to itself: its alpha
/// stays, and its colour does not depend on the source.
pub proof fn law_unseen_pigment_has_no_part(
    p: Rgba,
    mask: int,
    s: Source,
    other: Source,
    bands: Seq<Single>,
    other_bands: Seq<Single>,
    opacity: int,
)
    requires
        painted_pixel(p),
        reflectances(bands),
        reflectances(other_bands),
        shown(mask, pigment_opacity(opacity)) == 0,
    ensures
        normal_paint(p, mask, s, bands, opacity) == normal_paint(
            p,
            mask,
            other,
            other_bands,
            opacity,
        ),
        normal_paint(p, mask, s, bands, opacity).a == p.a,
        lock_alpha_paint(p, mask, s, bands, opacity) == lock_alpha_paint(
            p,
            mask,
            other,
            other_bands,
            opacity,
        ),
        lock_alpha_paint(p, mask, s, bands, opacity).a == p.a,
{
    lemma_shares(p.a);
    assert(0 * p.a == 0);
    assert(32768 * p.a / 32768 == p.a);
    law_whole_share_hides_the_other(bands, other_bands, p, p);
}

/// A dab of pigment that shows fully leaves its own colour: that of its own
/// reflectances, band by band within a twelfth of an octave.
pub proof fn law_full_pigment_leaves_its_colour(p: Rgba, mask: int, s: Source, opacity: int)
    requires
        painted_pixel(p),
        s.wf(),
        shown(mask, pigment_opacity(opacity)) == 32768,
    ensures
        exists|x: Seq<Single>|
            {
                &&& nearly(x, source_spectrum(s))
                &&& normal_paint(p, mask, s, source_spectrum(s), opacity) == #[trigger] stored(
                    seen(x),
                    32768,
                )
                &&& lock_alpha_paint(p, mask, s, source_spectrum(s), opacity) == stored(
                    seen(x),
                    p.a,
                )
            },
{
    let one = Single { bits: ONE };
    let zero = Single { bits: 0 };
    let bands = source_spectrum(s);
    let x = blended(bands, pixel_spectrum(p), one, zero);
    lemma_shares(1);
    lemma_full_normal(p, mask, s, bands, opacity);
    lemma_full_locked(p, mask, s, bands, opacity);
    lemma_source_reflectances(s);
    lemma_pixel_reflectances(p);
    assert forall|i: int| 0 <= i < 10 implies size(
        (#[trigger] x[i]).bits - bands[i].bits,
    ) <= 722800 by {
        law_whole_weight_keeps_the_spectrum(bands, pixel_spectrum(p), i);
    }
    assert(pigment(bands, p, one) == seen(x));
    assert(nearly(x, bands));
    assert(stored(seen(x), 32768) == normal_paint(p, mask, s, bands, opacity));
}

/// A pixel that pigment covers but does not show on keeps its own colour, band
/// by band within a twelfth of an octave.
pub proof fn law_unseen_pigment_leaves_the_colour(
    p: Rgba,
    mask: int,
    s: Source,
    bands: Seq<Single>,
    opacity: int,
)
    requires
        painted_pixel(p),
        reflectances(bands),
        shown(mask, pigment_opacity(opacity)) == 0,
    ensures
        exists|x: Seq<Single>|
            {
                &&& nearly(x, pixel_spectrum(p))
                &&& normal_paint(p, mask, s, bands, opacity) == #[trigger] stored(seen(x), p.a)
            },
{
    let one = Single { bits: ONE };
    let zero = Single { bits: 0 };
    let own = pixel_spectrum(p);
    let x = blended(bands, own, zero, one);
    lemma_shares(p.a);
    lemma_pixel_reflectances(p);
    assert(stacked(0, p.a, 32768) == p.a) by {
        assert(32768 * p.a / 32768 == p.a);
    }
    assert forall|i: int| 0 <= i < 10 implies size((#[trigger] x[i]).bits - own[i].bits)
        <= 722800 by {
        law_whole_weight_keeps_the_spectrum(own, bands, i);
    }
    assert(pigment(bands, p, zero) == seen(x));
    assert(nearly(x, own));
    assert(stored(seen(x), p.a) == normal_paint(p, mask, s, bands, opacity));
}

/// Whether the reflectances of one spectrum are those of another, band by band
/// within a twelfth of an octave.
pub open spec fn nearly(x: Seq<Single>, y: Seq<Single>) -> bool {
    &&& x.len() == 10
    &&& y.len() == 10
    &&& forall|i: int| 0 <= i < 10 ==> size((#[trigger] x[i]).bits - y[i].bits) <= 722800
}

/// On a dense canvas a dab of opaque pigment that may erase, and shows fully,
/// leaves nothing of what was painted before.
pub proof fn law_full_erasing_pigment_covers(
    p: Rgba,
    q: Rgba,
    mask: int,
    s: Source,
    bands: Seq<Single>,
    opacity: int,
)
    requires
        painted_pixel(p),
        painted_pixel(q),
        p.a == 32768,
        q.a == 32768,
        reflectances(bands),
        shown(mask, opacity) == 32768,
    ensures
        normal_and_eraser_paint(p, mask, s, bands, 32768, opacity) == normal_and_eraser_paint(
            q,
            mask,
            s,
            bands,
            32768,
            opacity,
        ),
        normal_and_eraser_paint(p, mask, s, bands, 32768, opacity).a == 32768,
{
    lemma_full_erasing(p, mask, s, bands, opacity);
    lemma_full_erasing(q, mask, s, bands, opacity);
    law_whole_share_hides_the_other(bands, bands, p, q);
}

proof fn lemma_full_erasing(p: Rgba, mask: int, s: Source, bands: Seq<Single>, opacity: int)
    requires
        painted_pixel(p),
        p.a == 32768,
        shown(mask, opacity) == 32768,
    ensures
        ({
            let one = Single { bits: ONE };
            let c = pigment(bands, p, one);
            normal_and_eraser_paint(p, mask, s, bands, 32768, opacity) == (Rgba {
                r: faded(0, c.0, one, 32768),
                g: faded(0, c.1, one, 32768),
                b: faded(0, c.2, one, 32768),
                a: 32768,
            })
        }),
{
    let one = Single { bits: ONE };
    let zero = Single { bits: 0 };
    lemma_shares(32768);
    lemma_full_share(p);
    assert(one.minus_spec(one) == zero);
    assert(zero.same_spec(zero) && !one.same_spec(zero)) by {
        lemma_one();
    }
    assert(stacked(32768, p.a, 0) == 32768) by {
        assert(0 * p.a == 0) by (nonlinear_arith);
    }
    let full = Single { bits: SCALE };
    let part = source_share(32768, 32768).times_spec(Single::of(32768).over_spec(full));
    assert(part == one) by {
        lemma_scale_is_full();
        law_times_one(one);
    }
}

/// Blending is wholly spectral at a pixel of full alpha.
proof fn lemma_full_share(p: Rgba)
    requires
        p.a == 32768,
    ensures
        pigment_share(p) == (Single { bits: ONE }),
{
    lemma_one();
    lemma_shares(32768);
    lemma_scale_is_full();
    law_dense_canvas_is_spectral();
}

proof fn lemma_scale_is_full()
    ensures
        Single::of(32768) == (Single { bits: SCALE }),
{
    lemma_known(SCALE, 0x80_0000, 141);
    lemma_of_exact(32768);
    lemma_pow2_adds(8, 141);
    assert(pow2(8) == 256) by {
        lemma2_to64();
    }
    lemma_one();
    lemma_same_value(Single::of(32768), Single { bits: SCALE });
}

/// The reflectances of a source, in fix15, and what they are mixed with.
pub proof fn lemma_source_reflectances(s: Source)
    requires
        s.wf(),
    ensures
        reflectances(source_spectrum(s)),
        forall|i: int| 0 <= i < 10 ==> (#[trigger] source_spectrum(s)[i]).bits >= 0x3600_0000,
{
    lemma_scale_is_full();
    lemma_straight(s.r as int, 32768);
    lemma_straight(s.g as int, 32768);
    lemma_straight(s.b as int, 32768);
    let one = Single { bits: SCALE };
    assert forall|i: int| 0 <= i < 10 implies 0x3600_0000 <= (#[trigger] source_spectrum(s)[i]).bits
        <= 0x4900_0000 by {
        lemma_reflectance_at_least(
            Single::of(s.r as int).over_spec(one),
            Single::of(s.g as int).over_spec(one),
            Single::of(s.b as int).over_spec(one),
            i,
        );
    }
}

} // verus!
