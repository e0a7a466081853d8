//! What a dab keeps of a canvas, wherever it falls and whatever its shape.
use crate::blend::{law_eraser_removes, premultiplied, source_spectrum, Rgba, Source};
use crate::bounds::{law_modes_keep_channels_in_range, law_modes_keep_pixels_premultiplied, ranged};
use crate::brush::BrushView;
use crate::color::unit;
use crate::dab::{dab_at, follows, lemma_dab_follows};
use crate::dab_surface::{after_dab, law_dab_leads_to_canvas, painted, Canvas, DabSurface};
use crate::draw::{
    canvas_pixel, cover, drawn, fixed, fringe, lemma_cover, lemma_painting, lemma_passes,
    lemma_source, normal_share, painting, passed, passes, rest, shape, source, tiles_around,
    touches, Pass,
};
use crate::elementary::Answers;
use crate::evaluator::{evaluated, law_unmapped_setting_is_its_base};
use crate::mask::{mask_at, reach};
use crate::rand::SampleRng;
use crate::range::{lemma_no_units, lemma_one, lemma_rest_in_unit, lemma_unit_in_unit, FULL};
use crate::setting::BrushSetting;
use crate::single::{
    law_minus_itself, law_times_commutes, law_times_nothing, lemma_infinity_units,
    lemma_magnitude_zero, Single, ONE,
};
use crate::state::BrushState;
use crate::stroke::{
    after_event, after_finish, law_events_keep_what_dabs_keep, law_finishing_keeps_what_dabs_keep,
    makes, settings_at, Event,
};
use crate::surface::{Dab, TiledSurface, Turn};
use crate::values::lemma_settings_with;
use vstd::arithmetic::div_mod::*;
use vstd::arithmetic::power2::*;
use vstd::prelude::*;

verus! {

/// A dab that paints, erases or paints with locked alpha, and does nothing
/// else: no pigment, no colouring, no posterizing.
pub open spec fn plain(dab: Dab) -> bool {
    let zero = Single { bits: 0 };
    &&& unit(dab.paint).same_spec(zero)
    &&& unit(dab.colorize).same_spec(zero)
    &&& unit(dab.posterize).same_spec(zero)
}

/// A pass of a plain dab.
pub open spec fn plain_pass(pass: Pass) -> bool {
    &&& pass.wf()
    &&& pass is Normal || pass is NormalAndEraser || pass is LockAlpha
}

/// A canvas on which every pixel is premultiplied.
pub open spec fn premultiplied_canvas(c: Canvas) -> bool {
    forall|tx: i32, ty: i32, x: int, y: int|
        0 <= x < 64 && 0 <= y < 64 ==> premultiplied(#[trigger] canvas_pixel(c.tiles, tx, ty, x, y))
}

/// A plain dab has plain passes.
proof fn lemma_plain_passes(dab: Dab)
    requires
        plain(dab),
    ensures
        passes(dab) == painting(dab, rest(unit(dab.paint)), false),
        forall|i: int| 0 <= i < passes(dab).len() ==> plain_pass(#[trigger] passes(dab)[i]),
{
    let share = rest(unit(dab.paint));
    lemma_one();
    assert(unit(dab.paint).lt_spec(Single { bits: ONE }) && !(Single { bits: 0 }).lt_spec(
        unit(dab.paint),
    ));
    assert(passes(dab) =~= painting(dab, share, false));
    lemma_unit_in_unit(dab.paint);
    lemma_rest_in_unit(unit(dab.paint));
    lemma_painting(dab, share, false);
}

/// A dab that does not posterize.
pub open spec fn unposterized(dab: Dab) -> bool {
    unit(dab.posterize).same_spec(Single { bits: 0 })
}

/// A dab that does not posterize has no pass that does.
proof fn lemma_unposterized_passes(dab: Dab)
    requires
        unposterized(dab),
    ensures
        forall|i: int| 0 <= i < passes(dab).len() ==> !(#[trigger] passes(dab)[i] is Posterize),
{
    let paint = unit(dab.paint);
    let a = painting(dab, rest(paint), false);
    let b = painting(dab, paint, true);
    assert forall|i: int| 0 <= i < a.len() implies !(#[trigger] a[i] is Posterize) by {
    }
    assert forall|i: int| 0 <= i < b.len() implies !(#[trigger] b[i] is Posterize) by {
    }
}

proof fn lemma_passed_premultiplied(ps: Seq<Pass>, n: nat, p: Rgba, m: int, s: Source)
    requires
        n <= ps.len(),
        forall|i: int|
            0 <= i < ps.len() ==> (#[trigger] ps[i]).wf() && !(ps[i] is Posterize),
        premultiplied(p),
        0 <= m <= 32768,
        s.wf(),
    ensures
        premultiplied(passed(ps, n, p, m, s)),
    decreases n,
{
    if n > 0 {
        lemma_passed_premultiplied(ps, (n - 1) as nat, p, m, s);
        let q = passed(ps, (n - 1) as nat, p, m, s);
        let bands = source_spectrum(s);
        assert(ps[n - 1].wf() && !(ps[n - 1] is Posterize));
        match ps[n - 1] {
            Pass::Normal { opacity } | Pass::LockAlpha { opacity } | Pass::NormalPaint {
                opacity,
            } | Pass::LockAlphaPaint { opacity } | Pass::Colorize { opacity } => {
                law_modes_keep_pixels_premultiplied(q, m, s, bands, 0, opacity as int);
            },
            Pass::NormalAndEraser { color_a, opacity } | Pass::NormalAndEraserPaint {
                color_a,
                opacity,
            } => {
                law_modes_keep_pixels_premultiplied(
                    q,
                    m,
                    s,
                    bands,
                    color_a as int,
                    opacity as int,
                );
            },
            Pass::Posterize { opacity, num } => {},
        }
    }
}

/// A dab that does not posterize keeps a canvas premultiplied.
pub proof fn law_dab_keeps_canvas_premultiplied(
    before: Canvas,
    after: Canvas,
    dab: Dab,
    turn: Turn,
)
    requires
        painted(before, after, dab, turn),
        unposterized(dab),
        premultiplied_canvas(before),
    ensures
        premultiplied_canvas(after),
{
    lemma_passes(dab);
    lemma_unposterized_passes(dab);
    lemma_source(dab);
    assert forall|tx: i32, ty: i32, x: int, y: int|
        0 <= x < 64 && 0 <= y < 64 implies premultiplied(
        #[trigger] canvas_pixel(after.tiles, tx, ty, x, y),
    ) by {
        let p = canvas_pixel(before.tiles, tx, ty, x, y);
        assert(premultiplied(p));
        let m = cover(dab, turn, tx as int, ty as int, x, y);
        lemma_cover(dab, turn, tx as int, ty as int, x, y);
        lemma_passed_premultiplied(passes(dab), passes(dab).len(), p, m as int, source(dab));
    }
}

/// A canvas on which every channel is in the range of fix15.
pub open spec fn ranged_canvas(c: Canvas) -> bool {
    forall|tx: i32, ty: i32, x: int, y: int|
        0 <= x < 64 && 0 <= y < 64 ==> ranged(#[trigger] canvas_pixel(c.tiles, tx, ty, x, y))
}

proof fn lemma_passed_ranged(ps: Seq<Pass>, n: nat, p: Rgba, m: int, s: Source)
    requires
        n <= ps.len(),
        forall|i: int| 0 <= i < ps.len() ==> (#[trigger] ps[i]).wf(),
        ranged(p),
        0 <= m <= 32768,
        s.wf(),
    ensures
        ranged(passed(ps, n, p, m, s)),
    decreases n,
{
    if n > 0 {
        lemma_passed_ranged(ps, (n - 1) as nat, p, m, s);
        let q = passed(ps, (n - 1) as nat, p, m, s);
        let bands = source_spectrum(s);
        assert(ps[n - 1].wf());
        match ps[n - 1] {
            Pass::Normal { opacity } | Pass::LockAlpha { opacity } | Pass::NormalPaint {
                opacity,
            } | Pass::LockAlphaPaint { opacity } | Pass::Colorize { opacity } => {
                law_modes_keep_channels_in_range(q, m, s, bands, 0, opacity as int, 1);
            },
            Pass::NormalAndEraser { color_a, opacity } | Pass::NormalAndEraserPaint {
                color_a,
                opacity,
            } => {
                law_modes_keep_channels_in_range(
                    q,
                    m,
                    s,
                    bands,
                    color_a as int,
                    opacity as int,
                    1,
                );
            },
            Pass::Posterize { opacity, num } => {
                law_modes_keep_channels_in_range(q, m, s, bands, 0, opacity as int, num as int);
            },
        }
    }
}

/// Every dab, in every mode, keeps every channel of a canvas in range.
pub proof fn law_dab_keeps_channels_in_range(
    before: Canvas,
    after: Canvas,
    dab: Dab,
    turn: Turn,
)
    requires
        painted(before, after, dab, turn),
        ranged_canvas(before),
    ensures
        ranged_canvas(after),
{
    lemma_passes(dab);
    lemma_source(dab);
    assert forall|tx: i32, ty: i32, x: int, y: int| 0 <= x < 64 && 0 <= y < 64 implies ranged(
        #[trigger] canvas_pixel(after.tiles, tx, ty, x, y),
    ) by {
        let p = canvas_pixel(before.tiles, tx, ty, x, y);
        assert(ranged(p));
        let m = cover(dab, turn, tx as int, ty as int, x, y);
        lemma_cover(dab, turn, tx as int, ty as int, x, y);
        lemma_passed_ranged(passes(dab), passes(dab).len(), p, m as int, source(dab));
    }
}

/// A dab changes no pixel that its square does not reach: neither in a tile
/// outside the range, nor in a tile outside the rows and columns that lie
/// within a pixel of its radius.
pub proof fn law_dab_stays_in_reach(
    before: Canvas,
    after: Canvas,
    dab: Dab,
    turn: Turn,
    tx: i32,
    ty: i32,
    x: int,
    y: int,
)
    requires
        painted(before, after, dab, turn),
        0 <= x < 64,
        0 <= y < 64,
        !tiles_around(dab.x, dab.y, fringe(dab)).contains(tx as int, ty as int) || !reach(
            shape(dab, turn, tx as int, ty as int),
            fringe(dab),
        ).contains(x, y),
    ensures
        canvas_pixel(after.tiles, tx, ty, x, y) == canvas_pixel(before.tiles, tx, ty, x, y),
{
    assert(mask_at(shape(dab, turn, tx as int, ty as int), fringe(dab), x, y) == 0
        || !touches(dab, turn, tx as int, ty as int));
}

/// A dab with fully locked alpha paints through its locked pass alone.
proof fn lemma_full_lock_paints_nothing(dab: Dab)
    requires
        plain(dab),
        unit(dab.lock_alpha) == (Single { bits: ONE }),
    ensures
        normal_share(dab).same_spec(Single { bits: 0 }),
{
    lemma_one();
    lemma_magnitude_zero();
    lemma_infinity_units();
    law_minus_itself(Single { bits: ONE });
    lemma_unit_in_unit(dab.colorize);
    lemma_unit_in_unit(dab.posterize);
    let colorize = rest(unit(dab.colorize));
    let posterize = rest(unit(dab.posterize));
    lemma_rest_in_unit(unit(dab.colorize));
    lemma_rest_in_unit(unit(dab.posterize));
    let zero = rest(unit(dab.lock_alpha));
    law_times_nothing(zero, colorize);
    law_times_nothing(zero.times_spec(colorize), posterize);
}

/// A plain dab with fully locked alpha keeps the alpha of every pixel.
pub proof fn law_locked_dab_keeps_alpha(
    before: Canvas,
    after: Canvas,
    dab: Dab,
    turn: Turn,
    tx: i32,
    ty: i32,
    x: int,
    y: int,
)
    requires
        painted(before, after, dab, turn),
        plain(dab),
        unit(dab.lock_alpha) == (Single { bits: ONE }),
        0 <= x < 64,
        0 <= y < 64,
    ensures
        canvas_pixel(after.tiles, tx, ty, x, y).a == canvas_pixel(before.tiles, tx, ty, x, y).a,
{
    lemma_plain_passes(dab);
    lemma_full_lock_paints_nothing(dab);
    let ps = passes(dab);
    let p = canvas_pixel(before.tiles, tx, ty, x, y);
    let m = cover(dab, turn, tx as int, ty as int, x, y);
    assert(ps.len() <= 1);
    if ps.len() == 1 {
        assert(ps[0] is LockAlpha);
        assert(passed(ps, 0, p, m as int, source(dab)) == p);
    }
    assert(drawn(dab, p, m).a == p.a);
}

/// No channel of a pixel is more than that of another.
pub open spec fn at_most(p: Rgba, q: Rgba) -> bool {
    p.r <= q.r && p.g <= q.g && p.b <= q.b && p.a <= q.a
}

/// A dab of a transparent colour, which takes away what is there.
pub open spec fn erasing(dab: Dab) -> bool {
    let zero = Single { bits: 0 };
    let a = unit(dab.alpha_eraser);
    a.same_spec(zero) || a.nan() && unit(dab.lock_alpha).same_spec(zero)
}

/// A plain dab of a transparent colour only takes away.
pub proof fn law_erasing_dab_only_takes_away(
    before: Canvas,
    after: Canvas,
    dab: Dab,
    turn: Turn,
    tx: i32,
    ty: i32,
    x: int,
    y: int,
)
    requires
        painted(before, after, dab, turn),
        plain(dab),
        premultiplied_canvas(before),
        erasing(dab),
        0 <= x < 64,
        0 <= y < 64,
    ensures
        at_most(
            canvas_pixel(after.tiles, tx, ty, x, y),
            canvas_pixel(before.tiles, tx, ty, x, y),
        ),
{
    lemma_plain_passes(dab);
    lemma_one();
    let ps = passes(dab);
    let p = canvas_pixel(before.tiles, tx, ty, x, y);
    let s = source(dab);
    let m = cover(dab, turn, tx as int, ty as int, x, y);
    lemma_cover(dab, turn, tx as int, ty as int, x, y);
    assert(premultiplied(p));
    assert(ps.len() <= 1);
    if ps.len() == 1 {
        assert(plain_pass(ps[0]));
        assert(passed(ps, 0, p, m as int, s) == p);
        lemma_fixed_zero(unit(dab.alpha_eraser));
        if let Pass::NormalAndEraser { color_a, opacity } = ps[0] {
            law_eraser_removes(p, m as int, s, opacity as int);
        }
    }
}

/// Zero in fix15 is zero, and so is no number at all.
proof fn lemma_fixed_zero(v: Single)
    requires
        v.same_spec(Single { bits: 0 }) || v.nan(),
    ensures
        fixed(v) == 0,
{
    reveal(Single::times_spec);
    lemma_magnitude_zero();
    if !v.nan() {
        lemma_no_units(v);
        law_times_nothing(v, Single { bits: FULL });
    }
    lemma_pow2_pos(149);
    assert(0int / (pow2(149) as int) == 0) by {
        lemma_div_by_multiple(0, pow2(149) as int);
    }
}

/// While a record is kept, every tile on which a dab changes anything is in it,
/// and nothing leaves it.
pub proof fn law_changed_tiles_are_recorded(
    before: Canvas,
    after: Canvas,
    dab: Dab,
    turn: Turn,
    tx: i32,
    ty: i32,
    x: int,
    y: int,
)
    requires
        painted(before, after, dab, turn),
        before.lent is Some,
        0 <= x < 64,
        0 <= y < 64,
    ensures
        after.lent is Some,
        before.lent->0.contains((tx, ty)) ==> after.lent->0.contains((tx, ty)),
        canvas_pixel(after.tiles, tx, ty, x, y) != canvas_pixel(before.tiles, tx, ty, x, y)
            ==> after.lent->0.contains((tx, ty)),
{
}

/// A brush whose setting has one value whatever the inputs are.
pub open spec fn fixed_at(b: BrushView, s: BrushSetting, v: Single) -> bool {
    !b.mapped(s) && b.base(s) == v
}

/// A brush that makes plain dabs.
pub open spec fn plain_brush(b: BrushView) -> bool {
    let zero = Single { bits: 0 };
    &&& fixed_at(b, BrushSetting::Paint, zero)
    &&& fixed_at(b, BrushSetting::Colorize, zero)
    &&& fixed_at(b, BrushSetting::Posterize, zero)
}

/// A setting that has one value has it at all inputs.
proof fn lemma_fixed_at(b: BrushView, s: BrushSetting, v: Single, inputs: Seq<Single>)
    requires
        fixed_at(b, s, v),
    ensures
        settings_at(b, inputs).get(s) == v,
{
    let i = s.index_spec() as int;
    law_unmapped_setting_is_its_base(b.settings[i], inputs);
    lemma_settings_with(|i: int| evaluated(b.settings[i], inputs), i);
}

/// A brush with locked alpha.
pub open spec fn locked_brush(b: BrushView) -> bool {
    fixed_at(b, BrushSetting::LockAlpha, Single { bits: ONE })
}

/// A brush that erases, and does not paint with locked alpha.
pub open spec fn erasing_brush(b: BrushView) -> bool {
    &&& fixed_at(b, BrushSetting::Eraser, Single { bits: ONE })
    &&& fixed_at(b, BrushSetting::LockAlpha, Single { bits: 0 })
}

/// What is left of an alpha of which nothing is kept.
proof fn lemma_nothing_kept(a: Single)
    ensures
        ({
            let r = unit(unit(unit(a).times_spec(Single { bits: 0 })));
            r.same_spec(Single { bits: 0 }) || r.nan()
        }),
{
    let zero = Single { bits: 0 };
    lemma_one();
    lemma_magnitude_zero();
    lemma_infinity_units();
    lemma_unit_in_unit(a);
    if unit(a).nan() {
        assert(unit(a).times_spec(zero).nan()) by {
            reveal(Single::times_spec);
        }
    } else {
        law_times_commutes(unit(a), zero);
        law_times_nothing(zero, unit(a));
        lemma_no_units(unit(a).times_spec(zero));
    }
}

/// A dab as a plain brush makes it.
pub open spec fn plain_by(b: BrushView, d: Dab) -> bool {
    &&& plain(d)
    &&& locked_brush(b) ==> unit(d.lock_alpha) == (Single { bits: ONE })
    &&& erasing_brush(b) ==> erasing(d)
}

/// The dabs that are made of the settings of a plain brush.
proof fn lemma_brush_dab(
    b: BrushView,
    inputs: Seq<Single>,
    state: BrushState,
    smudge: Single,
    d: Dab,
)
    requires
        plain_brush(b),
        follows(d, settings_at(b, inputs), state, smudge),
    ensures
        plain_by(b, d),
{
    let zero = Single { bits: 0 };
    let one = Single { bits: ONE };
    assert(unit(zero) == zero && unit(one) == one) by {
        lemma_one();
    }
    assert(plain(d)) by {
        lemma_fixed_at(b, BrushSetting::Paint, zero, inputs);
        lemma_fixed_at(b, BrushSetting::Colorize, zero, inputs);
        lemma_fixed_at(b, BrushSetting::Posterize, zero, inputs);
    }
    if locked_brush(b) {
        lemma_fixed_at(b, BrushSetting::LockAlpha, one, inputs);
    }
    if erasing_brush(b) {
        lemma_fixed_at(b, BrushSetting::LockAlpha, zero, inputs);
        lemma_fixed_at(b, BrushSetting::Eraser, one, inputs);
        assert(one.minus_spec(one) == zero) by {
            lemma_one();
            law_minus_itself(one);
        }
        let s = unit(smudge);
        lemma_nothing_kept(one.minus_spec(s).plus_spec(s.times_spec(state.smudge_a)));
    }
}

/// A plain brush makes plain dabs only; they erase if it erases, and have
/// locked alpha if it has.
proof fn lemma_brush_makes(b: BrushView)
    requires
        plain_brush(b),
    ensures
        makes(b, |d: Dab| plain_by(b, d)),
{
    let kind = |d: Dab| plain_by(b, d);
    assert forall|
        inputs: Seq<Single>,
        state: BrushState,
        x: Single,
        y: Single,
        radius: Single,
        smudge: Single,
        scale: Single,
        m: Answers,
    |
        kind(
            #[trigger] dab_at(b, settings_at(b, inputs), state, x, y, radius, smudge, scale, m),
        ) by {
        let sv = settings_at(b, inputs);
        lemma_dab_follows(b, sv, state, x, y, radius, smudge, scale, m);
        let d = dab_at(b, sv, state, x, y, radius, smudge, scale, m);
        lemma_brush_dab(b, inputs, state, smudge, d);
    }
}

/// A brush that does not posterize makes dabs that do not.
proof fn lemma_brush_makes_unposterized(b: BrushView)
    requires
        fixed_at(b, BrushSetting::Posterize, Single { bits: 0 }),
    ensures
        makes(b, |d: Dab| unposterized(d)),
{
    let kind = |d: Dab| unposterized(d);
    assert forall|
        inputs: Seq<Single>,
        state: BrushState,
        x: Single,
        y: Single,
        radius: Single,
        smudge: Single,
        scale: Single,
        m: Answers,
    |
        kind(
            #[trigger] dab_at(b, settings_at(b, inputs), state, x, y, radius, smudge, scale, m),
        ) by {
        let sv = settings_at(b, inputs);
        lemma_dab_follows(b, sv, state, x, y, radius, smudge, scale, m);
        let d = dab_at(b, sv, state, x, y, radius, smudge, scale, m);
        lemma_unposterized_dab(b, inputs, state, smudge, d);
    }
}

/// A dab of a brush that does not posterize.
proof fn lemma_unposterized_dab(
    b: BrushView,
    inputs: Seq<Single>,
    state: BrushState,
    smudge: Single,
    d: Dab,
)
    requires
        fixed_at(b, BrushSetting::Posterize, Single { bits: 0 }),
        follows(d, settings_at(b, inputs), state, smudge),
    ensures
        unposterized(d),
{
    let zero = Single { bits: 0 };
    assert(unit(zero) == zero) by {
        lemma_one();
    }
    lemma_fixed_at(b, BrushSetting::Posterize, zero, inputs);
}

/// An event of a brush that does not posterize keeps a canvas premultiplied,
/// and so does the end of its stroke.
pub proof fn law_strokes_keep_canvas_premultiplied<T: TiledSurface>(
    b: BrushView,
    state: BrushState,
    shown: Canvas,
    rng: SampleRng,
    e: Event,
    m: Answers,
)
    requires
        fixed_at(b, BrushSetting::Posterize, Single { bits: 0 }),
        premultiplied_canvas(shown),
    ensures
        premultiplied_canvas(after_event::<T>(b, state, shown, rng, e, m).shown),
        premultiplied_canvas(after_finish::<T>(b, state, shown, rng, m).shown),
{
    let kind = |d: Dab| unposterized(d);
    let kept = |c: Canvas| premultiplied_canvas(c);
    lemma_brush_makes_unposterized(b);
    assert forall|c: Canvas, dab: Dab, turn: Turn| kept(c) && kind(dab) implies kept(
        #[trigger] T::dabbed(c, dab, turn),
    ) by {
        law_dab_leads_to_canvas(c, dab, turn);
        law_dab_keeps_canvas_premultiplied(c, after_dab(c, dab, turn), dab, turn);
    }
    law_events_keep_what_dabs_keep::<T>(b, state, shown, rng, e, m, kind, kept);
    law_finishing_keeps_what_dabs_keep::<T>(b, state, shown, rng, m, kind, kept);
}

/// An event of any brush keeps every channel of a canvas in range, and so does
/// the end of its stroke.
pub proof fn law_strokes_keep_channels_in_range<T: TiledSurface>(
    b: BrushView,
    state: BrushState,
    shown: Canvas,
    rng: SampleRng,
    e: Event,
    m: Answers,
)
    requires
        ranged_canvas(shown),
    ensures
        ranged_canvas(after_event::<T>(b, state, shown, rng, e, m).shown),
        ranged_canvas(after_finish::<T>(b, state, shown, rng, m).shown),
{
    let kind = |d: Dab| true;
    let kept = |c: Canvas| ranged_canvas(c);
    assert forall|c: Canvas, dab: Dab, turn: Turn| kept(c) && kind(dab) implies kept(
        #[trigger] T::dabbed(c, dab, turn),
    ) by {
        law_dab_leads_to_canvas(c, dab, turn);
        law_dab_keeps_channels_in_range(c, after_dab(c, dab, turn), dab, turn);
    }
    law_events_keep_what_dabs_keep::<T>(b, state, shown, rng, e, m, kind, kept);
    law_finishing_keeps_what_dabs_keep::<T>(b, state, shown, rng, m, kind, kept);
}

/// Every pixel of a canvas has the alpha that it has on another.
pub open spec fn same_alpha(c: Canvas, d: Canvas) -> bool {
    forall|tx: i32, ty: i32, x: int, y: int|
        0 <= x < 64 && 0 <= y < 64 ==> (#[trigger] canvas_pixel(c.tiles, tx, ty, x, y)).a
            == canvas_pixel(d.tiles, tx, ty, x, y).a
}

/// An event of a plain brush with locked alpha keeps the alpha of every pixel,
/// and so does the end of its stroke.
pub proof fn law_locked_strokes_keep_alpha<T: TiledSurface>(
    b: BrushView,
    state: BrushState,
    shown: Canvas,
    rng: SampleRng,
    e: Event,
    m: Answers,
)
    requires
        plain_brush(b),
        locked_brush(b),
    ensures
        same_alpha(after_event::<T>(b, state, shown, rng, e, m).shown, shown),
        same_alpha(after_finish::<T>(b, state, shown, rng, m).shown, shown),
{
    let kind = |d: Dab| plain_by(b, d);
    let kept = |c: Canvas| same_alpha(c, shown);
    lemma_brush_makes(b);
    assert forall|c: Canvas, dab: Dab, turn: Turn|
        kept(c) && kind(dab) implies kept(#[trigger] T::dabbed(c, dab, turn)) by {
        let after = after_dab(c, dab, turn);
        law_dab_leads_to_canvas(c, dab, turn);
        assert forall|tx: i32, ty: i32, x: int, y: int| 0 <= x < 64 && 0 <= y < 64 implies (
        #[trigger] canvas_pixel(after.tiles, tx, ty, x, y)).a == canvas_pixel(
            shown.tiles,
            tx,
            ty,
            x,
            y,
        ).a by {
            law_locked_dab_keeps_alpha(c, after, dab, turn, tx, ty, x, y);
            assert(canvas_pixel(c.tiles, tx, ty, x, y).a == canvas_pixel(
                shown.tiles,
                tx,
                ty,
                x,
                y,
            ).a);
        }
    }
    law_events_keep_what_dabs_keep::<T>(b, state, shown, rng, e, m, kind, kept);
    law_finishing_keeps_what_dabs_keep::<T>(b, state, shown, rng, m, kind, kept);
}

/// No pixel of a canvas has more in any channel than it has on another.
pub open spec fn covered_by(c: Canvas, d: Canvas) -> bool {
    forall|tx: i32, ty: i32, x: int, y: int|
        0 <= x < 64 && 0 <= y < 64 ==> at_most(
            #[trigger] canvas_pixel(c.tiles, tx, ty, x, y),
            canvas_pixel(d.tiles, tx, ty, x, y),
        )
}

/// An event of a plain brush that erases only takes away, and so does the end
/// of its stroke.
pub proof fn law_erasing_strokes_only_take_away<T: TiledSurface>(
    b: BrushView,
    state: BrushState,
    shown: Canvas,
    rng: SampleRng,
    e: Event,
    m: Answers,
)
    requires
        plain_brush(b),
        erasing_brush(b),
        premultiplied_canvas(shown),
    ensures
        covered_by(after_event::<T>(b, state, shown, rng, e, m).shown, shown),
        covered_by(after_finish::<T>(b, state, shown, rng, m).shown, shown),
{
    let kind = |d: Dab| plain_by(b, d);
    let kept = |c: Canvas| premultiplied_canvas(c) && covered_by(c, shown);
    lemma_brush_makes(b);
    assert forall|c: Canvas, dab: Dab, turn: Turn|
        kept(c) && kind(dab) implies kept(#[trigger] T::dabbed(c, dab, turn)) by {
        let after = after_dab(c, dab, turn);
        law_dab_leads_to_canvas(c, dab, turn);
        law_dab_keeps_canvas_premultiplied(c, after, dab, turn);
        assert forall|tx: i32, ty: i32, x: int, y: int| 0 <= x < 64 && 0 <= y < 64 implies at_most(
            #[trigger] canvas_pixel(after.tiles, tx, ty, x, y),
            canvas_pixel(shown.tiles, tx, ty, x, y),
        ) by {
            law_erasing_dab_only_takes_away(c, after, dab, turn, tx, ty, x, y);
            assert(at_most(
                canvas_pixel(c.tiles, tx, ty, x, y),
                canvas_pixel(shown.tiles, tx, ty, x, y),
            ));
        }
    }
    law_events_keep_what_dabs_keep::<T>(b, state, shown, rng, e, m, kind, kept);
    law_finishing_keeps_what_dabs_keep::<T>(b, state, shown, rng, m, kind, kept);
}

} // verus!
