//! A brush and a canvas for a user interface.
use crate::brush::{Brush, BrushView};
use crate::color::{hsv_to_rgb_spec, Hsv};
use crate::dab::base_color;
use crate::dab_surface::{Canvas, DabSurface};
use crate::double::Double;
use crate::dynamics::THOUSANDTH;
use crate::elementary::{Answers, Elementary, Narrow, Wide};
use crate::mapping::SettingView;
use crate::myb::{brush_from_raw, read, RawBrush};
use crate::rand::SampleRng;
use crate::render::{bare_canvas, flatten, image, law_bare_canvas_is_white};
use crate::rng::BrushRng;
use crate::rounding::lemma_magnitude_increases;
use crate::setting::{BrushSetting, NUM_SETTINGS};
use crate::single::{lemma_magnitude_zero, Single};
use crate::state::{fresh, new_memory, no_settings, BrushState};
use crate::stroke::{after_event, after_finish, law_first_event_only_seeds, Event, Outcome};
use crate::surface::TiledSurface;
use crate::tile_mem::MemSurface;
use vstd::prelude::*;

verus! {

/// A brush with another base value for one setting.
pub open spec fn with_base(b: BrushView, s: BrushSetting, v: Single) -> BrushView {
    let i = s.index_spec() as int;
    BrushView {
        settings: b.settings.update(i, SettingView { base: v, ..b.settings[i] }),
        ..b
    }
}

/// Another base value changes that of its own setting and no other, and no
/// curve.
pub proof fn law_other_settings_stay(b: BrushView, s: BrushSetting, v: Single, t: BrushSetting)
    requires
        b.settings.len() == NUM_SETTINGS,
    ensures
        with_base(b, s, v).settings.len() == NUM_SETTINGS,
        with_base(b, s, v).base(s) == v,
        t != s ==> with_base(b, s, v).base(t) == b.base(t),
        with_base(b, s, v).mapped(t) == b.mapped(t),
        with_base(b, s, v).unknown == b.unknown,
{
    crate::setting::law_all_is_complete(s);
    crate::setting::law_all_is_complete(t);
    if s.index_spec() == t.index_spec() {
        assert(BrushSetting::ALL@[s.index_spec() as int] == s);
        assert(BrushSetting::ALL@[t.index_spec() as int] == t);
    }
}

/// A brush.
#[derive(Clone, Debug)]
pub struct HokusaiBrush {
    pub inner: Brush,
}

impl HokusaiBrush {
    /// A brush from the contents of a file.
    pub fn from_raw(raw: &RawBrush) -> (r: HokusaiBrush)
        requires
            raw.wf(),
        ensures
            r.inner.wf(),
            r.inner@ == read(raw@),
    {
        HokusaiBrush { inner: brush_from_raw(raw) }
    }

    fn set_base(&mut self, s: BrushSetting, v: Single)
        requires
            old(self).inner.wf(),
        ensures
            final(self).inner.wf(),
            final(self).inner@ == with_base(old(self).inner@, s, v),
    {
        let ghost before = self.inner@;
        proof {
            crate::setting::law_all_is_complete(s);
        }
        let setting = self.inner.get_mut(s);
        setting.base_value = v;
        assert(self.inner@ =~= with_base(before, s, v));
    }

    /// Sets the base colour, each channel in `[0, 1]`.
    pub fn set_color_hsv(&mut self, h: Single, s: Single, v: Single)
        requires
            old(self).inner.wf(),
        ensures
            final(self).inner.wf(),
            final(self).inner@ == with_base(
                with_base(
                    with_base(old(self).inner@, BrushSetting::ColorH, h),
                    BrushSetting::ColorS,
                    s,
                ),
                BrushSetting::ColorV,
                v,
            ),
            base_color(final(self).inner@) == hsv_to_rgb_spec(Hsv { h, s, v }),
            forall|t: BrushSetting|
                t != BrushSetting::ColorH && t != BrushSetting::ColorS && t != BrushSetting::ColorV
                    ==> #[trigger] final(self).inner@.base(t) == old(self).inner@.base(t),
    {
        let ghost before = self.inner@;
        self.set_base(BrushSetting::ColorH, h);
        self.set_base(BrushSetting::ColorS, s);
        self.set_base(BrushSetting::ColorV, v);
        proof {
            let b1 = with_base(before, BrushSetting::ColorH, h);
            let b2 = with_base(b1, BrushSetting::ColorS, s);
            assert forall|t: BrushSetting|
                t != BrushSetting::ColorH && t != BrushSetting::ColorS && t
                    != BrushSetting::ColorV implies #[trigger] self.inner@.base(t) == before.base(
                t,
            ) by {
                law_other_settings_stay(before, BrushSetting::ColorH, h, t);
                law_other_settings_stay(b1, BrushSetting::ColorS, s, t);
                law_other_settings_stay(b2, BrushSetting::ColorV, v, t);
            }
            law_other_settings_stay(b1, BrushSetting::ColorS, s, BrushSetting::ColorH);
            law_other_settings_stay(b2, BrushSetting::ColorV, v, BrushSetting::ColorH);
            law_other_settings_stay(b2, BrushSetting::ColorV, v, BrushSetting::ColorS);
            law_other_settings_stay(before, BrushSetting::ColorH, h, BrushSetting::ColorH);
        }
    }

    /// Sets the logarithm of the base radius.
    pub fn set_radius_log(&mut self, log_radius: Single)
        requires
            old(self).inner.wf(),
        ensures
            final(self).inner.wf(),
            final(self).inner@ == with_base(old(self).inner@, BrushSetting::Radius, log_radius),
            final(self).inner@.base(BrushSetting::Radius) == log_radius,
    {
        let ghost before = self.inner@;
        self.set_base(BrushSetting::Radius, log_radius);
        proof {
            law_other_settings_stay(
                before,
                BrushSetting::Radius,
                log_radius,
                BrushSetting::Radius,
            );
        }
    }

    /// The logarithm of the base radius.
    pub fn radius_log(&self) -> (r: Single)
        requires
            self.inner.wf(),
        ensures
            r == self.inner@.base(BrushSetting::Radius),
    {
        self.inner.base(BrushSetting::Radius)
    }
}

/// A canvas with the memory of the brush that paints on it.
pub struct HokusaiCanvas {
    pub surface: MemSurface,
    pub state: BrushState,
    pub rng: SampleRng,
    pub width: u32,
    pub height: u32,
    /// The canvas in bytes, when it was last flushed.
    pub pixels: Vec<u8>,
}

impl HokusaiCanvas {
    pub open spec fn wf(&self) -> bool {
        &&& self.surface.wf()
        &&& self.state.wf()
        &&& self.rng.wf()
        &&& 4 * (self.width * self.height) <= u32::MAX
        &&& self.pixels@.len() == 4 * (self.width * self.height)
    }

    /// The canvas and the memory, as an event finds them.
    pub open spec fn scene(&self) -> Outcome<Canvas> {
        Outcome {
            state: self.state,
            shown: self.surface.shown(),
            rng: self.rng,
            painted: false,
        }
    }

    /// A white canvas.
    pub fn new(width: u32, height: u32) -> (c: HokusaiCanvas)
        requires
            4 * (width * height) <= u32::MAX,
        ensures
            c.wf(),
            c.width == width,
            c.height == height,
            c.surface.shown() == bare_canvas(),
            c.state == new_memory(1000),
            c.rng.state == 1,
            c.pixels@ == Seq::new((4 * (width * height)) as nat, |k: int| 255u8),
    {
        let surface = MemSurface::new();
        assert(surface.shown() =~= bare_canvas());
        let mut pixels: Vec<u8> = Vec::new();
        let total: u64 = 4 * (width as u64 * height as u64);
        let mut i: u64 = 0;
        while i < total
            invariant
                i <= total,
                pixels@ == Seq::new(i as nat, |k: int| 255u8),
            decreases total - i,
        {
            pixels.push(255);
            i += 1;
            assert(pixels@ =~= Seq::new(i as nat, |k: int| 255u8));
        }
        HokusaiCanvas {
            surface,
            state: BrushState::default(),
            rng: SampleRng::new(),
            width,
            height,
            pixels,
        }
    }

    /// Feeds one pointer event to a brush.
    pub fn stroke_to<N: Fn(Narrow) -> Single, W: Fn(Wide) -> Double>(
        &mut self,
        brush: &HokusaiBrush,
        x: Single,
        y: Single,
        pressure: Single,
        xtilt: Single,
        ytilt: Single,
        dtime: Double,
        math: &Elementary<N, W>,
    )
        requires
            old(self).wf(),
            brush.inner.wf(),
            math.wf(),
        ensures
            final(self).wf(),
            ({
                let s = old(self).scene();
                let o = after_event::<MemSurface>(
                    brush.inner@,
                    s.state,
                    s.shown,
                    s.rng,
                    (Event { x, y, pressure, xtilt, ytilt, dtime }),
                    math.answers(),
                );
                &&& final(self).state == o.state
                &&& final(self).surface.shown() == o.shown
                &&& final(self).rng == o.rng
            }),
            final(self).width == old(self).width,
            final(self).height == old(self).height,
            final(self).pixels == old(self).pixels,
    {
        brush.inner.stroke_to(
            &mut self.state,
            &mut self.surface,
            x,
            y,
            pressure,
            xtilt,
            ytilt,
            dtime,
            &mut self.rng,
            math,
        );
    }

    /// Paints what is left of a stroke.
    pub fn finish_stroke<N: Fn(Narrow) -> Single, W: Fn(Wide) -> Double>(
        &mut self,
        brush: &HokusaiBrush,
        math: &Elementary<N, W>,
    )
        requires
            old(self).wf(),
            brush.inner.wf(),
            math.wf(),
        ensures
            final(self).wf(),
            ({
                let s = old(self).scene();
                let o = after_finish::<MemSurface>(
                    brush.inner@,
                    s.state,
                    s.shown,
                    s.rng,
                    math.answers(),
                );
                &&& final(self).state == o.state
                &&& final(self).surface.shown() == o.shown
                &&& final(self).rng == o.rng
            }),
            final(self).width == old(self).width,
            final(self).height == old(self).height,
            final(self).pixels == old(self).pixels,
    {
        brush.inner.finish_stroke(&mut self.state, &mut self.surface, &mut self.rng, math);
    }

    /// Ends a stroke, so that the next event begins another.
    pub fn reset_stroke(&mut self)
        requires
            old(self).wf(),
        ensures
            final(self).wf(),
            final(self).state == fresh(old(self).state.rng, no_settings()),
            final(self).surface == old(self).surface,
            final(self).rng == old(self).rng,
            final(self).width == old(self).width,
            final(self).height == old(self).height,
            final(self).pixels == old(self).pixels,
    {
        self.state.reset();
    }

    /// Removes everything painted, and ends the stroke.
    pub fn clear(&mut self)
        requires
            old(self).wf(),
        ensures
            final(self).wf(),
            final(self).state == fresh(old(self).state.rng, no_settings()),
            final(self).surface.shown() == bare_canvas(),
            final(self).rng == old(self).rng,
            final(self).width == old(self).width,
            final(self).height == old(self).height,
            final(self).pixels == old(self).pixels,
    {
        self.surface = MemSurface::new();
        assert(self.surface.shown() =~= bare_canvas());
        self.state.reset();
    }

    /// Brings the bytes up to date.
    pub fn flush_pixels<N: Fn(Narrow) -> Single, W: Fn(Wide) -> Double>(
        &mut self,
        math: &Elementary<N, W>,
    )
        requires
            old(self).wf(),
            math.wf(),
        ensures
            final(self).wf(),
            final(self).pixels@ == image(
                old(self).surface.tiles(),
                old(self).width as int,
                old(self).height as int,
                math.answers(),
            ),
            final(self).state == old(self).state,
            final(self).surface == old(self).surface,
            final(self).rng == old(self).rng,
            final(self).width == old(self).width,
            final(self).height == old(self).height,
    {
        self.pixels = flatten(&self.surface, self.width, self.height, math);
    }

    /// The canvas over white, in sRGB bytes.
    pub fn pixels<N: Fn(Narrow) -> Single, W: Fn(Wide) -> Double>(
        &mut self,
        math: &Elementary<N, W>,
    ) -> (r: Vec<u8>)
        requires
            old(self).wf(),
            math.wf(),
        ensures
            final(self).wf(),
            final(self).pixels@ == image(
                old(self).surface.tiles(),
                old(self).width as int,
                old(self).height as int,
                math.answers(),
            ),
            r@ == final(self).pixels@,
            final(self).state == old(self).state,
            final(self).surface == old(self).surface,
            final(self).rng == old(self).rng,
            final(self).width == old(self).width,
            final(self).height == old(self).height,
    {
        self.flush_pixels(math);
        let r: Vec<u8> = self.pixels.clone();
        assert(r@ =~= self.pixels@);
        r
    }

    /// How many bytes there are.
    pub fn pixels_len(&self) -> (n: usize)
        ensures
            n == self.pixels@.len(),
    {
        self.pixels.len()
    }

    pub fn width(&self) -> (w: u32)
        ensures
            w == self.width,
    {
        self.width
    }

    pub fn height(&self) -> (h: u32)
        ensures
            h == self.height,
    {
        self.height
    }
}

/// The bytes of a new canvas are those of its surface: it is white.
pub proof fn law_new_canvas_is_white(w: int, h: int, m: Answers)
    requires
        w >= 0,
        h >= 0,
    ensures
        image(bare_canvas().tiles, w, h, m) == Seq::new((4 * (w * h)) as nat, |k: int| 255u8),
{
    law_bare_canvas_is_white(w, h, m);
}

/// After a reset the next event only begins a stroke: no line leads to it
/// from where the last one ended.
pub proof fn law_reset_breaks_the_stroke(
    b: BrushView,
    rng: BrushRng,
    shown: Canvas,
    sampling: SampleRng,
    e: Event,
    m: Answers,
)
    ensures
        ({
            let o = after_event::<MemSurface>(
                b,
                fresh(rng, no_settings()),
                shown,
                sampling,
                e,
                m,
            );
            &&& !o.painted
            &&& o.shown == shown
            &&& o.rng == sampling
            &&& o.state.started
            &&& o.state.actual_x == o.state.last_event_x
            &&& o.state.actual_y == o.state.last_event_y
        }),
{
    let s = fresh(rng, no_settings());
    assert(!(Single { bits: THOUSANDTH }).lt(s.skip_distance)) by {
        lemma_magnitude_zero();
        lemma_magnitude_increases(0, THOUSANDTH as nat, 24);
    }
    law_first_event_only_seeds::<MemSurface>(b, s, shown, sampling, e, m);
}

} // verus!
