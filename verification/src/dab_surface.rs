//! What a brush paints on: a surface that dabs can be drawn on and colours
//! picked up from.
use crate::blend::{rgba, Rgba};
use crate::color::RgbaF32;
use crate::draw::{
    canvas_pixel, cover, dab_drawn, dab_recorded, differs, draw_dab_default, drawn, lemma_cover,
    lemma_drawn_storable, marks, touches,
};
use crate::pigment::{get_color_pigment_default, pigment_color, spot_scan};
use crate::rand::SampleRng;
use crate::sampling::{color_at, get_color_default};
use crate::single::Single;
use crate::surface::{visible, Dab, TiledSurface, Turn};
use crate::tile::{lemma_tile_with, pixel, tile_with, TilePixels};
use vstd::prelude::*;

verus! {

/// A surface that dabs can be drawn on.
pub trait DabSurface: Sized {
    /// What there is to see on the surface.
    type Shown;

    spec fn shown(&self) -> Self::Shown;

    /// What has to hold of the surface.
    spec fn ready(&self) -> bool;

    /// What there is to see after a dab.
    spec fn dabbed(shown: Self::Shown, dab: Dab, turn: Turn) -> Self::Shown;

    /// Whether a dab changes any pixel.
    spec fn marked(shown: Self::Shown, dab: Dab, turn: Turn) -> bool;

    /// The colour in a round spot.
    spec fn color_in(shown: Self::Shown, x: Single, y: Single, radius: Single) -> RgbaF32;

    /// The colour in a round spot, mixed like pigments, and the numbers that
    /// are left for the next one.
    spec fn pigment_in(
        shown: Self::Shown,
        x: Single,
        y: Single,
        radius: Single,
        paint: Single,
        rng: SampleRng,
    ) -> (RgbaF32, SampleRng);

    /// Draws a dab that points in the direction `turn`.  Returns whether any
    /// pixel was changed.
    fn draw_dab(&mut self, dab: &Dab, turn: Turn) -> (painted: bool)
        requires
            old(self).ready(),
        ensures
            final(self).ready(),
            final(self).shown() == Self::dabbed(old(self).shown(), *dab, turn),
            painted == Self::marked(old(self).shown(), *dab, turn),
    ;

    /// The average colour within `radius` of a point.
    fn get_color(&self, x: Single, y: Single, radius: Single) -> (c: RgbaF32)
        requires
            self.ready(),
        ensures
            c == Self::color_in(self.shown(), x, y, radius),
    ;

    /// The colour within `radius` of a point, mixed like pigments in the
    /// measure of `paint`.
    fn get_color_pigment(
        &self,
        x: Single,
        y: Single,
        radius: Single,
        paint: Single,
        rng: &mut SampleRng,
    ) -> (c: RgbaF32)
        requires
            self.ready(),
            old(rng).wf(),
        ensures
            final(rng).wf(),
            (c, *final(rng)) == Self::pigment_in(self.shown(), x, y, radius, paint, *old(rng)),
    ;
}

/// The tiles of a canvas, and the record of lent ones.
#[verifier::ext_equal]
pub struct Canvas {
    pub tiles: Map<(i32, i32), TilePixels>,
    pub lent: Option<Set<(i32, i32)>>,
}

/// Whether a dab covers any pixel of a canvas.
pub open spec fn covers(dab: Dab, turn: Turn) -> bool {
    !dab.degenerate_spec() && marks(dab, turn)
}

/// A canvas before and after a dab.
pub open spec fn painted(before: Canvas, after: Canvas, dab: Dab, turn: Turn) -> bool {
    &&& dab_drawn(before.tiles, after.tiles, dab, turn)
    &&& dab_recorded(before.lent, after.lent, dab, turn)
}

/// A pixel in memory.
pub open spec fn stored(p: Rgba) -> [u16; 4] {
    [p.r as u16, p.g as u16, p.b as u16, p.a as u16]
}

/// A tile after a dab that touches it.
pub open spec fn tile_after(
    tiles: Map<(i32, i32), TilePixels>,
    dab: Dab,
    turn: Turn,
    tx: i32,
    ty: i32,
) -> TilePixels {
    tile_with(
        |x: int, y: int|
            stored(
                drawn(
                    dab,
                    canvas_pixel(tiles, tx, ty, x, y),
                    cover(dab, turn, tx as int, ty as int, x, y),
                ),
            ),
    )
}

/// The canvas that a dab leads to.
pub open spec fn after_dab(before: Canvas, dab: Dab, turn: Turn) -> Canvas {
    let touched = |k: (i32, i32)| touches(dab, turn, k.0 as int, k.1 as int);
    if dab.degenerate_spec() {
        before
    } else {
        Canvas {
            tiles: Map::new(
                |k: (i32, i32)| before.tiles.contains_key(k) || touched(k),
                |k: (i32, i32)|
                    if touched(k) {
                        tile_after(before.tiles, dab, turn, k.0, k.1)
                    } else {
                        before.tiles[k]
                    },
            ),
            lent: match before.lent {
                Some(s) => Some(s.union(Set::new(touched))),
                None => None,
            },
        }
    }
}

/// Every dab leads to a canvas.
pub proof fn law_dab_leads_to_canvas(before: Canvas, dab: Dab, turn: Turn)
    ensures
        painted(before, after_dab(before, dab, turn), dab, turn),
{
    if !dab.degenerate_spec() {
        let a = before.tiles;
        let b = after_dab(before, dab, turn).tiles;
        assert forall|tx: i32, ty: i32, x: int, y: int|
            0 <= x < 64 && 0 <= y < 64 implies #[trigger] canvas_pixel(b, tx, ty, x, y) == (
        if touches(dab, turn, tx as int, ty as int) {
            drawn(
                dab,
                canvas_pixel(a, tx, ty, x, y),
                cover(dab, turn, tx as int, ty as int, x, y),
            )
        } else {
            canvas_pixel(a, tx, ty, x, y)
        }) by {
            if touches(dab, turn, tx as int, ty as int) {
                let f = |x: int, y: int|
                    stored(
                        drawn(
                            dab,
                            canvas_pixel(a, tx, ty, x, y),
                            cover(dab, turn, tx as int, ty as int, x, y),
                        ),
                    );
                let p = canvas_pixel(a, tx, ty, x, y);
                let m = cover(dab, turn, tx as int, ty as int, x, y);
                lemma_cover(dab, turn, tx as int, ty as int, x, y);
                lemma_drawn_storable(dab, p, m);
                lemma_tile_with(f, x, y);
                assert(b[(tx, ty)] == tile_with(f));
                assert(pixel(b[(tx, ty)], x, y) == stored(drawn(dab, p, m)));
            }
        }
    }
}

/// There is one canvas that a dab leads to.
pub proof fn law_dab_determines_canvas(
    before: Canvas,
    one: Canvas,
    other: Canvas,
    dab: Dab,
    turn: Turn,
)
    requires
        painted(before, one, dab, turn),
        painted(before, other, dab, turn),
    ensures
        one == other,
{
    if !dab.degenerate_spec() {
        let a = one.tiles;
        let b = other.tiles;
        assert forall|k: (i32, i32)| #[trigger] a.contains_key(k) <==> b.contains_key(k) by {
            assert(a.contains_key((k.0, k.1)) <==> b.contains_key((k.0, k.1)));
        }
        assert forall|k: (i32, i32)| #[trigger] a.contains_key(k) implies a[k] == b[k] by {
            assert forall|y: int| 0 <= y < 64 implies a[k][y] == b[k][y] by {
                assert forall|x: int| 0 <= x < 64 implies a[k][y][x] == b[k][y][x] by {
                    let p = pixel(a[k], x, y);
                    let q = pixel(b[k], x, y);
                    assert(canvas_pixel(a, k.0, k.1, x, y) == canvas_pixel(b, k.0, k.1, x, y));
                    assert(b.contains_key((k.0, k.1)));
                    assert(rgba(p) == rgba(q));
                    assert(p =~= q);
                }
                assert(a[k][y] =~= b[k][y]);
            }
            assert(a[k] =~= b[k]);
        }
        assert(a =~= b);
        if let Some(s) = one.lent {
            let t = other.lent->0;
            assert forall|k: (i32, i32)| #[trigger] s.contains(k) == t.contains(k) by {
                assert(s.contains((k.0, k.1)) == t.contains((k.0, k.1)));
            }
            assert(s =~= t);
        }
    }
}

/// A dab that covers no pixel changes nothing, neither tiles nor the record.
pub proof fn law_uncovered_canvas_stays(shown: Canvas, dab: Dab, turn: Turn)
    requires
        !covers(dab, turn),
    ensures
        after_dab(shown, dab, turn) == shown,
{
    if !dab.degenerate_spec() {
        let next = after_dab(shown, dab, turn);
        assert forall|k: (i32, i32)| !touches(dab, turn, k.0 as int, k.1 as int) by {
        }
        assert(next.tiles =~= shown.tiles);
        if let Some(s) = shown.lent {
            assert(next.lent->0 =~= s);
        }
    }
}

/// Dabs are drawn on a canvas of tiles tile by tile, and colours picked up from
/// those of its tiles that can be looked at.
impl<T: TiledSurface> DabSurface for T {
    type Shown = Canvas;

    open spec fn shown(&self) -> Canvas {
        Canvas { tiles: self.tiles(), lent: self.lent() }
    }

    open spec fn ready(&self) -> bool {
        self.wf()
    }

    open spec fn dabbed(shown: Canvas, dab: Dab, turn: Turn) -> Canvas {
        after_dab(shown, dab, turn)
    }

    open spec fn marked(shown: Canvas, dab: Dab, turn: Turn) -> bool {
        differs(shown.tiles, after_dab(shown, dab, turn).tiles)
    }

    open spec fn color_in(shown: Canvas, x: Single, y: Single, radius: Single) -> RgbaF32 {
        color_at(visible::<T>(shown.tiles), x, y, radius)
    }

    open spec fn pigment_in(
        shown: Canvas,
        x: Single,
        y: Single,
        radius: Single,
        paint: Single,
        rng: SampleRng,
    ) -> (RgbaF32, SampleRng) {
        let end = spot_scan(visible::<T>(shown.tiles), x, y, radius, paint, rng);
        (pigment_color(end.pickup, paint), SampleRng { state: end.rng as u64 })
    }

    fn draw_dab(&mut self, dab: &Dab, turn: Turn) -> (painted: bool)
        ensures
            self::painted(old(self).shown(), final(self).shown(), *dab, turn),
    {
        let ghost before = self.shown();
        let r: bool = draw_dab_default(self, dab, turn);
        proof {
            law_dab_leads_to_canvas(before, *dab, turn);
            law_dab_determines_canvas(
                before,
                self.shown(),
                after_dab(before, *dab, turn),
                *dab,
                turn,
            );
        }
        r
    }

    fn get_color(&self, x: Single, y: Single, radius: Single) -> (c: RgbaF32) {
        get_color_default(self, x, y, radius)
    }

    fn get_color_pigment(
        &self,
        x: Single,
        y: Single,
        radius: Single,
        paint: Single,
        rng: &mut SampleRng,
    ) -> (c: RgbaF32) {
        get_color_pigment_default(self, x, y, radius, paint, rng)
    }
}

} // verus!
