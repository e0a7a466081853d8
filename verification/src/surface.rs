//! The surface that dabs are drawn on, and the dab.
use crate::color::RgbaF32;
use crate::single::Single;
use crate::tile::{is_empty_tile, TilePixels};
use vstd::prelude::*;

verus! {

/// A dab in world coordinates.
#[derive(Clone, Copy, Debug, PartialEq, Eq, Structural)]
pub struct Dab {
    pub x: Single,
    pub y: Single,
    pub radius: Single,
    /// Linear light, straight alpha.
    pub color: RgbaF32,
    pub opaque: Single,
    pub hardness: Single,
    pub alpha_eraser: Single,
    pub aspect_ratio: Single,
    /// In degrees.
    pub angle: Single,
    pub lock_alpha: Single,
    pub colorize: Single,
    pub posterize: Single,
    pub posterize_num: Single,
    pub paint: Single,
    /// The width in pixels of the feather outside the radius of a solid disk.
    pub anti_aliasing: Single,
}

/// A direction, by its cosine and sine.
#[derive(Clone, Copy, Debug, PartialEq, Eq, Structural)]
pub struct Turn {
    pub cs: Single,
    pub sn: Single,
}

/// 0.1, the least radius of a dab that is drawn.
pub const LEAST_RADIUS: u32 = 0x3dcc_cccd;

impl Dab {
    /// A dab that has nothing to draw.
    pub open spec fn degenerate_spec(&self) -> bool {
        ||| self.radius.lt_spec(Single { bits: LEAST_RADIUS })
        ||| self.hardness.le_spec(Single { bits: 0 })
        ||| self.opaque.le_spec(Single { bits: 0 })
    }

    #[verifier::when_used_as_spec(degenerate_spec)]
    pub fn degenerate(&self) -> (r: bool)
        ensures
            r == self.degenerate_spec(),
    {
        self.radius.lt(Single { bits: LEAST_RADIUS }) || self.hardness.le(Single { bits: 0 })
            || self.opaque.le(Single { bits: 0 })
    }
}

/// The tiles that can be looked at, of those there are: a surface that does not
/// show its tiles looks empty.
pub open spec fn visible<S: TiledSurface>(tiles: Map<(i32, i32), TilePixels>) -> Map<
    (i32, i32),
    TilePixels,
> {
    if S::shows() {
        tiles
    } else {
        Map::empty()
    }
}

/// A canvas cut into tiles, which come into being when they are first asked
/// for.
pub trait TiledSurface: Sized {
    /// The tiles there are.
    spec fn tiles(&self) -> Map<(i32, i32), TilePixels>;

    /// Whether the tiles can be looked at.
    spec fn shows() -> bool;

    /// Whether the surface can keep a record of the tiles that are lent.
    spec fn records() -> bool;

    /// The tiles that were lent since the last [`TiledSurface::begin_atomic`],
    /// while there is a record of them.
    spec fn lent(&self) -> Option<Set<(i32, i32)>>;

    /// What has to hold of the surface.
    spec fn wf(&self) -> bool;

    /// Lends a tile for changing, a transparent one where there was none.
    fn tile_request_start(&mut self, tx: i32, ty: i32) -> (t: &mut TilePixels)
        requires
            old(self).wf(),
        ensures
            old(self).tiles().contains_key((tx, ty)) ==> *t == old(self).tiles()[(tx, ty)],
            !old(self).tiles().contains_key((tx, ty)) ==> is_empty_tile(*t),
            final(self).tiles() == old(self).tiles().insert((tx, ty), *final(t)),
            final(self).lent() == (match old(self).lent() {
                Some(s) => Some(s.insert((tx, ty))),
                None => None,
            }),
            final(self).wf(),
    ;

    /// Takes a tile back.
    fn tile_request_end(&mut self, tx: i32, ty: i32)
        requires
            old(self).wf(),
        ensures
            final(self).tiles() == old(self).tiles(),
            final(self).lent() == old(self).lent(),
            final(self).wf(),
    ;

    /// Begins a record of the tiles that are lent, on a surface that keeps one.
    fn begin_atomic(&mut self)
        requires
            old(self).wf(),
        ensures
            final(self).tiles() == old(self).tiles(),
            final(self).lent() == (if Self::records() {
                Some(Set::<(i32, i32)>::empty())
            } else {
                old(self).lent()
            }),
            final(self).wf(),
    ;

    /// Ends the record, and lists each of its tiles once.
    fn end_atomic(&mut self) -> (r: Vec<(i32, i32)>)
        requires
            old(self).wf(),
        ensures
            final(self).tiles() == old(self).tiles(),
            final(self).lent() is None,
            r@.no_duplicates(),
            r@.to_set() == (match old(self).lent() {
                Some(s) => s,
                None => Set::<(i32, i32)>::empty(),
            }),
            final(self).wf(),
    ;

    /// A tile for reading, if there is one to look at.
    fn tile_lookup(&self, tx: i32, ty: i32) -> (t: Option<&TilePixels>)
        requires
            self.wf(),
        ensures
            t == (if Self::shows() && self.tiles().contains_key((tx, ty)) {
                Some(&self.tiles()[(tx, ty)])
            } else {
                None
            }),
    ;
}

} // verus!
