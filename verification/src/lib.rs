//! A brush engine: from pointer events to painted pixels.
//!
//! A [`brush::Brush`] is a list of settings, each with a base value and curves
//! over inputs such as pressure or speed.  [`brush::Brush::stroke_to`] takes
//! pointer events, keeps its memory of the stroke in a
//! [`state::BrushState`], and draws dabs on a [`dab_surface::DabSurface`];
//! every [`surface::TiledSurface`] is one.  [`tile_mem::MemSurface`] holds its
//! tiles in memory.
//!
//! Numbers are [`single::Single`] and [`double::Double`], binary floating point
//! computed on integers, so that what an event does is stated and proved to
//! the last bit.  Exponentials, roots and the trigonometric functions come
//! from the caller, as [`elementary::Elementary`].
//!
//! - numbers: [`rounding`], [`single`], [`double`], [`range`], [`fix15`],
//!   [`elementary`], [`angles`]
//! - brushes: [`setting`], [`input`], [`mapping`], [`brush`], [`values`],
//!   [`evaluator`], [`myb`], [`text`]
//! - strokes: [`state`], [`rng`], [`dynamics`], [`offsets`], [`smudge`],
//!   [`dab`], [`stroke`], [`dab_count`], [`counting`], [`pace`]
//! - colours: [`color`], [`spectral`]
//! - pixels: [`tile`], [`surface`], [`tile_mem`], [`geometry`], [`mask`],
//!   [`blend`], [`luminance`], [`bounds`], [`brushmodes`], [`draw`], [`keeping`],
//!   [`dab_surface`]
//! - picking up colour: [`rand`], [`sampling`], [`pigment`], [`mixing`], [`pickup`]
//! - images: [`render`], [`pixmap`], [`canvas`], [`report`]
//!
//! What the arithmetic is for is stated as laws, to within the rounding of the
//! operations, over [`means`]:
//!
//! - along a stroke: [`taper`], [`clock`], [`memory`], [`course`], [`turning`]
//! - of curves and settings: [`knots`], [`making`]
//! - of dabs and pixels: [`placing`], [`edge`], [`footprint`], [`stamp`],
//!   [`shading`], [`portions`]
//! - of colours: [`hues`], [`lightness`], [`moving`], [`mixture`], [`powers`],
//!   [`covering`]
//! - of smudging and picking up: [`soaking`], [`smearing`], [`averages`],
//!   [`gather`]
pub mod angles;
pub mod averages;
pub mod blend;
pub mod bounds;
pub mod brush;
pub mod brushmodes;
pub mod canvas;
pub mod clock;
pub mod color;
pub mod counting;
pub mod course;
pub mod covering;
pub mod dab;
pub mod dab_count;
pub mod dab_surface;
pub mod double;
pub mod draw;
pub mod dynamics;
pub mod edge;
pub mod elementary;
pub mod evaluator;
pub mod fix15;
pub mod footprint;
pub mod gather;
pub mod geometry;
pub mod hues;
pub mod input;
pub mod keeping;
pub mod knots;
pub mod lightness;
pub mod luminance;
pub mod making;
pub mod mapping;
pub mod mask;
pub mod means;
pub mod memory;
pub mod mixing;
pub mod mixture;
pub mod moving;
pub mod myb;
pub mod offsets;
pub mod pace;
pub mod pickup;
pub mod pigment;
pub mod pixmap;
pub mod placing;
pub mod portions;
pub mod powers;
pub mod rand;
pub mod range;
pub mod render;
pub mod report;
pub mod rng;
pub mod rounding;
pub mod sampling;
pub mod setting;
pub mod shading;
pub mod single;
pub mod smearing;
pub mod smudge;
pub mod soaking;
pub mod spectral;
pub mod stamp;
pub mod state;
pub mod stroke;
pub mod surface;
pub mod taper;
pub mod text;
pub mod tile;
pub mod tile_mem;
pub mod turning;
pub mod values;

pub use brush::Brush;
pub use dab_surface::DabSurface;
pub use input::{BrushInput, NUM_INPUTS};
pub use mapping::{InputMapping, SettingValue};
pub use setting::{BrushSetting, NUM_SETTINGS};
pub use state::BrushState;
pub use surface::{Dab, TiledSurface};
pub use tile::{TilePixels, TILE_SIZE};
