//! The canvas is cut into square tiles of premultiplied fix15 pixels.
use vstd::prelude::*;

verus! {

/// The edge of a tile, in pixels.
pub const TILE_SIZE: usize = 64;

/// `[y][x][rgba]` in fix15, premultiplied alpha, linear light.
pub type TilePixels = [[[u16; 4]; 64]; 64];

/// The pixel in row `y` and column `x` of a tile.
pub open spec fn pixel(t: TilePixels, x: int, y: int) -> [u16; 4] {
    t@[y]@[x]
}

/// A tile on which nothing is painted.
pub open spec fn is_empty_tile(t: TilePixels) -> bool {
    forall|x: int, y: int, c: int|
        0 <= x < 64 && 0 <= y < 64 && 0 <= c < 4 ==> #[trigger] pixel(t, x, y)@[c] == 0
}

/// A fully transparent tile.
pub fn empty_tile() -> (t: Box<TilePixels>)
    ensures
        is_empty_tile(*t),
{
    let clear: [u16; 4] = [0, 0, 0, 0];
    let mut t: Box<TilePixels> = Box::new([[[0; 4]; 64]; 64]);
    let mut y: usize = 0;
    while y < TILE_SIZE
        invariant
            y <= TILE_SIZE,
            clear@ == seq![0u16, 0u16, 0u16, 0u16],
            forall|a: int, b: int| 0 <= a < 64 && 0 <= b < y ==> #[trigger] pixel(*t, a, b) == clear,
        decreases TILE_SIZE - y,
    {
        let mut x: usize = 0;
        while x < TILE_SIZE
            invariant
                x <= TILE_SIZE,
                y < TILE_SIZE,
                forall|a: int, b: int|
                    0 <= a < 64 && 0 <= b < y || 0 <= a < x && b == y ==> #[trigger] pixel(
                        *t,
                        a,
                        b,
                    ) == clear,
            decreases TILE_SIZE - x,
        {
            let ghost before = *t;
            t[y][x] = clear;
            proof {
                assert forall|a: int, b: int|
                    0 <= a < 64 && 0 <= b < y || 0 <= a < x + 1 && b == y implies #[trigger] pixel(
                    *t,
                    a,
                    b,
                ) == clear by {
                    if a != x || b != y {
                        assert(pixel(*t, a, b) == pixel(before, a, b));
                    }
                }
            }
            x += 1;
        }
        y += 1;
    }
    t
}

/// The tile that a world coordinate lies in, along one axis.
pub open spec fn tile_of(x: int) -> int {
    x / 64
}

/// The place of a world coordinate inside its tile, along one axis.
pub open spec fn place_in_tile(x: int) -> int {
    x % 64
}

/// Converts a world pixel to `(tile_x, tile_y, in_tile_x, in_tile_y)`.
pub fn world_to_tile(x: i32, y: i32) -> (r: (i32, i32, usize, usize))
    ensures
        r.0 == tile_of(x as int),
        r.1 == tile_of(y as int),
        r.2 == place_in_tile(x as int),
        r.3 == place_in_tile(y as int),
{
    (tile_index(x), tile_index(y), tile_offset(x), tile_offset(y))
}

/// `x / 64`, rounded down.
pub fn tile_index(x: i32) -> (r: i32)
    ensures
        r == tile_of(x as int),
{
    if x >= 0 {
        x / 64
    } else {
        -1 - (-1 - x) / 64
    }
}

/// What is left of `x` after whole tiles.
pub fn tile_offset(x: i32) -> (r: usize)
    ensures
        r == place_in_tile(x as int),
        r < 64,
{
    (x - tile_index(x) * 64) as usize
}

/// A world coordinate is its tile and its place in the tile, put together,
/// and no other tile and place give it.
pub proof fn law_world_to_tile_splits(x: int, t: int, i: int)
    requires
        0 <= i < 64,
    ensures
        x == 64 * t + i <==> t == tile_of(x) && i == place_in_tile(x),
{
}

/// The row of pixels that a function gives.
pub open spec fn row_of(f: spec_fn(int) -> [u16; 4]) -> [[u16; 4]; 64] {
    [
        f(0), f(1), f(2), f(3), f(4), f(5), f(6), f(7), f(8), f(9), f(10), f(11), f(12), f(13),
        f(14), f(15), f(16), f(17), f(18), f(19), f(20), f(21), f(22), f(23), f(24), f(25), f(26),
        f(27), f(28), f(29), f(30), f(31), f(32), f(33), f(34), f(35), f(36), f(37), f(38), f(39),
        f(40), f(41), f(42), f(43), f(44), f(45), f(46), f(47), f(48), f(49), f(50), f(51), f(52),
        f(53), f(54), f(55), f(56), f(57), f(58), f(59), f(60), f(61), f(62), f(63),
    ]
}

/// The tile of pixels that a function gives, by column and row.
#[verifier::opaque]
pub open spec fn tile_with(f: spec_fn(int, int) -> [u16; 4]) -> TilePixels {
    let r = |y: int| row_of(|x: int| f(x, y));
    [
        r(0), r(1), r(2), r(3), r(4), r(5), r(6), r(7), r(8), r(9), r(10), r(11), r(12), r(13),
        r(14), r(15), r(16), r(17), r(18), r(19), r(20), r(21), r(22), r(23), r(24), r(25), r(26),
        r(27), r(28), r(29), r(30), r(31), r(32), r(33), r(34), r(35), r(36), r(37), r(38), r(39),
        r(40), r(41), r(42), r(43), r(44), r(45), r(46), r(47), r(48), r(49), r(50), r(51), r(52),
        r(53), r(54), r(55), r(56), r(57), r(58), r(59), r(60), r(61), r(62), r(63),
    ]
}

proof fn lemma_row_of(f: spec_fn(int) -> [u16; 4], x: int)
    requires
        0 <= x < 64,
    ensures
        row_of(f)@[x] == f(x),
{
}

/// A tile can have any pixels.
pub proof fn lemma_tile_with(f: spec_fn(int, int) -> [u16; 4], x: int, y: int)
    requires
        0 <= x < 64,
        0 <= y < 64,
    ensures
        pixel(tile_with(f), x, y) == f(x, y),
{
    let r = |y: int| row_of(|x: int| f(x, y));
    assert(tile_with(f)@[y] == r(y)) by {
        reveal(tile_with);
    }
    lemma_row_of(|x: int| f(x, y), x);
}

} // verus!
