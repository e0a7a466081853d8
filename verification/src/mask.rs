//! The pixels of a tile that a dab covers.
use crate::geometry::Shape;
use crate::single::Single;
use vstd::prelude::*;

verus! {

/// Column, row and coverage of a pixel.
pub type MaskEntry = (usize, usize, u32);

/// The pixels of a tile, from `(x0, y0)` to `(x1, y1)` inclusive.
#[derive(Clone, Copy, Debug, PartialEq, Eq, Structural)]
pub struct MaskBox {
    pub x0: i32,
    pub y0: i32,
    pub x1: i32,
    pub y1: i32,
}

impl MaskBox {
    pub open spec fn contains(self, x: int, y: int) -> bool {
        self.x0 <= x <= self.x1 && self.y0 <= y <= self.y1
    }
}

/// The first pixel of a row or column of a tile that a dab at `c` reaches.
pub open spec fn first_reached(c: Single, fringe: Single) -> i32 {
    let n = c.minus_spec(fringe).floor_i32_spec();
    if n > 0 {
        n
    } else {
        0
    }
}

/// The last pixel of a row or column of a tile that a dab at `c` reaches.
pub open spec fn last_reached(c: Single, fringe: Single) -> i32 {
    let n = c.plus_spec(fringe).floor_i32_spec();
    if n < 63 {
        n
    } else {
        63
    }
}

/// The pixels of a tile that a dab may cover.
pub open spec fn reach(shape: Shape, fringe: Single) -> MaskBox {
    MaskBox {
        x0: first_reached(shape.x, fringe),
        y0: first_reached(shape.y, fringe),
        x1: last_reached(shape.x, fringe),
        y1: last_reached(shape.y, fringe),
    }
}

/// The coverage of a pixel of the tile.
pub open spec fn mask_at(shape: Shape, fringe: Single, x: int, y: int) -> u32 {
    if reach(shape, fringe).contains(x, y) {
        shape.coverage_spec(x as i32, y as i32)
    } else {
        0
    }
}

/// The place of a pixel in row-major order.
pub open spec fn place(e: MaskEntry) -> int {
    64 * e.1 + e.0
}

/// Entries in row-major order, so no pixel occurs twice.
pub open spec fn ascending(entries: Seq<MaskEntry>) -> bool {
    forall|i: int, j: int|
        0 <= i < j < entries.len() ==> place(#[trigger] entries[i]) < place(#[trigger] entries[j])
}

/// Whether a pixel occurs with a coverage.
pub open spec fn lists(entries: Seq<MaskEntry>, x: int, y: int, m: u32) -> bool {
    exists|i: int|
        0 <= i < entries.len() && (#[trigger] entries[i]).0 == x && entries[i].1 == y && entries[i].2
            == m
}

/// The entries are exactly the pixels with a coverage, in row-major order.
pub open spec fn is_mask(entries: Seq<MaskEntry>, shape: Shape, fringe: Single) -> bool {
    &&& ascending(entries)
    &&& forall|i: int|
        0 <= i < entries.len() ==> {
            let e = #[trigger] entries[i];
            e.0 < 64 && e.1 < 64 && 0 < e.2 <= 32768 && e.2 == mask_at(
                shape,
                fringe,
                e.0 as int,
                e.1 as int,
            )
        }
    &&& forall|x: int, y: int|
        0 <= x < 64 && 0 <= y < 64 && #[trigger] mask_at(shape, fringe, x, y) != 0 ==> lists(
            entries,
            x,
            y,
            mask_at(shape, fringe, x, y),
        )
}

/// The pixels with a coverage among the first `n` of a tile, in row-major
/// order.
pub open spec fn listed(shape: Shape, fringe: Single, n: nat) -> Seq<MaskEntry>
    decreases n,
{
    if n == 0 {
        seq![]
    } else {
        let before = listed(shape, fringe, (n - 1) as nat);
        let x = (n - 1) % 64;
        let y = (n - 1) / 64;
        let m = mask_at(shape, fringe, x, y);
        if m != 0 {
            before.push((x as usize, y as usize, m))
        } else {
            before
        }
    }
}

/// The pixels of a tile that a dab covers.
pub open spec fn mask_list(shape: Shape, fringe: Single) -> Seq<MaskEntry> {
    listed(shape, fringe, 4096)
}

proof fn lemma_nothing_listed(shape: Shape, fringe: Single, n: nat, m: nat)
    requires
        n <= m <= 4096,
        forall|a: int, b: int|
            0 <= a < 64 && 0 <= b < 64 && n <= 64 * b + a < m ==> #[trigger] mask_at(
                shape,
                fringe,
                a,
                b,
            ) == 0,
    ensures
        listed(shape, fringe, n) == listed(shape, fringe, m),
    decreases m - n,
{
    if n < m {
        let x = (m - 1) % 64;
        let y = (m - 1) / 64;
        assert(mask_at(shape, fringe, x, y) == 0);
        lemma_nothing_listed(shape, fringe, n, (m - 1) as nat);
    }
}

/// The entries are exactly the pixels with a coverage among those before
/// `(x, y)`.
spec fn is_mask_before(
    entries: Seq<MaskEntry>,
    shape: Shape,
    fringe: Single,
    x: int,
    y: int,
) -> bool {
    &&& entries == listed(shape, fringe, (64 * y + x) as nat)
    &&& ascending(entries)
    &&& forall|i: int|
        0 <= i < entries.len() ==> {
            let e = #[trigger] entries[i];
            e.0 < 64 && e.1 < 64 && 0 < e.2 <= 32768 && place(e) < 64 * y + x && e.2 == mask_at(
                shape,
                fringe,
                e.0 as int,
                e.1 as int,
            )
        }
    &&& forall|a: int, b: int|
        0 <= a < 64 && 0 <= b < 64 && 64 * b + a < 64 * y + x && #[trigger] mask_at(
            shape,
            fringe,
            a,
            b,
        ) != 0 ==> lists(entries, a, b, mask_at(shape, fringe, a, b))
}

proof fn lemma_pushed(
    entries: Seq<MaskEntry>,
    shape: Shape,
    fringe: Single,
    x: int,
    y: int,
    m: u32,
    after: Seq<MaskEntry>,
)
    requires
        is_mask_before(entries, shape, fringe, x, y),
        0 <= x < 64,
        0 <= y < 64,
        m == mask_at(shape, fringe, x, y),
        m <= 32768,
        after == (if m != 0 {
            entries.push((x as usize, y as usize, m))
        } else {
            entries
        }),
    ensures
        is_mask_before(after, shape, fringe, x + 1, y),
{
    let n = (64 * y + x + 1) as nat;
    assert((n - 1) % 64 == x && (n - 1) / 64 == y);
    assert(after =~= listed(shape, fringe, n));
    assert forall|a: int, b: int|
        0 <= a < 64 && 0 <= b < 64 && 64 * b + a < 64 * y + x + 1 && #[trigger] mask_at(
            shape,
            fringe,
            a,
            b,
        ) != 0 implies lists(after, a, b, mask_at(shape, fringe, a, b)) by {
        let n = mask_at(shape, fringe, a, b);
        if 64 * b + a < 64 * y + x {
            assert(lists(entries, a, b, n));
            let i = choose|i: int|
                0 <= i < entries.len() && (#[trigger] entries[i]).0 == a && entries[i].1 == b
                    && entries[i].2 == n;
            assert(after[i] == entries[i]);
        } else {
            assert(a == x && b == y);
            assert(after[entries.len() as int].2 == m);
        }
    }
}

/// Skipping pixels without coverage.
proof fn lemma_skipped(
    entries: Seq<MaskEntry>,
    shape: Shape,
    fringe: Single,
    x: int,
    y: int,
    x2: int,
    y2: int,
)
    requires
        is_mask_before(entries, shape, fringe, x, y),
        0 <= 64 * y + x <= 64 * y2 + x2 <= 4096,
        forall|a: int, b: int|
            0 <= a < 64 && 0 <= b < 64 && 64 * y + x <= 64 * b + a < 64 * y2 + x2
                ==> #[trigger] mask_at(shape, fringe, a, b) == 0,
    ensures
        is_mask_before(entries, shape, fringe, x2, y2),
{
    lemma_nothing_listed(shape, fringe, (64 * y + x) as nat, (64 * y2 + x2) as nat);
}

/// Lists the pixels of a tile that a dab covers, with their coverage, row by
/// row.
pub fn collect_dab_mask(shape: Shape, fringe: Single) -> (entries: Vec<MaskEntry>)
    requires
        shape.wf(),
    ensures
        entries@ == mask_list(shape, fringe),
        is_mask(entries@, shape, fringe),
{
    let mut entries: Vec<MaskEntry> = Vec::new();
    let x0: i32 = first(shape.x, fringe);
    let y0: i32 = first(shape.y, fringe);
    let x1: i32 = last(shape.x, fringe);
    let y1: i32 = last(shape.y, fringe);
    assert(is_mask_before(entries@, shape, fringe, 0, 0));
    if x0 > x1 || y0 > y1 {
        proof {
            lemma_skipped(entries@, shape, fringe, 0, 0, 0, 64);
        }
        return entries;
    }
    let mut y: i32 = y0;
    proof {
        lemma_skipped(entries@, shape, fringe, 0, 0, 0, y0 as int);
    }
    assert(is_mask_before(entries@, shape, fringe, 0, y0 as int));
    while y <= y1
        invariant
            shape.wf(),
            reach(shape, fringe) == (MaskBox { x0, y0, x1, y1 }),
            0 <= x0 <= x1 < 64,
            0 <= y0 <= y <= y1 + 1 <= 64,
            is_mask_before(entries@, shape, fringe, 0, y as int),
        decreases y1 + 1 - y,
    {
        let mut x: i32 = x0;
        proof {
            lemma_skipped(entries@, shape, fringe, 0, y as int, x0 as int, y as int);
        }
        while x <= x1
            invariant
                shape.wf(),
                reach(shape, fringe) == (MaskBox { x0, y0, x1, y1 }),
                0 <= x0 <= x <= x1 + 1 <= 64,
                0 <= y0 <= y <= y1 < 64,
                is_mask_before(entries@, shape, fringe, x as int, y as int),
            decreases x1 + 1 - x,
        {
            let m: u32 = shape.coverage(x, y);
            let ghost before = entries@;
            if m != 0 {
                entries.push((x as usize, y as usize, m));
            }
            proof {
                lemma_pushed(before, shape, fringe, x as int, y as int, m, entries@);
            }
            x += 1;
        }
        proof {
            lemma_skipped(entries@, shape, fringe, x as int, y as int, 0, y as int + 1);
        }
        y += 1;
    }
    proof {
        lemma_skipped(entries@, shape, fringe, 0, y as int, 0, 64);
    }
    entries
}

fn first(c: Single, fringe: Single) -> (r: i32)
    ensures
        r == first_reached(c, fringe),
{
    let n: i32 = c.minus(fringe).floor_i32();
    if n > 0 {
        n
    } else {
        0
    }
}

fn last(c: Single, fringe: Single) -> (r: i32)
    ensures
        r == last_reached(c, fringe),
{
    let n: i32 = c.plus(fringe).floor_i32();
    if n < 63 {
        n
    } else {
        63
    }
}

} // verus!
