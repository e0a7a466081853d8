//! A surface held in memory.
use crate::surface::TiledSurface;
use crate::tile::{empty_tile, TilePixels};
use std::collections::HashMap;
use std::collections::HashSet;
use vstd::prelude::*;

verus! {

broadcast use vstd::std_specs::hash::group_hash_axioms;

/// A tile's coordinates in one number.
pub open spec fn packed(tx: i32, ty: i32) -> u64 {
    ((tx + 0x8000_0000) * 0x1_0000_0000 + (ty + 0x8000_0000)) as u64
}

/// The column of a packed tile.
pub open spec fn column(k: u64) -> i32 {
    (k / 0x1_0000_0000 - 0x8000_0000) as i32
}

/// The row of a packed tile.
pub open spec fn row(k: u64) -> i32 {
    (k % 0x1_0000_0000 - 0x8000_0000) as i32
}

proof fn lemma_packed(tx: i32, ty: i32)
    ensures
        column(packed(tx, ty)) == tx,
        row(packed(tx, ty)) == ty,
{
}

proof fn lemma_unpacked(k: u64)
    ensures
        packed(column(k), row(k)) == k,
{
}

fn pack(tx: i32, ty: i32) -> (k: u64)
    ensures
        k == packed(tx, ty),
{
    (tx as i64 + 0x8000_0000) as u64 * 0x1_0000_0000 + (ty as i64 + 0x8000_0000) as u64
}

fn unpack(k: u64) -> (r: (i32, i32))
    ensures
        r == (column(k), row(k)),
{
    (
        ((k / 0x1_0000_0000) as i64 - 0x8000_0000) as i32,
        ((k % 0x1_0000_0000) as i64 - 0x8000_0000) as i32,
    )
}

/// Tiles by their packed coordinates.
pub struct MemSurface {
    tiles: HashMap<u64, Box<TilePixels>>,
    dirty: HashSet<u64>,
    in_atomic: bool,
}

/// The tiles of a map by packed coordinates.
pub closed spec fn unpacked_tiles(m: Map<u64, Box<TilePixels>>) -> Map<(i32, i32), TilePixels> {
    Map::new(|k: (i32, i32)| m.contains_key(packed(k.0, k.1)), |k: (i32, i32)| *m[packed(k.0, k.1)])
}

/// The coordinates in a set of packed ones.
pub closed spec fn unpacked_set(s: Set<u64>) -> Set<(i32, i32)> {
    Set::new(|k: (i32, i32)| s.contains(packed(k.0, k.1)))
}

impl MemSurface {
    /// The tiles there are.
    pub closed spec fn painted_tiles(&self) -> Map<(i32, i32), TilePixels> {
        unpacked_tiles(self.tiles@)
    }

    /// The record of lent tiles, while there is one.
    pub closed spec fn record(&self) -> Option<Set<(i32, i32)>> {
        if self.in_atomic {
            Some(unpacked_set(self.dirty@))
        } else {
            None
        }
    }

    /// What has to hold of the surface.
    pub closed spec fn is_wf(&self) -> bool {
        !self.in_atomic ==> self.dirty@ == Set::<u64>::empty()
    }

    /// An empty surface.
    pub fn new() -> (r: MemSurface)
        ensures
            r.wf(),
            r.tiles() == Map::<(i32, i32), TilePixels>::empty(),
            r.lent() is None,
    {
        let r = MemSurface { tiles: HashMap::new(), dirty: HashSet::new(), in_atomic: false };
        assert(r.tiles() =~= Map::<(i32, i32), TilePixels>::empty());
        r
    }

    /// A tile for reading, if there is one.
    pub fn tile(&self, tx: i32, ty: i32) -> (t: Option<&TilePixels>)
        ensures
            t == (if self.tiles().contains_key((tx, ty)) {
                Some(&self.tiles()[(tx, ty)])
            } else {
                None
            }),
    {
        match self.tiles.get(&pack(tx, ty)) {
            Some(b) => Some(&**b),
            None => None,
        }
    }

    /// How many tiles there are.
    pub fn tile_count(&self) -> (n: usize)
        ensures
            n == self.tiles().dom().len(),
    {
        proof {
            let packed_keys = self.tiles@.dom();
            let keys = self.tiles().dom();
            let f = |k: u64| (column(k), row(k));
            assert forall|k: u64| packed_keys.contains(k) implies #[trigger] keys.contains(f(k)) by {
                lemma_unpacked(k);
            }
            assert forall|k: (i32, i32)| keys.contains(k) implies exists|a: u64|
                packed_keys.contains(a) && #[trigger] f(a) == k by {
                lemma_packed(k.0, k.1);
                assert(f(packed(k.0, k.1)) == k);
            }
            assert forall|a: u64, b: u64| #[trigger] f(a) == #[trigger] f(b) implies a == b by {
                lemma_unpacked(a);
                lemma_unpacked(b);
            }
            assert(packed_keys.map(f) =~= keys);
            vstd::set_lib::lemma_map_size(packed_keys, keys, f);
        }
        self.tiles.len()
    }
}

impl Default for MemSurface {
    fn default() -> (r: MemSurface)
        ensures
            r.wf(),
            r.tiles() == Map::<(i32, i32), TilePixels>::empty(),
            r.lent() is None,
    {
        MemSurface::new()
    }
}

/// The coordinates in a set of packed ones, each once.
fn listed(set: &HashSet<u64>) -> (r: Vec<(i32, i32)>)
    ensures
        r@.no_duplicates(),
        r@.to_set() == unpacked_set(set@),
{
    let mut out: Vec<(i32, i32)> = Vec::new();
    let ghost mut keys: Seq<u64> = Seq::empty();
    for k in it: set.iter()
        invariant
            keys == it.seq().unref().take(it.index()),
            it.seq().unref().to_set() == set@,
            it.seq().no_duplicates(),
            out@.len() == keys.len(),
            forall|i: int|
                0 <= i < out@.len() ==> #[trigger] out@[i] == (column(keys[i]), row(keys[i])),
            it.index() == it.seq().len() ==> keys == it.seq().unref(),
    {
        proof {
            keys = keys.push(*k);
        }
        out.push(unpack(*k));
        assert(keys =~= it.seq().unref().take(it.index() + 1));
    }
    proof {
        assert(keys.to_set() == set@);
        assert forall|k: (i32, i32)| #[trigger]
            out@.to_set().contains(k) == unpacked_set(set@).contains(k) by {
            if unpacked_set(set@).contains(k) {
                lemma_packed(k.0, k.1);
                assert(keys.to_set().contains(packed(k.0, k.1)));
                let i = choose|i: int| 0 <= i < keys.len() && keys[i] == packed(k.0, k.1);
                assert(out@[i] == k);
            }
            if out@.contains(k) {
                let i = choose|i: int| 0 <= i < out@.len() && out@[i] == k;
                lemma_unpacked(keys[i]);
                assert(keys.to_set().contains(keys[i]));
            }
        }
        assert(out@.to_set() =~= unpacked_set(set@));
        assert forall|i: int, j: int| 0 <= i < j < out@.len() implies out@[i] != out@[j] by {
            lemma_unpacked(keys[i]);
            lemma_unpacked(keys[j]);
        }
    }
    out
}

impl TiledSurface for MemSurface {
    open spec fn tiles(&self) -> Map<(i32, i32), TilePixels> {
        self.painted_tiles()
    }

    open spec fn shows() -> bool {
        true
    }

    open spec fn records() -> bool {
        true
    }

    open spec fn lent(&self) -> Option<Set<(i32, i32)>> {
        self.record()
    }

    open spec fn wf(&self) -> bool {
        self.is_wf()
    }

    fn tile_request_start(&mut self, tx: i32, ty: i32) -> (t: &mut TilePixels) {
        let k: u64 = pack(tx, ty);
        let ghost before = *self;
        proof {
            lemma_packed(tx, ty);
            assert forall|a: i32, b: i32| #[trigger] packed(a, b) == k implies a == tx && b
                == ty by {
                lemma_packed(a, b);
            }
            assert forall|v: Box<TilePixels>|
                unpacked_tiles(#[trigger] before.tiles@.insert(k, v)) == unpacked_tiles(
                    before.tiles@,
                ).insert((tx, ty), *v) by {
                assert(unpacked_tiles(before.tiles@.insert(k, v)) =~= unpacked_tiles(
                    before.tiles@,
                ).insert((tx, ty), *v));
            }
            assert(unpacked_set(before.dirty@.insert(k)) =~= unpacked_set(before.dirty@).insert(
                (tx, ty),
            ));
        }
        if self.in_atomic {
            self.dirty.insert(k);
        }
        &mut **self.tiles.entry(k).or_insert(empty_tile())
    }

    fn tile_request_end(&mut self, tx: i32, ty: i32) {
    }

    fn begin_atomic(&mut self) {
        self.in_atomic = true;
        self.dirty.clear();
        assert(unpacked_set(self.dirty@) =~= Set::<(i32, i32)>::empty());
    }

    fn end_atomic(&mut self) -> (r: Vec<(i32, i32)>) {
        let ghost recorded = self.dirty@;
        let out: Vec<(i32, i32)> = listed(&self.dirty);
        proof {
            if !self.in_atomic {
                assert(unpacked_set(self.dirty@) =~= Set::<(i32, i32)>::empty());
            }
        }
        self.in_atomic = false;
        self.dirty.clear();
        out
    }

    fn tile_lookup(&self, tx: i32, ty: i32) -> (t: Option<&TilePixels>) {
        self.tile(tx, ty)
    }
}

} // verus!
