use hokusai::surface::TiledSurface;
use hokusai::tile::{world_to_tile, TILE_SIZE};
use hokusai::tile_mem::MemSurface;

#[test]
fn lends_and_records_dirty() {
    let mut s = MemSurface::new();
    s.begin_atomic();
    {
        let t = s.tile_request_start(2, -1);
        t[0][0] = [1, 2, 3, 4];
        s.tile_request_end(2, -1);
    }
    let dirty = s.end_atomic();
    assert_eq!(dirty, vec![(2, -1)]);
    assert_eq!(s.tile(2, -1).unwrap()[0][0], [1, 2, 3, 4]);
    assert_eq!(s.tile(0, 0), None);
    let _ = TILE_SIZE;
}

#[test]
fn world_coordinates_split() {
    assert_eq!(world_to_tile(-1, 64), (-1, 1, 63, 0));
    assert_eq!(world_to_tile(i32::MIN, i32::MAX), (-33554432, 33554431, 0, 63));
}
