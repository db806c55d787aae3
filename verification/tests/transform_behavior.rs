use tileworld::collision::CollisionTiles;
use tileworld::transform::{iso_tile_to_world, world_to_iso_tile};

fn grid(gw: u32, gh: u32, mw: u32, mh: u32, ox: i64, oy: i64) -> CollisionTiles {
    CollisionTiles {
        blocked: Vec::new(),
        map_size: (mw, mh),
        grid_size: (gw, gh),
        layer_offset: (ox, oy),
    }
}

#[test]
fn round_trip_all_tiles_3x3() {
    let g = grid(32, 32, 3, 3, 0, 0);
    for x in 0..3i64 {
        for y in 0..3i64 {
            let w = iso_tile_to_world(&g, x, y);
            let t = world_to_iso_tile(&g, w.0, w.1);
            assert_eq!(t, (x, y));
        }
    }
}

#[test]
fn round_trip_with_offsets_5x4() {
    let g = grid(32, 16, 5, 4, 13, -9);
    for x in 0..5i64 {
        for y in 0..4i64 {
            let w = iso_tile_to_world(&g, x, y);
            let t = world_to_iso_tile(&g, w.0, w.1);
            assert_eq!(t, (x, y));
        }
    }
}

#[test]
fn round_trip_odd_cell_sizes() {
    // Odd pixel sizes exercise the quarter-pixel representation: the
    // half-cell and half-map terms are not whole pixels here.
    let g = grid(31, 17, 4, 7, -5, 21);
    for x in 0..4i64 {
        for y in 0..7i64 {
            let w = iso_tile_to_world(&g, x, y);
            let t = world_to_iso_tile(&g, w.0, w.1);
            assert_eq!(t, (x, y));
        }
    }
}

#[test]
fn inverse_center_of_3x3_is_center_tile() {
    let g = grid(32, 32, 3, 3, 0, 0);
    assert_eq!(world_to_iso_tile(&g, 0, 0), (1, 1));
}

#[test]
fn forward_corner_tile_of_3x3() {
    let g = grid(32, 32, 3, 3, 0, 0);
    // Tile (0, 0) sits one full cell height below the map center:
    // 128 quarter-pixels of 32-pixel cells.
    assert_eq!(iso_tile_to_world(&g, 0, 0), (0, -128));
    assert_eq!(world_to_iso_tile(&g, 0, -128), (0, 0));
}

#[test]
fn inverse_may_leave_the_map() {
    let g = grid(32, 32, 3, 3, 0, 0);
    assert_eq!(world_to_iso_tile(&g, 4096, 0), (33, -31));
}

#[test]
fn offset_shifts_the_inverse() {
    let g0 = grid(32, 32, 3, 3, 0, 0);
    let g1 = grid(32, 32, 3, 3, 64, -32);
    // A world position shifted by exactly the layer offset lands on
    // the same tile as the unshifted position on the unshifted grid.
    let t0 = world_to_iso_tile(&g0, 0, 0);
    let t1 = world_to_iso_tile(&g1, 64, -32);
    assert_eq!(t0, t1);
}
