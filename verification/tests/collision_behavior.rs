use tileworld::collision::CollisionTiles;
use tileworld::document::{
    Layer, LayerKind, MapDocument, Orientation, Projection, TileGrid, TileRef, Tileset,
};
use tileworld::layers::{build_map_layers, build_tile_layer, extract_collisions};

fn tile(ts: usize, id: u32) -> Option<TileRef> {
    Some(TileRef {
        tileset_index: ts,
        tile_id: id,
        flip_h: false,
        flip_v: false,
        flip_d: false,
    })
}

fn finite_layer(name: &str, offset_x: i64, offset_y: i64, cells: Vec<Option<TileRef>>) -> Layer {
    Layer {
        id: 1,
        name: String::from(name),
        offset_x,
        offset_y,
        kind: LayerKind::Finite(TileGrid { cells }),
    }
}

fn doc(
    width: u32,
    height: u32,
    orientation: Orientation,
    tilesets: Vec<Tileset>,
    layers: Vec<Layer>,
) -> MapDocument {
    MapDocument {
        width,
        height,
        tile_width: 32,
        tile_height: 32,
        orientation,
        tilesets,
        layers,
    }
}

fn imaged(image: u32) -> Tileset {
    Tileset {
        tile_width: 32,
        tile_height: 32,
        spacing: 0,
        image: Some(image),
    }
}

fn imageless() -> Tileset {
    Tileset {
        tile_width: 32,
        tile_height: 32,
        spacing: 0,
        image: None,
    }
}

/// Raw cell index for an engine cell (x, y) of a width x height grid:
/// the source stores row height - 1 - y.
fn raw(width: u32, height: u32, x: u32, y: u32) -> usize {
    ((height - 1 - y) * width + x) as usize
}

#[test]
fn rotation_of_one_cell_4x2() {
    // Engine cell (2, 0) of a 4-wide map must come out as (0, 4-1-2).
    let mut cells = vec![None; 8];
    cells[raw(4, 2, 2, 0)] = tile(0, 1);
    let d = doc(
        4,
        2,
        Orientation::Isometric,
        vec![imaged(1)],
        vec![finite_layer("Collisions", 0, 0, cells)],
    );
    let mut grid = CollisionTiles::new();
    extract_collisions(&d, 0, 0, &mut grid);
    assert_eq!(grid.blocked, vec![(0, 1)]);
    assert_eq!(grid.map_size, (4, 2));
    assert_eq!(grid.grid_size, (32, 32));
}

#[test]
fn rotation_scan_order_and_offset_flip() {
    // Occupied engine cells (0, 0) and (1, 1) of a 3x3 map, scanned
    // x-outer: (0, 2) first, then (1, 1). The vertical layer offset
    // flips sign in the grid.
    let mut cells = vec![None; 9];
    cells[raw(3, 3, 0, 0)] = tile(0, 1);
    cells[raw(3, 3, 1, 1)] = tile(0, 1);
    let d = doc(
        3,
        3,
        Orientation::Isometric,
        vec![imaged(1)],
        vec![finite_layer("Collisions", 12, 8, cells)],
    );
    let mut grid = CollisionTiles::new();
    extract_collisions(&d, 0, 0, &mut grid);
    assert_eq!(grid.blocked, vec![(0, 2), (1, 1)]);
    assert_eq!(grid.layer_offset, (12, -8));
}

#[test]
fn built_layer_places_tiles_with_flips() {
    let mut cells = vec![None; 4];
    cells[raw(2, 2, 0, 1)] = Some(TileRef {
        tileset_index: 0,
        tile_id: 7,
        flip_h: true,
        flip_v: false,
        flip_d: false,
    });
    cells[raw(2, 2, 1, 0)] = Some(TileRef {
        tileset_index: 0,
        tile_id: 2,
        flip_h: false,
        flip_v: true,
        flip_d: false,
    });
    let d = doc(
        2,
        2,
        Orientation::Isometric,
        vec![imaged(5)],
        vec![finite_layer("Ground", 0, 0, cells)],
    );
    let b = build_tile_layer(&d, 0, 0);
    assert_eq!(b.texture, 5);
    assert_eq!(b.map_size, (2, 2));
    assert_eq!(b.projection, Projection::IsometricDiamond);
    assert!(b.per_cell_draw_order);
    assert_eq!(b.tiles.len(), 4);
    // Slot y * width + x.
    assert!(b.tiles[0].is_none());
    let p1 = b.tiles[1].unwrap();
    assert_eq!(p1.texture_index, 2);
    assert!(p1.flip_v && !p1.flip_h);
    let p2 = b.tiles[2].unwrap();
    assert_eq!(p2.texture_index, 7);
    assert!(p2.flip_h && !p2.flip_v);
    assert!(b.tiles[3].is_none());
}

#[test]
fn pass_skips_cells_of_other_tilesets() {
    let mut cells = vec![None; 4];
    cells[0] = tile(0, 1);
    cells[1] = tile(1, 2);
    let d = doc(
        2,
        2,
        Orientation::Orthogonal,
        vec![imaged(5), imaged(6)],
        vec![finite_layer("Ground", 0, 0, cells)],
    );
    let b0 = build_tile_layer(&d, 0, 0);
    let b1 = build_tile_layer(&d, 1, 0);
    assert!(b0.tiles[2].is_some() && b0.tiles[3].is_none());
    assert!(b1.tiles[2].is_none() && b1.tiles[3].is_some());
    assert_eq!(b0.projection, Projection::Square);
    assert!(!b0.per_cell_draw_order);
}

#[test]
fn missing_image_isolates_failure() {
    // One tileset without an image: every other (tileset, layer)
    // combination still builds exactly as it would have with the
    // image present, because the last image-bearing tileset's pass
    // owns the registry slot either way.
    let cells: Vec<Option<TileRef>> = vec![tile(0, 1), tile(1, 2), None, tile(1, 3)];
    let with_image = doc(
        2,
        2,
        Orientation::Isometric,
        vec![imaged(5), imaged(6)],
        vec![finite_layer("Ground", 0, 0, cells.clone())],
    );
    let without_image = doc(
        2,
        2,
        Orientation::Isometric,
        vec![imageless(), imaged(6)],
        vec![finite_layer("Ground", 0, 0, cells)],
    );
    let mut g1 = CollisionTiles::new();
    let mut g2 = CollisionTiles::new();
    let r1 = build_map_layers(&with_image, &mut g1);
    let r2 = build_map_layers(&without_image, &mut g2);
    assert_eq!(r1, r2);
    let b = r2.storage[0].as_ref().unwrap();
    assert_eq!(b.tileset_index, 1);
    assert_eq!(b.texture, 6);
    assert!(b.tiles.iter().filter(|t| t.is_some()).count() == 2);
}

#[test]
fn only_image_bearing_tilesets_build() {
    let d = doc(
        2,
        2,
        Orientation::Isometric,
        vec![imageless()],
        vec![finite_layer("Ground", 0, 0, vec![None; 4])],
    );
    let mut g = CollisionTiles::new();
    let r = build_map_layers(&d, &mut g);
    assert_eq!(r.storage.len(), 1);
    assert!(r.storage[0].is_none());
    assert!(g.blocked.is_empty());
}

#[test]
fn non_finite_layers_are_skipped() {
    let layers = vec![
        Layer {
            id: 1,
            name: String::from("Objects"),
            offset_x: 0,
            offset_y: 0,
            kind: LayerKind::Other,
        },
        Layer {
            id: 2,
            name: String::from("Endless"),
            offset_x: 0,
            offset_y: 0,
            kind: LayerKind::Infinite,
        },
        finite_layer("Ground", 0, 0, vec![None; 4]),
    ];
    let d = doc(2, 2, Orientation::Isometric, vec![imaged(1)], layers);
    let mut g = CollisionTiles::new();
    let r = build_map_layers(&d, &mut g);
    assert_eq!(r.storage.len(), 3);
    assert!(r.storage[0].is_none());
    assert!(r.storage[1].is_none());
    assert!(r.storage[2].is_some());
    assert_eq!(r.storage[2].as_ref().unwrap().transform.2, 2);
}

#[test]
fn last_collision_pass_wins() {
    // Two image-bearing tilesets share the collision layer: the
    // second tileset's pass rebuilds the grid last, so only its
    // cells stay blocked.
    let cells: Vec<Option<TileRef>> = vec![tile(0, 1), tile(1, 2), None];
    let d = doc(
        3,
        1,
        Orientation::Isometric,
        vec![imaged(1), imaged(2)],
        vec![finite_layer("Collisions", 0, 0, cells)],
    );
    let mut g = CollisionTiles::new();
    let _ = build_map_layers(&d, &mut g);
    assert_eq!(g.blocked, vec![(0, 1)]);
}

#[test]
fn empty_map_builds_empty_layers() {
    let d = doc(
        0,
        0,
        Orientation::Isometric,
        vec![imaged(1)],
        vec![finite_layer("Collisions", 0, 0, Vec::new())],
    );
    let mut g = CollisionTiles::new();
    let r = build_map_layers(&d, &mut g);
    let b = r.storage[0].as_ref().unwrap();
    assert!(b.tiles.is_empty());
    assert!(g.blocked.is_empty());
    assert_eq!(g.map_size, (0, 0));
}

#[test]
fn orientations_map_to_projections() {
    for (orientation, projection, per_cell) in [
        (Orientation::Orthogonal, Projection::Square, false),
        (Orientation::Isometric, Projection::IsometricDiamond, true),
        (Orientation::Staggered, Projection::IsometricStaggered, false),
        (Orientation::Hexagonal, Projection::HexagonRow, false),
    ] {
        let d = doc(
            1,
            1,
            orientation,
            vec![imaged(1)],
            vec![finite_layer("Ground", 0, 0, vec![None])],
        );
        let b = build_tile_layer(&d, 0, 0);
        assert_eq!(b.projection, projection);
        assert_eq!(b.per_cell_draw_order, per_cell);
    }
}

#[test]
fn collision_name_is_exact() {
    let mut cells = vec![None; 1];
    cells[0] = tile(0, 1);
    let d = doc(
        1,
        1,
        Orientation::Isometric,
        vec![imaged(1)],
        vec![finite_layer("collisions", 0, 0, cells)],
    );
    let mut g = CollisionTiles::new();
    let r = build_map_layers(&d, &mut g);
    // Lower-case name does not match: the layer builds, the grid stays.
    assert!(r.storage[0].is_some());
    assert!(g.blocked.is_empty());
    assert_eq!(g.map_size, (0, 0));
}
