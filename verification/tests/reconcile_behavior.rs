use tileworld::collision::CollisionTiles;
use tileworld::document::{
    Layer, LayerKind, MapDocument, Orientation, TileGrid, TileRef, Tileset,
};
use tileworld::layers::TiledLayersStorage;
use tileworld::reconcile::{
    collect_changed_maps, process_loaded_maps, AssetEvent, AssetStore, DocSlot, MapInstance,
};

fn center_blocked_doc() -> MapDocument {
    // 3x3 isometric map, 32x32 tiles, no offset, one "Collisions"
    // layer whose engine cell (1, 1) is occupied.
    let mut cells: Vec<Option<TileRef>> = vec![None; 9];
    // Engine (1, 1) reads raw row 3 - 1 - 1 = 1: index 1 * 3 + 1.
    cells[4] = Some(TileRef {
        tileset_index: 0,
        tile_id: 1,
        flip_h: false,
        flip_v: false,
        flip_d: false,
    });
    MapDocument {
        width: 3,
        height: 3,
        tile_width: 32,
        tile_height: 32,
        orientation: Orientation::Isometric,
        tilesets: vec![Tileset {
            tile_width: 32,
            tile_height: 32,
            spacing: 0,
            image: Some(1),
        }],
        layers: vec![Layer {
            id: 1,
            name: String::from("Collisions"),
            offset_x: 0,
            offset_y: 0,
            kind: LayerKind::Finite(TileGrid { cells }),
        }],
    }
}

fn store_with(id: u64, doc: Option<MapDocument>) -> AssetStore {
    AssetStore {
        docs: vec![DocSlot { id, doc }],
    }
}

fn fresh_instance(doc_id: u64) -> MapInstance {
    MapInstance {
        doc_id,
        layers: TiledLayersStorage {
            storage: Vec::new(),
        },
    }
}

#[test]
fn collect_removed_drops_pending_entries() {
    let events = vec![
        AssetEvent::Added { id: 1 },
        AssetEvent::Modified { id: 2 },
        AssetEvent::Removed { id: 1 },
    ];
    let ids = collect_changed_maps(&events, &Vec::new());
    assert_eq!(ids, vec![2]);
}

#[test]
fn collect_keeps_additions_after_removal() {
    let events = vec![AssetEvent::Removed { id: 1 }, AssetEvent::Added { id: 1 }];
    let ids = collect_changed_maps(&events, &Vec::new());
    assert_eq!(ids, vec![1]);
}

#[test]
fn collect_appends_discovered() {
    let events = vec![AssetEvent::Added { id: 2 }];
    let ids = collect_changed_maps(&events, &vec![3, 4]);
    assert_eq!(ids, vec![2, 3, 4]);
}

#[test]
fn removed_document_is_not_rebuilt() {
    // An id removed after being added must be absent from the pass:
    // the instance keeps its registry and the grid stays untouched.
    let events = vec![AssetEvent::Added { id: 7 }, AssetEvent::Removed { id: 7 }];
    assert_eq!(collect_changed_maps(&events, &Vec::new()), Vec::<u64>::new());
    let store = store_with(7, Some(center_blocked_doc()));
    let mut instances = vec![fresh_instance(7)];
    let mut grid = CollisionTiles::new();
    process_loaded_maps(&mut instances, &store, &events, &Vec::new(), &mut grid);
    assert!(instances[0].layers.storage.is_empty());
    assert!(grid.blocked.is_empty());
    assert_eq!(grid.map_size, (0, 0));
}

#[test]
fn scenario_center_cell_blocks_movement() {
    let store = store_with(1, Some(center_blocked_doc()));
    let mut instances = vec![fresh_instance(1)];
    let mut grid = CollisionTiles::new();
    let events = vec![AssetEvent::Added { id: 1 }];
    process_loaded_maps(&mut instances, &store, &events, &Vec::new(), &mut grid);

    assert_eq!(grid.blocked, vec![(1, 1)]);
    assert_eq!(grid.map_size, (3, 3));
    assert_eq!(grid.grid_size, (32, 32));
    assert_eq!(grid.layer_offset, (0, 0));

    let reg = &instances[0].layers;
    assert_eq!(reg.storage.len(), 1);
    let built = reg.storage[0].as_ref().unwrap();
    assert!(built.per_cell_draw_order);
    assert_eq!(built.tiles.iter().filter(|t| t.is_some()).count(), 1);

    // World (0, 0) inverts to the blocked center tile (1, 1): the
    // move is rejected. World (0, -128) inverts to (0, 0): applied.
    let current = (640, 640);
    let rejected = tileworld::movement::apply_movement(&grid, current, (0, 0));
    assert_eq!(rejected, current);
    let applied = tileworld::movement::apply_movement(&grid, current, (0, -128));
    assert_eq!(applied, (0, -128));
}

#[test]
fn reconciling_twice_is_idempotent() {
    let events = vec![AssetEvent::Modified { id: 1 }];

    let store_a = store_with(1, Some(center_blocked_doc()));
    let mut instances_a = vec![fresh_instance(1)];
    let mut grid_a = CollisionTiles::new();
    process_loaded_maps(&mut instances_a, &store_a, &events, &Vec::new(), &mut grid_a);

    let store_b = store_with(1, Some(center_blocked_doc()));
    let mut instances_b = vec![fresh_instance(1)];
    let mut grid_b = CollisionTiles::new();
    process_loaded_maps(&mut instances_b, &store_b, &events, &Vec::new(), &mut grid_b);
    process_loaded_maps(&mut instances_b, &store_b, &events, &Vec::new(), &mut grid_b);

    assert_eq!(instances_a, instances_b);
    assert_eq!(grid_a, grid_b);
}

#[test]
fn unresolved_document_is_skipped() {
    let store = store_with(1, None);
    let mut instances = vec![fresh_instance(1)];
    let mut grid = CollisionTiles::new();
    let events = vec![AssetEvent::Added { id: 1 }];
    process_loaded_maps(&mut instances, &store, &events, &Vec::new(), &mut grid);
    assert!(instances[0].layers.storage.is_empty());
    assert!(grid.blocked.is_empty());
}

#[test]
fn discovered_instance_is_rebuilt() {
    let store = store_with(1, Some(center_blocked_doc()));
    let mut instances = vec![fresh_instance(1)];
    let mut grid = CollisionTiles::new();
    process_loaded_maps(&mut instances, &store, &Vec::new(), &vec![1], &mut grid);
    assert_eq!(instances[0].layers.storage.len(), 1);
    assert_eq!(grid.blocked, vec![(1, 1)]);
}

#[test]
fn every_instance_of_a_changed_document_rebuilds() {
    let store = store_with(1, Some(center_blocked_doc()));
    let mut instances = vec![fresh_instance(1), fresh_instance(2), fresh_instance(1)];
    let mut grid = CollisionTiles::new();
    let events = vec![AssetEvent::Modified { id: 1 }];
    process_loaded_maps(&mut instances, &store, &events, &Vec::new(), &mut grid);
    assert_eq!(instances[0].layers.storage.len(), 1);
    assert!(instances[1].layers.storage.is_empty());
    assert_eq!(instances[2].layers.storage.len(), 1);
}

#[test]
fn unrelated_events_leave_scene_alone() {
    let store = store_with(1, Some(center_blocked_doc()));
    let mut instances = vec![fresh_instance(1)];
    let mut grid = CollisionTiles::new();
    let events = vec![AssetEvent::Added { id: 99 }];
    process_loaded_maps(&mut instances, &store, &events, &Vec::new(), &mut grid);
    assert!(instances[0].layers.storage.is_empty());
    assert!(grid.blocked.is_empty());
}
