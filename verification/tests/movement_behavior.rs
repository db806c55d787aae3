use tileworld::collision::CollisionTiles;
use tileworld::movement::apply_movement;

fn grid_with_blocked(blocked: Vec<(i64, i64)>) -> CollisionTiles {
    CollisionTiles {
        blocked,
        map_size: (3, 3),
        grid_size: (32, 32),
        layer_offset: (0, 0),
    }
}

#[test]
fn empty_grid_applies_any_move() {
    // Collision is opt-in: with no blocked tiles the intent is
    // applied unconditionally, even on a grid with zero parameters.
    let g = CollisionTiles::new();
    assert_eq!(apply_movement(&g, (5, 5), (1000, -1000)), (1000, -1000));
}

#[test]
fn blocked_destination_is_a_hard_stop() {
    // World (0, 0) inverts to tile (1, 1) on this grid.
    let g = grid_with_blocked(vec![(1, 1)]);
    let current = (300, -300);
    assert_eq!(apply_movement(&g, current, (0, 0)), current);
}

#[test]
fn unblocked_destination_is_applied_in_full() {
    let g = grid_with_blocked(vec![(1, 1)]);
    // World (0, -128) inverts to tile (0, 0), which is free.
    assert_eq!(apply_movement(&g, (300, -300), (0, -128)), (0, -128));
}

#[test]
fn diagonal_intent_fails_entirely_when_blocked() {
    // A blocked diagonal destination is not decomposed into
    // axis-separated sub-moves: the actor simply stays.
    let g = grid_with_blocked(vec![(1, 1)]);
    let current = (0, -128);
    assert_eq!(apply_movement(&g, current, (0, 0)), current);
}

#[test]
fn contains_and_is_empty_report_the_blocked_set() {
    let g = grid_with_blocked(vec![(0, 2), (1, 1)]);
    assert!(!g.is_empty());
    assert!(g.contains((1, 1)));
    assert!(g.contains((0, 2)));
    assert!(!g.contains((2, 0)));
    let e = CollisionTiles::new();
    assert!(e.is_empty());
    assert!(!e.contains((0, 0)));
}
