use vstd::prelude::*;

use crate::collision::CollisionTiles;
use crate::transform::{spec_tile_x, spec_tile_y, world_to_iso_tile};

verus! {

/// Resolve a movement intent against the collision grid: with no
/// blocked tiles, movement is unconditional and the intended target
/// is taken as is; otherwise the destination's tile coordinate is
/// computed with the inverse transform, a blocked destination keeps
/// the actor at its current position (a hard stop, not a slide), and
/// an unblocked one applies the move in full.
pub fn apply_movement(collisions: &CollisionTiles, current: (i64, i64), target: (i64, i64)) -> (pos:
    (i64, i64))
    requires
        collisions.blocked@.len() > 0 ==> {
            &&& collisions.grid_size.0 >= 1
            &&& collisions.grid_size.1 >= 1
            &&& i64::MIN <= spec_tile_x(collisions.params(), target.0 as int, target.1 as int)
                <= i64::MAX
            &&& i64::MIN <= spec_tile_y(collisions.params(), target.0 as int, target.1 as int)
                <= i64::MAX
        },
    ensures
        collisions.blocked@.len() == 0 ==> pos == target,
        collisions.blocked@.len() > 0 ==> pos == (if collisions.blocked_set().contains(
            (
                spec_tile_x(collisions.params(), target.0 as int, target.1 as int),
                spec_tile_y(collisions.params(), target.0 as int, target.1 as int),
            ),
        ) {
            current
        } else {
            target
        }),
{
    if collisions.is_empty() {
        return target;
    }
    let t = world_to_iso_tile(collisions, target.0, target.1);
    if collisions.contains(t) {
        current
    } else {
        target
    }
}

} // verus!
