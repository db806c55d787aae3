use vstd::prelude::*;

use crate::transform::GridParams;

verus! {

/// The content of a collision grid, spec level: everything a
/// `CollisionTiles` value carries, with the blocked list as a
/// sequence. Two grids with equal content are interchangeable.
#[verifier::ext_equal]
pub struct GridContentV {
    pub blocked: Seq<(i64, i64)>,
    pub map_size: (u32, u32),
    pub grid_size: (u32, u32),
    pub layer_offset: (i64, i64),
}

/// The content of a collision grid.
pub open spec fn grid_view(c: CollisionTiles) -> GridContentV {
    GridContentV {
        blocked: c.blocked@,
        map_size: c.map_size,
        grid_size: c.grid_size,
        layer_offset: c.layer_offset,
    }
}

/// The collision grid: the blocked tile coordinates derived from the
/// most recently built layer named `"Collisions"`, together with the
/// parameters needed to run the coordinate transform on it. It is
/// empty, with zero parameters, before any collision layer has been
/// processed.
#[derive(Debug, PartialEq)]
pub struct CollisionTiles {
    /// Blocked tile coordinates, in the order the builder found them.
    pub blocked: Vec<(i64, i64)>,
    /// Map size in tiles.
    pub map_size: (u32, u32),
    /// Grid cell size in pixels.
    pub grid_size: (u32, u32),
    /// World-space translation of the layer's origin, in quarter-pixel
    /// units, with the vertical axis already inverted relative to the
    /// source format's convention.
    pub layer_offset: (i64, i64),
}

impl CollisionTiles {
    /// The coordinate-transform parameters this grid carries.
    pub open spec fn params(&self) -> GridParams {
        GridParams {
            gw: self.grid_size.0 as int,
            gh: self.grid_size.1 as int,
            mw: self.map_size.0 as int,
            mh: self.map_size.1 as int,
            ox: self.layer_offset.0 as int,
            oy: self.layer_offset.1 as int,
        }
    }

    /// The blocked coordinates as a set of mathematical pairs.
    pub open spec fn blocked_set(&self) -> Set<(int, int)> {
        Set::new(
            |p: (int, int)|
                exists|i: int|
                    0 <= i < self.blocked@.len() && (#[trigger] self.blocked@[i]).0 == p.0
                        && self.blocked@[i].1 == p.1,
        )
    }

    /// The empty collision grid: no blocked tiles, zero parameters.
    pub fn new() -> (c: CollisionTiles)
        ensures
            c.blocked@.len() == 0,
            c.map_size == (0u32, 0u32),
            c.grid_size == (0u32, 0u32),
            c.layer_offset == (0i64, 0i64),
    {
        CollisionTiles { blocked: Vec::new(), map_size: (0, 0), grid_size: (0, 0), layer_offset: (
            0,
            0,
        ) }
    }

    /// Whether no tile is blocked; movement is then unconditional.
    pub fn is_empty(&self) -> (r: bool)
        ensures
            r == (self.blocked@.len() == 0),
    {
        self.blocked.len() == 0
    }
}

impl Default for CollisionTiles {
    /// The state at process start: the empty collision grid.
    fn default() -> (c: CollisionTiles)
        ensures
            c.blocked@.len() == 0,
            c.map_size == (0u32, 0u32),
            c.grid_size == (0u32, 0u32),
            c.layer_offset == (0i64, 0i64),
    {
        CollisionTiles::new()
    }
}

impl CollisionTiles {
    /// Whether the tile coordinate `t` is blocked.
    pub fn contains(&self, t: (i64, i64)) -> (r: bool)
        ensures
            r == self.blocked_set().contains((t.0 as int, t.1 as int)),
    {
        let mut i: usize = 0;
        while i < self.blocked.len()
            invariant
                i <= self.blocked@.len(),
                forall|j: int|
                    0 <= j < i ==> !((#[trigger] self.blocked@[j]).0 == t.0 && self.blocked@[j].1
                        == t.1),
            decreases self.blocked@.len() - i,
        {
            let b = self.blocked[i];
            if b.0 == t.0 && b.1 == t.1 {
                assert(self.blocked_set().contains((t.0 as int, t.1 as int)));
                return true;
            }
            i += 1;
        }
        false
    }
}

} // verus!
