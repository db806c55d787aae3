use vstd::prelude::*;

use vstd::arithmetic::div_mod::{
    lemma_div_pos_is_pos, lemma_fundamental_div_mod_converse_div,
    lemma_fundamental_div_mod_converse_mod, lemma_mod_division_less_than_divisor,
    lemma_multiply_divide_lt,
};

use vstd::pervasive::VecAdditionalExecFns;

use crate::collision::{grid_view, CollisionTiles, GridContentV};
use crate::document::{
    doc_wf, layer_wf, spec_projection, projection_of, LayerKind, LayerKindV, MapDocument,
    MapDocumentV, Projection, TilePlacement, TileRef,
};

verus! {

/// The tile occupying engine cell (x, y) of layer `li`. The source
/// format numbers rows downward while the engine numbers them upward,
/// so the engine cell reads raw cell (x, height - 1 - y).
pub open spec fn spec_cell(d: MapDocumentV, li: int, x: int, y: int) -> Option<TileRef>
    recommends
        d.layers[li].kind is Finite,
{
    match d.layers[li].kind {
        LayerKindV::Finite(cells) => cells[(d.height - 1 - y) * d.width + x],
        LayerKindV::Infinite => None,
        LayerKindV::Other => None,
    }
}

/// The placement that the (tileset `ts`, layer `li`) pass emits at
/// engine cell (x, y): the cell's tile when it belongs to that
/// tileset; an empty cell, or a tile of some other tileset, emits
/// nothing in this pass.
pub open spec fn spec_placement(d: MapDocumentV, ts: int, li: int, x: int, y: int) -> Option<
    TilePlacement,
> {
    match spec_cell(d, li, x, y) {
        Some(t) => if t.tileset_index == ts {
            Some(
                TilePlacement {
                    texture_index: t.tile_id,
                    flip_h: t.flip_h,
                    flip_v: t.flip_v,
                    flip_d: t.flip_d,
                },
            )
        } else {
            None
        },
        None => None,
    }
}

/// Whether the (tileset `ts`, layer `li`) combination is built at
/// all: the tileset must have a resolved image and the layer must be
/// a finite tile layer. Combinations that fail this test are skipped;
/// that is not an error.
pub open spec fn eligible_pass(d: MapDocumentV, ts: int, li: int) -> bool {
    &&& 0 <= ts < d.tilesets.len()
    &&& d.tilesets[ts].image is Some
    &&& 0 <= li < d.layers.len()
    &&& d.layers[li].kind is Finite
}

/// The placement that the (tileset `ts`, layer `li`) pass emits at
/// engine cell (x, y), executably.
pub fn placement_at(doc: &MapDocument, ts: usize, li: usize, x: u32, y: u32) -> (p: Option<
    TilePlacement,
>)
    requires
        doc_wf(doc@),
        li < doc@.layers.len(),
        doc@.layers[li as int].kind is Finite,
        x < doc.width,
        y < doc.height,
    ensures
        p == spec_placement(doc@, ts as int, li as int, x as int, y as int),
{
    let layer = &doc.layers[li];
    proof {
        assert(doc@.layers[li as int] == doc.layers@.map_values(|l: crate::document::Layer| l@)[li as int]);
    }
    match &layer.kind {
        LayerKind::Finite(grid) => {
            let w = doc.width as usize;
            let h = doc.height as usize;
            let xi = x as usize;
            let yi = y as usize;
            let n = grid.cells.len();
            proof {
                assert(layer_wf(doc@, doc@.layers[li as int]));
                assert(grid@.len() == doc@.width * doc@.height);
                assert(n == w * h);
                assert((h - 1 - yi) * w + xi < w * h) by (nonlinear_arith)
                    requires
                        0 <= xi < w,
                        0 <= yi < h,
                ;
            }
            let idx = (h - 1 - yi) * w + xi;
            match grid.cells[idx] {
                Some(t) => {
                    if t.tileset_index == ts {
                        Some(
                            TilePlacement {
                                texture_index: t.tile_id,
                                flip_h: t.flip_h,
                                flip_v: t.flip_v,
                                flip_d: t.flip_d,
                            },
                        )
                    } else {
                        None
                    }
                },
                None => None,
            }
        },
        LayerKind::Infinite => {
            proof {
                assert(false);
            }
            None
        },
        LayerKind::Other => {
            proof {
                assert(false);
            }
            None
        },
    }
}

/// One built (tileset x layer) combination: the dense placement grid
/// handed to the renderer, with the geometry it is drawn with. Slot
/// y * width + x of `tiles` holds engine cell (x, y).
#[derive(Debug, PartialEq)]
pub struct BuiltLayer {
    pub layer_index: usize,
    pub tileset_index: usize,
    /// The tileset's resolved image handle.
    pub texture: u32,
    /// Map size in tiles.
    pub map_size: (u32, u32),
    /// Grid cell size in pixels, from the map document.
    pub grid_size: (u32, u32),
    /// Tile image size in pixels, from the tileset.
    pub tile_size: (u32, u32),
    /// Spacing between tile images in the tileset, both axes.
    pub spacing: (u32, u32),
    pub projection: Projection,
    /// World-space translation: x is the layer's offset, y the
    /// negated offset (the vertical axis flips), z the layer index.
    pub transform: (i64, i64, usize),
    /// Diamond isometric layers are drawn cell by cell with depth
    /// sorting; other projections batch freely.
    pub per_cell_draw_order: bool,
    pub tiles: Vec<Option<TilePlacement>>,
}

/// What it means for `b` to be the correct build of the (tileset
/// `ts`, layer `li`) combination of document `d`: every geometry
/// field copied from the document, and the placement grid pointwise
/// equal to `spec_placement`.
pub open spec fn built_layer_matches(d: MapDocumentV, ts: int, li: int, b: BuiltLayer) -> bool {
    &&& b.layer_index == li
    &&& b.tileset_index == ts
    &&& (d.tilesets[ts].image matches Some(img) && b.texture == img)
    &&& b.map_size == (d.width, d.height)
    &&& b.grid_size == (d.tile_width, d.tile_height)
    &&& b.tile_size == (d.tilesets[ts].tile_width, d.tilesets[ts].tile_height)
    &&& b.spacing == (d.tilesets[ts].spacing, d.tilesets[ts].spacing)
    &&& b.projection == spec_projection(d.orientation)
    &&& b.transform.0 == d.layers[li].offset_x
    &&& b.transform.1 == -d.layers[li].offset_y
    &&& b.transform.2 == li
    &&& b.per_cell_draw_order == (spec_projection(d.orientation) is IsometricDiamond)
    &&& b.tiles@.len() == d.width * d.height
    &&& forall|x: int, y: int|
        0 <= x < d.width && 0 <= y < d.height ==> b.tiles@[y * d.width + x]
            == #[trigger] spec_placement(d, ts, li, x, y)
}

/// Build the (tileset `ts`, layer `li`) combination of `doc`: scan
/// every engine cell and record the placements belonging to `ts`.
pub fn build_tile_layer(doc: &MapDocument, ts: usize, li: usize) -> (b: BuiltLayer)
    requires
        doc_wf(doc@),
        eligible_pass(doc@, ts as int, li as int),
    ensures
        built_layer_matches(doc@, ts as int, li as int, b),
{
    let ghost d = doc@;
    let mw = doc.width;
    let mh = doc.height;
    let mut tiles: Vec<Option<TilePlacement>> = Vec::new();
    let mut y: u32 = 0;
    while y < mh
        invariant
            doc_wf(doc@),
            eligible_pass(doc@, ts as int, li as int),
            d == doc@,
            mw == doc.width,
            mh == doc.height,
            y <= mh,
            tiles@.len() == y * mw,
            forall|k: int|
                0 <= k < tiles@.len() ==> tiles@[k] == spec_placement(
                    d,
                    ts as int,
                    li as int,
                    k % mw as int,
                    k / mw as int,
                ),
        decreases mh - y,
    {
        let mut x: u32 = 0;
        while x < mw
            invariant
                doc_wf(doc@),
                eligible_pass(doc@, ts as int, li as int),
                d == doc@,
                mw == doc.width,
                mh == doc.height,
                y < mh,
                x <= mw,
                tiles@.len() == y * mw + x,
                forall|k: int|
                    0 <= k < tiles@.len() ==> tiles@[k] == spec_placement(
                        d,
                        ts as int,
                        li as int,
                        k % mw as int,
                        k / mw as int,
                    ),
            decreases mw - x,
        {
            let p = placement_at(doc, ts, li, x, y);
            tiles.push(p);
            proof {
                lemma_fundamental_div_mod_converse_div(
                    y as int * mw as int + x as int,
                    mw as int,
                    y as int,
                    x as int,
                );
                lemma_fundamental_div_mod_converse_mod(
                    y as int * mw as int + x as int,
                    mw as int,
                    y as int,
                    x as int,
                );
            }
            x = x + 1;
        }
        proof {
            assert(y as int * mw as int + mw as int == (y + 1) * mw as int) by (nonlinear_arith);
        }
        y = y + 1;
    }
    proof {
        assert forall|x: int, yy: int| 0 <= x < d.width && 0 <= yy < d.height implies tiles@[yy
            * d.width + x] == #[trigger] spec_placement(d, ts as int, li as int, x, yy) by {
            assert(yy * d.width + x < d.height * d.width) by (nonlinear_arith)
                requires
                    0 <= x < d.width,
                    0 <= yy < d.height,
            ;
            assert(0 <= yy * d.width + x) by (nonlinear_arith)
                requires
                    0 <= x,
                    0 <= yy,
                    0 < d.width,
            ;
            lemma_fundamental_div_mod_converse_div(yy * d.width + x, d.width as int, yy, x);
            lemma_fundamental_div_mod_converse_mod(yy * d.width + x, d.width as int, yy, x);
        }
        assert(mh as int * mw as int == d.width * d.height) by (nonlinear_arith)
            requires
                mh == d.height,
                mw == d.width,
        ;
        assert(-crate::document::OFFSET_BOUND <= d.layers[li as int].offset_y
            <= crate::document::OFFSET_BOUND) by {
            assert(layer_wf(d, d.layers[li as int]));
        }
    }
    let layer = &doc.layers[li];
    let tileset = &doc.tilesets[ts];
    let texture: u32 = match tileset.image {
        Some(img) => img,
        None => {
            proof {
                assert(false);
            }
            0
        },
    };
    let projection = projection_of(&doc.orientation);
    let per_cell = match projection {
        Projection::IsometricDiamond => true,
        _ => false,
    };
    proof {
        assert(doc@.layers[li as int] == doc.layers@.map_values(|l: crate::document::Layer| l@)[li as int]);
    }
    BuiltLayer {
        layer_index: li,
        tileset_index: ts,
        texture,
        map_size: (mw, mh),
        grid_size: (doc.tile_width, doc.tile_height),
        tile_size: (tileset.tile_width, tileset.tile_height),
        spacing: (tileset.spacing, tileset.spacing),
        projection,
        transform: (layer.offset_x, -layer.offset_y, li),
        per_cell_draw_order: per_cell,
        tiles,
    }
}

/// The name that designates the collision layer, matched exactly and
/// case-sensitively.
pub open spec fn spec_collision_name() -> Seq<char> {
    "Collisions"@
}

/// Whether the layer's name designates it as the collision layer.
pub fn is_collision_name(name: &String) -> (r: bool)
    ensures
        r == (name@ == spec_collision_name()),
{
    let needle: String = "Collisions".to_owned();
    *name == needle
}

/// A collision pass is an eligible (tileset, layer) combination whose
/// layer bears the collision name: building it also rebuilds the
/// collision grid.
pub open spec fn collision_pass(d: MapDocumentV, ts: int, li: int) -> bool {
    eligible_pass(d, ts, li) && d.layers[li].name == spec_collision_name()
}

/// Whether scan step `k` of the collision extraction (x outer, y
/// inner, so x = k / height and y = k % height) hits an occupied cell
/// of the pass's tileset and emits the rotated coordinate `p`.
pub open spec fn scan_hit(d: MapDocumentV, ts: int, li: int, k: int, p: (i64, i64)) -> bool {
    let x = k / d.height as int;
    let y = k % d.height as int;
    &&& spec_placement(d, ts, li, x, y) is Some
    &&& p.0 == y
    &&& p.1 == d.width - 1 - x
}

/// The blocked coordinates recorded after the first `n` scan steps of
/// the collision extraction: every occupied cell (x, y) of the pass's
/// tileset contributes the coordinate (y, width - 1 - x), rotated a
/// quarter turn counter-clockwise so that collision sampling by the
/// inverse transform lines up with the rendered layer.
pub open spec fn spec_blocked_prefix(d: MapDocumentV, ts: int, li: int, n: nat) -> Seq<(i64, i64)>
    decreases n,
{
    if n == 0 {
        Seq::empty()
    } else {
        let k = (n - 1) as int;
        let x = k / d.height as int;
        let y = k % d.height as int;
        if spec_placement(d, ts, li, x, y) is Some {
            spec_blocked_prefix(d, ts, li, (n - 1) as nat).push(
                (y as i64, (d.width - 1 - x) as i64),
            )
        } else {
            spec_blocked_prefix(d, ts, li, (n - 1) as nat)
        }
    }
}

/// The full blocked sequence a collision pass produces.
pub open spec fn spec_blocked_seq(d: MapDocumentV, ts: int, li: int) -> Seq<(i64, i64)> {
    spec_blocked_prefix(d, ts, li, (d.width * d.height) as nat)
}

/// The blocked coordinates a collision pass produces, as a set: the
/// rotations (y, width - 1 - x) of exactly the occupied cells (x, y).
pub open spec fn spec_collision_set(d: MapDocumentV, ts: int, li: int) -> Set<(int, int)> {
    Set::new(
        |p: (int, int)|
            exists|x: int, y: int|
                0 <= x < d.width && 0 <= y < d.height && #[trigger] spec_placement(d, ts, li, x, y)
                    is Some && p.0 == y && p.1 == d.width - 1 - x,
    )
}

proof fn lemma_blocked_prefix_contains(d: MapDocumentV, ts: int, li: int, n: nat, p: (i64, i64))
    requires
        d.height >= 1,
        n <= d.width * d.height,
    ensures
        spec_blocked_prefix(d, ts, li, n).contains(p) <==> exists|k: int|
            0 <= k < n && #[trigger] scan_hit(d, ts, li, k, p),
    decreases n,
{
    if n == 0 {
    } else {
        let m = (n - 1) as nat;
        lemma_blocked_prefix_contains(d, ts, li, m, p);
        let pre = spec_blocked_prefix(d, ts, li, m);
        let cur = spec_blocked_prefix(d, ts, li, n);
        let x = m as int / d.height as int;
        let y = m as int % d.height as int;
        lemma_mod_division_less_than_divisor(m as int, d.height as int);
        lemma_div_pos_is_pos(m as int, d.height as int);
        assert(d.height as int * d.width as int == d.width * d.height) by (nonlinear_arith);
        lemma_multiply_divide_lt(m as int, d.height as int, d.width as int);
        if spec_placement(d, ts, li, x, y) is Some {
            let e = (y as i64, (d.width - 1 - x) as i64);
            assert(cur == pre.push(e));
            if cur.contains(p) {
                let i = choose|i: int| 0 <= i < cur.len() && cur[i] == p;
                if i < pre.len() {
                    assert(pre[i] == p);
                    assert(pre.contains(p));
                } else {
                    assert(p == e);
                    assert(scan_hit(d, ts, li, m as int, p));
                }
            }
            if exists|k: int| 0 <= k < n && #[trigger] scan_hit(d, ts, li, k, p) {
                let k = choose|k: int| 0 <= k < n && #[trigger] scan_hit(d, ts, li, k, p);
                if k < m {
                    assert(pre.contains(p));
                    let i = choose|i: int| 0 <= i < pre.len() && pre[i] == p;
                    assert(cur[i] == p);
                } else {
                    assert(p == e);
                    assert(cur[pre.len() as int] == p);
                }
                assert(cur.contains(p));
            }
        } else {
            assert(cur == pre);
            if exists|k: int| 0 <= k < n && #[trigger] scan_hit(d, ts, li, k, p) {
                let k = choose|k: int| 0 <= k < n && #[trigger] scan_hit(d, ts, li, k, p);
                assert(k < m);
            }
        }
    }
}

/// Collision symmetry: the blocked sequence of a collision pass
/// holds, as a set, exactly the quarter-turn rotations
/// (y, width - 1 - x) of the occupied cells (x, y) -- each blocked
/// cell contributes that coordinate and no other.
pub proof fn lemma_collision_rotation(d: MapDocumentV, ts: int, li: int)
    ensures
        forall|p: (i64, i64)| #[trigger]
            spec_blocked_seq(d, ts, li).contains(p) <==> spec_collision_set(d, ts, li).contains(
                (p.0 as int, p.1 as int),
            ),
{
    let total = (d.width * d.height) as nat;
    if d.height == 0 {
        assert(total == 0);
        assert forall|p: (i64, i64)| !(#[trigger] spec_blocked_seq(d, ts, li).contains(p)) by {
            assert(spec_blocked_seq(d, ts, li).len() == 0);
        }
        assert forall|p: (i64, i64)| !spec_collision_set(d, ts, li).contains(
            (p.0 as int, p.1 as int),
        ) by {}
    } else {
        assert forall|p: (i64, i64)| #[trigger]
            spec_blocked_seq(d, ts, li).contains(p) <==> spec_collision_set(d, ts, li).contains(
                (p.0 as int, p.1 as int),
            ) by {
            lemma_blocked_prefix_contains(d, ts, li, total, p);
            if exists|k: int| 0 <= k < total && #[trigger] scan_hit(d, ts, li, k, p) {
                let k = choose|k: int| 0 <= k < total && #[trigger] scan_hit(d, ts, li, k, p);
                let x = k / d.height as int;
                let y = k % d.height as int;
                lemma_div_pos_is_pos(k, d.height as int);
                lemma_mod_division_less_than_divisor(k, d.height as int);
                assert(d.height as int * d.width as int == d.width * d.height) by (nonlinear_arith);
                lemma_multiply_divide_lt(k, d.height as int, d.width as int);
                assert(spec_collision_set(d, ts, li).contains((p.0 as int, p.1 as int)));
            }
            if spec_collision_set(d, ts, li).contains((p.0 as int, p.1 as int)) {
                let (x, y) = choose|x: int, y: int|
                    0 <= x < d.width && 0 <= y < d.height && #[trigger] spec_placement(
                        d,
                        ts,
                        li,
                        x,
                        y,
                    ) is Some && p.0 as int == y && p.1 as int == d.width - 1 - x;
                let k = x * d.height as int + y;
                assert(0 <= x * d.height + y < d.width * d.height) by (nonlinear_arith)
                    requires
                        0 <= x < d.width,
                        0 <= y < d.height,
                ;
                lemma_fundamental_div_mod_converse_div(k, d.height as int, x, y);
                lemma_fundamental_div_mod_converse_mod(k, d.height as int, x, y);
                assert(scan_hit(d, ts, li, k, p));
            }
        }
    }
}

/// Collision symmetry at the grid level: a collision grid holding a
/// collision pass's content blocks exactly the rotated coordinates
/// (y, width - 1 - x) of the pass's occupied cells (x, y), and no
/// other coordinate.
pub proof fn lemma_grid_blocked_set(c: CollisionTiles, d: MapDocumentV, ts: int, li: int)
    requires
        grid_view(c) == collision_content(d, ts, li),
    ensures
        c.blocked_set() == spec_collision_set(d, ts, li),
{
    lemma_collision_rotation(d, ts, li);
    let s = spec_blocked_seq(d, ts, li);
    assert(c.blocked@ == s);
    assert forall|p: (int, int)|
        c.blocked_set().contains(p) == spec_collision_set(d, ts, li).contains(p) by {
        if c.blocked_set().contains(p) {
            let i = choose|i: int|
                0 <= i < c.blocked@.len() && (#[trigger] c.blocked@[i]).0 == p.0
                    && c.blocked@[i].1 == p.1;
            let q = c.blocked@[i];
            assert(s.contains(q)) by {
                assert(s[i] == q);
            }
            assert(spec_collision_set(d, ts, li).contains((q.0 as int, q.1 as int)));
            assert((q.0 as int, q.1 as int) == p);
        }
        if spec_collision_set(d, ts, li).contains(p) {
            let (x, y) = choose|x: int, y: int|
                0 <= x < d.width && 0 <= y < d.height && #[trigger] spec_placement(d, ts, li, x, y)
                    is Some && p.0 == y && p.1 == d.width - 1 - x;
            let q = (p.0 as i64, p.1 as i64);
            assert((q.0 as int, q.1 as int) == p);
            assert(spec_collision_set(d, ts, li).contains((q.0 as int, q.1 as int)));
            assert(s.contains(q));
            let i = choose|i: int| 0 <= i < s.len() && s[i] == q;
            assert((#[trigger] c.blocked@[i]).0 == p.0 && c.blocked@[i].1 == p.1);
            assert(c.blocked_set().contains(p));
        }
    }
    assert(c.blocked_set() =~= spec_collision_set(d, ts, li));
}

/// Rebuild the collision grid from a collision pass: clear the
/// blocked set, copy the transform parameters from the document (the
/// vertical layer offset flips sign for world space), and record the
/// rotated coordinate of every occupied cell, scanning x outer and y
/// inner.
pub fn extract_collisions(doc: &MapDocument, ts: usize, li: usize, collisions: &mut CollisionTiles)
    requires
        doc_wf(doc@),
        eligible_pass(doc@, ts as int, li as int),
    ensures
        final(collisions).blocked@ == spec_blocked_seq(doc@, ts as int, li as int),
        final(collisions).map_size == (doc.width, doc.height),
        final(collisions).grid_size == (doc.tile_width, doc.tile_height),
        final(collisions).layer_offset.0 == doc@.layers[li as int].offset_x,
        final(collisions).layer_offset.1 == -doc@.layers[li as int].offset_y,
{
    let ghost d = doc@;
    collisions.blocked = Vec::new();
    collisions.map_size = (doc.width, doc.height);
    collisions.grid_size = (doc.tile_width, doc.tile_height);
    let layer = &doc.layers[li];
    proof {
        assert(doc@.layers[li as int] == doc.layers@.map_values(|l: crate::document::Layer| l@)[li as int]);
        assert(layer_wf(doc@, doc@.layers[li as int]));
    }
    collisions.layer_offset = (layer.offset_x, -layer.offset_y);
    let mw = doc.width;
    let mh = doc.height;
    let mut x: u32 = 0;
    while x < mw
        invariant
            doc_wf(doc@),
            eligible_pass(doc@, ts as int, li as int),
            d == doc@,
            mw == doc.width,
            mh == doc.height,
            x <= mw,
            collisions.blocked@ == spec_blocked_prefix(d, ts as int, li as int, (x * mh) as nat),
            collisions.map_size == (doc.width, doc.height),
            collisions.grid_size == (doc.tile_width, doc.tile_height),
            collisions.layer_offset.0 == doc@.layers[li as int].offset_x,
            collisions.layer_offset.1 == -doc@.layers[li as int].offset_y,
        decreases mw - x,
    {
        let mut y: u32 = 0;
        proof {
            assert(x as int * mh as int + 0 == x * mh);
        }
        while y < mh
            invariant
                doc_wf(doc@),
                eligible_pass(doc@, ts as int, li as int),
                d == doc@,
                mw == doc.width,
                mh == doc.height,
                x < mw,
                y <= mh,
                collisions.blocked@ == spec_blocked_prefix(
                    d,
                    ts as int,
                    li as int,
                    (x * mh + y) as nat,
                ),
                collisions.map_size == (doc.width, doc.height),
                collisions.grid_size == (doc.tile_width, doc.tile_height),
                collisions.layer_offset.0 == doc@.layers[li as int].offset_x,
                collisions.layer_offset.1 == -doc@.layers[li as int].offset_y,
            decreases mh - y,
        {
            let p = placement_at(doc, ts, li, x, y);
            proof {
                lemma_fundamental_div_mod_converse_div(
                    x as int * mh as int + y as int,
                    mh as int,
                    x as int,
                    y as int,
                );
                lemma_fundamental_div_mod_converse_mod(
                    x as int * mh as int + y as int,
                    mh as int,
                    x as int,
                    y as int,
                );
            }
            if p.is_some() {
                collisions.blocked.push((y as i64, (mw - 1 - x) as i64));
            }
            y = y + 1;
        }
        proof {
            assert(x as int * mh as int + mh as int == (x + 1) * mh as int) by (nonlinear_arith);
        }
        x = x + 1;
    }
}

/// The per-map registry of built layers, keyed by layer index: one
/// slot per document layer. A pass overwrites the slot an earlier
/// tileset's pass registered for the same layer; replacing a slot
/// retires the old build and everything it owns in one step.
#[derive(Debug, PartialEq)]
pub struct TiledLayersStorage {
    pub storage: Vec<Option<BuiltLayer>>,
}

/// Which tileset's pass owns registry slot `li` once the tilesets
/// with index below `n` have run: the greatest eligible index below
/// `n`, since later passes overwrite earlier ones.
pub open spec fn last_eligible_upto(d: MapDocumentV, li: int, n: nat) -> Option<int>
    decreases n,
{
    if n == 0 {
        None
    } else if eligible_pass(d, n - 1, li) {
        Some((n - 1) as int)
    } else {
        last_eligible_upto(d, li, (n - 1) as nat)
    }
}

/// Which tileset's pass owns registry slot `li` after a full rebuild.
pub open spec fn last_eligible_ts(d: MapDocumentV, li: int) -> Option<int> {
    last_eligible_upto(d, li, d.tilesets.len())
}

/// Which tileset's pass owns registry slot `lj` in the middle of a
/// rebuild: the tileset rows below `ts` have run, and within row
/// `ts` the layers below `li`.
pub open spec fn last_eligible_partial(d: MapDocumentV, lj: int, ts: int, li: int) -> Option<int> {
    if lj < li && eligible_pass(d, ts, lj) {
        Some(ts)
    } else {
        last_eligible_upto(d, lj, ts as nat)
    }
}

/// What it means for `reg` to be the registry a full rebuild of `d`
/// leaves behind: one slot per layer, each slot holding the build of
/// the last eligible tileset's pass for that layer, and empty exactly
/// when no pass built the layer.
pub open spec fn registry_built_from(d: MapDocumentV, reg: TiledLayersStorage) -> bool {
    &&& reg.storage@.len() == d.layers.len()
    &&& forall|li: int|
        0 <= li < d.layers.len() ==> match #[trigger] reg.storage@[li] {
            Some(b) => last_eligible_ts(d, li) matches Some(ts) && built_layer_matches(
                d,
                ts,
                li,
                b,
            ),
            None => last_eligible_ts(d, li) is None,
        }
}

/// The collision-grid content a collision pass writes: the transform
/// parameters from the document, the vertical offset flipped for
/// world space, and the rotated blocked sequence.
pub open spec fn collision_content(d: MapDocumentV, ts: int, li: int) -> GridContentV {
    GridContentV {
        blocked: spec_blocked_seq(d, ts, li),
        map_size: (d.width, d.height),
        grid_size: (d.tile_width, d.tile_height),
        layer_offset: (d.layers[li].offset_x, (-(d.layers[li].offset_y as int)) as i64),
    }
}

/// The last collision pass among the first `n` of a full rebuild:
/// passes run tileset-outer and layer-inner, so pass `k` is tileset
/// `k / layer count`, layer `k % layer count`.
pub open spec fn last_pass_upto(d: MapDocumentV, n: nat) -> Option<(int, int)>
    decreases n,
{
    if n == 0 {
        None
    } else {
        let k = n - 1;
        let ts = k / d.layers.len() as int;
        let li = k % d.layers.len() as int;
        if collision_pass(d, ts, li) {
            Some((ts, li))
        } else {
            last_pass_upto(d, (n - 1) as nat)
        }
    }
}

/// The last collision pass of a full rebuild of `d`, if any.
pub open spec fn last_collision_pass(d: MapDocumentV) -> Option<(int, int)> {
    last_pass_upto(d, (d.tilesets.len() * d.layers.len()) as nat)
}

/// What a full rebuild leaves in the collision grid: the content of
/// the document's last collision pass, or the previous content when
/// the document has none.
pub open spec fn grid_after_rebuild(d: MapDocumentV, g: GridContentV) -> GridContentV {
    match last_collision_pass(d) {
        Some(p) => collision_content(d, p.0, p.1),
        None => g,
    }
}

/// Whether two built layers hold identical content.
pub open spec fn built_layers_equal(a: BuiltLayer, b: BuiltLayer) -> bool {
    &&& a.layer_index == b.layer_index
    &&& a.tileset_index == b.tileset_index
    &&& a.texture == b.texture
    &&& a.map_size == b.map_size
    &&& a.grid_size == b.grid_size
    &&& a.tile_size == b.tile_size
    &&& a.spacing == b.spacing
    &&& a.projection == b.projection
    &&& a.transform == b.transform
    &&& a.per_cell_draw_order == b.per_cell_draw_order
    &&& a.tiles@ == b.tiles@
}

/// Whether two registries hold identical content, slot by slot.
pub open spec fn storages_equal(a: TiledLayersStorage, b: TiledLayersStorage) -> bool {
    &&& a.storage@.len() == b.storage@.len()
    &&& forall|li: int|
        0 <= li < a.storage@.len() ==> (match (#[trigger] a.storage@[li], b.storage@[li]) {
            (Some(x), Some(y)) => built_layers_equal(x, y),
            (None, None) => true,
            _ => false,
        })
}

proof fn lemma_built_layer_unique(d: MapDocumentV, ts: int, li: int, x: BuiltLayer, y: BuiltLayer)
    requires
        built_layer_matches(d, ts, li, x),
        built_layer_matches(d, ts, li, y),
    ensures
        built_layers_equal(x, y),
{
    assert forall|idx: int| 0 <= idx < x.tiles@.len() implies x.tiles@[idx] == y.tiles@[idx] by {
        if d.width > 0 {
            let xx = idx % d.width as int;
            let yy = idx / d.width as int;
            lemma_mod_division_less_than_divisor(idx, d.width as int);
            lemma_div_pos_is_pos(idx, d.width as int);
            assert(d.width as int * d.height as int == d.width * d.height) by (nonlinear_arith);
            lemma_multiply_divide_lt(idx, d.width as int, d.height as int);
            vstd::arithmetic::div_mod::lemma_fundamental_div_mod(idx, d.width as int);
            assert(yy * d.width as int == d.width as int * yy) by (nonlinear_arith);
            assert(x.tiles@[yy * d.width + xx] == spec_placement(d, ts, li, xx, yy));
            assert(y.tiles@[yy * d.width + xx] == spec_placement(d, ts, li, xx, yy));
        } else {
            assert(d.width * d.height == 0) by (nonlinear_arith)
                requires
                    d.width == 0,
            ;
        }
    }
    assert(x.tiles@ =~= y.tiles@);
}

/// A document pins its rebuild: two registries built from the same
/// document hold identical content, so rebuilding an unchanged
/// document replaces a registry with an identical one.
pub proof fn lemma_registry_unique(d: MapDocumentV, r1: TiledLayersStorage, r2: TiledLayersStorage)
    requires
        registry_built_from(d, r1),
        registry_built_from(d, r2),
    ensures
        storages_equal(r1, r2),
{
    assert forall|li: int| 0 <= li < r1.storage@.len() implies (match (
        #[trigger] r1.storage@[li],
        r2.storage@[li],
    ) {
        (Some(x), Some(y)) => built_layers_equal(x, y),
        (None, None) => true,
        _ => false,
    }) by {
        match (r1.storage@[li], r2.storage@[li]) {
            (Some(x), Some(y)) => {
                match last_eligible_ts(d, li) {
                    Some(ts) => {
                        lemma_built_layer_unique(d, ts, li, x, y);
                    },
                    None => {
                        assert(false);
                    },
                }
            },
            (None, None) => {},
            (Some(x), None) => {
                assert(false);
            },
            (None, Some(y)) => {
                assert(false);
            },
        }
    }
}

/// Content equality of registries is reflexive.
pub proof fn lemma_storages_equal_refl(a: TiledLayersStorage)
    ensures
        storages_equal(a, a),
{
}

proof fn lemma_blocked_prefix_same(d1: MapDocumentV, d2: MapDocumentV, ts: int, li: int, n: nat)
    requires
        d1.width == d2.width,
        d1.height == d2.height,
        d1.layers == d2.layers,
    ensures
        spec_blocked_prefix(d1, ts, li, n) == spec_blocked_prefix(d2, ts, li, n),
    decreases n,
{
    if n > 0 {
        lemma_blocked_prefix_same(d1, d2, ts, li, (n - 1) as nat);
        let k = (n - 1) as int;
        let x = k / d1.height as int;
        let y = k % d1.height as int;
        assert(spec_placement(d1, ts, li, x, y) == spec_placement(d2, ts, li, x, y));
    }
}

/// Partial-failure isolation: whether one (tileset, layer) pass is
/// eligible, what it builds, and what collision content it writes
/// depend only on the document's dimensions, its layers, and that
/// one tileset -- never on another tileset's image. A document with
/// one tileset's image missing therefore still builds every other
/// combination exactly as it would with the image present.
pub proof fn lemma_partial_failure_isolation(
    d1: MapDocumentV,
    d2: MapDocumentV,
    ts: int,
    li: int,
    b: BuiltLayer,
)
    requires
        d1.width == d2.width,
        d1.height == d2.height,
        d1.tile_width == d2.tile_width,
        d1.tile_height == d2.tile_height,
        d1.orientation == d2.orientation,
        d1.layers == d2.layers,
        d1.tilesets.len() == d2.tilesets.len(),
        0 <= ts < d1.tilesets.len(),
        d1.tilesets[ts] == d2.tilesets[ts],
    ensures
        eligible_pass(d1, ts, li) == eligible_pass(d2, ts, li),
        collision_pass(d1, ts, li) == collision_pass(d2, ts, li),
        built_layer_matches(d1, ts, li, b) == built_layer_matches(d2, ts, li, b),
        collision_content(d1, ts, li) == collision_content(d2, ts, li),
{
    if built_layer_matches(d1, ts, li, b) {
        assert forall|x: int, y: int|
            0 <= x < d2.width && 0 <= y < d2.height implies b.tiles@[y * d2.width + x]
            == #[trigger] spec_placement(d2, ts, li, x, y) by {
            assert(spec_placement(d1, ts, li, x, y) == spec_placement(d2, ts, li, x, y));
        }
        assert(built_layer_matches(d2, ts, li, b));
    }
    if built_layer_matches(d2, ts, li, b) {
        assert forall|x: int, y: int|
            0 <= x < d1.width && 0 <= y < d1.height implies b.tiles@[y * d1.width + x]
            == #[trigger] spec_placement(d1, ts, li, x, y) by {
            assert(spec_placement(d1, ts, li, x, y) == spec_placement(d2, ts, li, x, y));
        }
        assert(built_layer_matches(d1, ts, li, b));
    }
    lemma_blocked_prefix_same(d1, d2, ts, li, (d1.width * d1.height) as nat);
    assert(collision_content(d1, ts, li) =~= collision_content(d2, ts, li));
}

proof fn lemma_pass_row_skip(d: MapDocumentV, ts: int, j: nat)
    requires
        1 <= d.layers.len(),
        0 <= ts,
        forall|li: int| 0 <= li < d.layers.len() ==> !(#[trigger] collision_pass(d, ts, li)),
        j <= d.layers.len(),
    ensures
        last_pass_upto(d, (ts * d.layers.len() + j) as nat) == last_pass_upto(
            d,
            (ts * d.layers.len()) as nat,
        ),
    decreases j,
{
    assert(0 <= ts * d.layers.len()) by (nonlinear_arith)
        requires
            0 <= ts,
            0 <= d.layers.len(),
    ;
    if j > 0 {
        lemma_pass_row_skip(d, ts, (j - 1) as nat);
        let nl = d.layers.len() as int;
        let k = ts * nl + j - 1;
        lemma_fundamental_div_mod_converse_div(k, nl, ts, j - 1);
        lemma_fundamental_div_mod_converse_mod(k, nl, ts, j - 1);
        assert(!collision_pass(d, k / nl, k % nl));
    }
}

/// Rebuild every (tileset, layer) combination of `doc`: one pass per
/// pair of an image-bearing tileset and a finite tile layer, tileset
/// rows outer, layers inner. Each pass registers its build under the
/// layer's index, replacing any earlier pass's build there, and a
/// pass over a layer named `"Collisions"` also rebuilds the collision
/// grid, so the grid ends up with the last collision pass's content.
/// Ineligible combinations are skipped; that is not an error.
pub fn build_map_layers(doc: &MapDocument, collisions: &mut CollisionTiles) -> (reg:
    TiledLayersStorage)
    requires
        doc_wf(doc@),
    ensures
        registry_built_from(doc@, reg),
        grid_view(*final(collisions)) == grid_after_rebuild(doc@, grid_view(*old(collisions))),
{
    let ghost d = doc@;
    let ghost g0 = grid_view(*old(collisions));
    let nl = doc.layers.len();
    let nt = doc.tilesets.len();
    let mut storage: Vec<Option<BuiltLayer>> = Vec::new();
    let mut i: usize = 0;
    while i < nl
        invariant
            i <= nl,
            storage@.len() == i,
            forall|j: int| 0 <= j < i ==> (#[trigger] storage@[j]) is None,
        decreases nl - i,
    {
        storage.push(None);
        i = i + 1;
    }
    let mut ts: usize = 0;
    while ts < nt
        invariant
            doc_wf(doc@),
            d == doc@,
            nl == d.layers.len(),
            nt == d.tilesets.len(),
            ts <= nt,
            storage@.len() == nl,
            forall|lj: int|
                0 <= lj < nl ==> match #[trigger] storage@[lj] {
                    Some(b) => last_eligible_upto(d, lj, ts as nat) matches Some(t)
                        && built_layer_matches(d, t, lj, b),
                    None => last_eligible_upto(d, lj, ts as nat) is None,
                },
            grid_view(*collisions) == (match last_pass_upto(d, (ts * nl) as nat) {
                Some(p) => collision_content(d, p.0, p.1),
                None => g0,
            }),
            g0 == grid_view(*old(collisions)),
        decreases nt - ts,
    {
        if doc.tilesets[ts].image.is_some() {
            let mut li: usize = 0;
            while li < nl
                invariant
                    doc_wf(doc@),
                    d == doc@,
                    nl == d.layers.len(),
                    nt == d.tilesets.len(),
                    ts < nt,
                    li <= nl,
                    d.tilesets[ts as int].image is Some,
                    storage@.len() == nl,
                    forall|lj: int|
                        0 <= lj < nl ==> match #[trigger] storage@[lj] {
                            Some(b) => last_eligible_partial(d, lj, ts as int, li as int) matches
                                Some(t) && built_layer_matches(d, t, lj, b),
                            None => last_eligible_partial(d, lj, ts as int, li as int) is None,
                        },
                    grid_view(*collisions) == (match last_pass_upto(d, (ts * nl + li) as nat) {
                        Some(p) => collision_content(d, p.0, p.1),
                        None => g0,
                    }),
                    g0 == grid_view(*old(collisions)),
                decreases nl - li,
            {
                let ghost k = ts as int * nl as int + li as int;
                proof {
                    lemma_fundamental_div_mod_converse_div(k, nl as int, ts as int, li as int);
                    lemma_fundamental_div_mod_converse_mod(k, nl as int, ts as int, li as int);
                    assert(doc@.layers[li as int] == doc.layers@.map_values(
                        |l: crate::document::Layer| l@,
                    )[li as int]);
                }
                let finite = match &doc.layers[li].kind {
                    LayerKind::Finite(_) => true,
                    LayerKind::Infinite => false,
                    LayerKind::Other => false,
                };
                proof {
                    assert(finite == (d.layers[li as int].kind is Finite));
                }
                if finite {
                    let b = build_tile_layer(doc, ts, li);
                    if is_collision_name(&doc.layers[li].name) {
                        extract_collisions(doc, ts, li, collisions);
                        proof {
                            assert(collision_pass(d, ts as int, li as int));
                            assert(layer_wf(d, d.layers[li as int]));
                            assert(grid_view(*collisions) =~= collision_content(
                                d,
                                ts as int,
                                li as int,
                            ));
                            assert(last_pass_upto(d, (k + 1) as nat) == Some(
                                (ts as int, li as int),
                            ));
                        }
                    } else {
                        proof {
                            assert(!collision_pass(d, ts as int, li as int));
                            assert(last_pass_upto(d, (k + 1) as nat) == last_pass_upto(
                                d,
                                k as nat,
                            ));
                        }
                    }
                    storage.set(li, Some(b));
                } else {
                    proof {
                        assert(!eligible_pass(d, ts as int, li as int));
                        assert(!collision_pass(d, ts as int, li as int));
                        assert(last_pass_upto(d, (k + 1) as nat) == last_pass_upto(d, k as nat));
                    }
                }
                li = li + 1;
            }
            proof {
                assert forall|lj: int| 0 <= lj < nl implies last_eligible_partial(
                    d,
                    lj,
                    ts as int,
                    nl as int,
                ) == last_eligible_upto(d, lj, (ts + 1) as nat) by {}
                assert((ts + 1) * nl as int == ts * nl as int + nl as int) by (nonlinear_arith);
            }
        } else {
            proof {
                assert forall|lj: int| 0 <= lj < nl implies last_eligible_upto(
                    d,
                    lj,
                    (ts + 1) as nat,
                ) == last_eligible_upto(d, lj, ts as nat) by {
                    assert(!eligible_pass(d, ts as int, lj));
                }
                if nl > 0 {
                    assert forall|lj2: int| 0 <= lj2 < d.layers.len() implies !(
                    #[trigger] collision_pass(d, ts as int, lj2)) by {
                        assert(!eligible_pass(d, ts as int, lj2));
                    }
                    lemma_pass_row_skip(d, ts as int, nl as nat);
                    assert((ts + 1) * nl as int == ts * nl as int + nl as int) by (nonlinear_arith);
                } else {
                    assert((ts + 1) * nl as int == ts * nl as int) by (nonlinear_arith)
                        requires
                            nl as int == 0,
                    ;
                }
            }
        }
        ts = ts + 1;
    }
    TiledLayersStorage { storage }
}

} // verus!
