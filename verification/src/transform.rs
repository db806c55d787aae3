use vstd::prelude::*;

use vstd::arithmetic::div_mod::{
    lemma_div_multiples_vanish, lemma_div_nonincreasing, lemma_fundamental_div_mod,
    lemma_fundamental_div_mod_converse_div, lemma_mod_division_less_than_divisor,
};

use crate::collision::CollisionTiles;

verus! {

// World positions are carried as integers in quarter-pixel units.
// In those units the diamond isometric projection is exact: with the
// map anchored at its center, tile (tx, ty) of an mw x mh map with
// cell size gw x gh pixels sits, in pixels, at
//
//   world.x = (tx - ty - (cx - cy)) * gw/2 + ox
//   world.y = (tx + ty - (cx + cy)) * gh/2 + oy
//
// where cx = (mw-1)/2, cy = (mh-1)/2 and (ox, oy) is the layer's
// world-space offset. Multiplying through by four clears every half,
// which is what the quarter-pixel formulas below state.

/// The parameters of one diamond-isometric projection: grid cell size
/// in pixels, map size in tiles, and the layer's world-space offset
/// in quarter-pixel units.
pub struct GridParams {
    pub gw: int,
    pub gh: int,
    pub mw: int,
    pub mh: int,
    pub ox: int,
    pub oy: int,
}

/// Forward transform, x part: the world position (in quarter pixels)
/// of tile (tx, ty).
pub open spec fn spec_world_x(p: GridParams, tx: int, ty: int) -> int {
    (2 * (tx - ty) - (p.mw - p.mh)) * p.gw + p.ox
}

/// Forward transform, y part.
pub open spec fn spec_world_y(p: GridParams, tx: int, ty: int) -> int {
    (2 * (tx + ty) - (p.mw + p.mh - 2)) * p.gh + p.oy
}

/// Inverse transform, x part: the tile whose diamond contains the
/// world position (wx, wy), as the floor of the exact rational tile
/// coordinate. The result may fall outside [0, mw) x [0, mh).
pub open spec fn spec_tile_x(p: GridParams, wx: int, wy: int) -> int {
    ((wx - p.ox) * p.gh + (wy - p.oy) * p.gw + 2 * (p.mw - 1) * p.gw * p.gh) / (4 * p.gw * p.gh)
}

/// Inverse transform, y part.
pub open spec fn spec_tile_y(p: GridParams, wx: int, wy: int) -> int {
    ((wy - p.oy) * p.gw - (wx - p.ox) * p.gh + 2 * (p.mh - 1) * p.gw * p.gh) / (4 * p.gw * p.gh)
}

/// The forward and inverse transforms are exact inverses: for every
/// positive cell size, every map size and offset, and every tile
/// coordinate (inside the map or not), sending a tile to world space
/// and back yields the same tile, with nothing lost to the floor.
pub proof fn lemma_round_trip(p: GridParams, tx: int, ty: int)
    requires
        p.gw >= 1,
        p.gh >= 1,
    ensures
        spec_tile_x(p, spec_world_x(p, tx, ty), spec_world_y(p, tx, ty)) == tx,
        spec_tile_y(p, spec_world_x(p, tx, ty), spec_world_y(p, tx, ty)) == ty,
{
    let gw = p.gw;
    let gh = p.gh;
    let mw = p.mw;
    let mh = p.mh;
    let wx = spec_world_x(p, tx, ty);
    let wy = spec_world_y(p, tx, ty);
    let d = 4 * gw * gh;
    let nx = (wx - p.ox) * gh + (wy - p.oy) * gw + 2 * (mw - 1) * gw * gh;
    let ny = (wy - p.oy) * gw - (wx - p.ox) * gh + 2 * (mh - 1) * gw * gh;
    assert((2 * (tx - ty) - (mw - mh)) * gw * gh + (2 * (tx + ty) - (mw + mh - 2)) * gh * gw + 2 * (
    mw - 1) * gw * gh == (4 * gw * gh) * tx) by (nonlinear_arith);
    assert((2 * (tx + ty) - (mw + mh - 2)) * gh * gw - (2 * (tx - ty) - (mw - mh)) * gw * gh + 2 * (
    mh - 1) * gw * gh == (4 * gw * gh) * ty) by (nonlinear_arith);
    assert((wx - p.ox) * gh == (2 * (tx - ty) - (mw - mh)) * gw * gh) by (nonlinear_arith)
        requires
            wx == (2 * (tx - ty) - (mw - mh)) * gw + p.ox,
    ;
    assert((wy - p.oy) * gw == (2 * (tx + ty) - (mw + mh - 2)) * gh * gw) by (nonlinear_arith)
        requires
            wy == (2 * (tx + ty) - (mw + mh - 2)) * gh + p.oy,
    ;
    assert(nx == d * tx);
    assert(ny == d * ty);
    assert(4 * gw * gh > 0) by (nonlinear_arith)
        requires
            gw >= 1,
            gh >= 1,
    ;
    lemma_div_multiples_vanish(tx, d);
    lemma_div_multiples_vanish(ty, d);
}

/// Floor division of `n` by a positive `d`, agreeing with the
/// mathematical `/` of specifications.
fn floor_div_i128(n: i128, d: i128) -> (q: i128)
    requires
        1 <= d <= 0x1000_0000_0000_0000_0000_0000_0000,
        -0x1000_0000_0000_0000_0000_0000_0000 <= n <= 0x1000_0000_0000_0000_0000_0000_0000,
    ensures
        q == n as int / d as int,
{
    if n >= 0 {
        let nu = n as u128;
        let du = d as u128;
        let qu = nu / du;
        proof {
            lemma_div_nonincreasing(nu as int, du as int);
        }
        qu as i128
    } else {
        let m = (-n) as u128;
        let du = d as u128;
        let q0u = (m + du - 1) / du;
        proof {
            lemma_div_nonincreasing((m + du - 1) as int, du as int);
        }
        let q0 = q0u as i128;
        proof {
            let ni = n as int;
            let di = d as int;
            let mi = m as int;
            let q0i = q0 as int;
            lemma_fundamental_div_mod(mi + di - 1, di);
            lemma_mod_division_less_than_divisor(mi + di - 1, di);
            let s = (mi + di - 1) % di;
            assert(mi + di - 1 == di * q0i + s);
            let r = di * q0i - mi;
            assert(r == di - 1 - s);
            assert(ni == (-q0i) * di + r) by (nonlinear_arith)
                requires
                    ni == -mi,
                    r == di * q0i - mi,
            ;
            lemma_fundamental_div_mod_converse_div(ni, di, -q0i, r);
        }
        -q0
    }
}

/// Inverse transform on a collision grid: the tile coordinate of the
/// world position (wx, wy), in quarter-pixel units. The result is the
/// floor of the exact rational tile coordinate and may fall outside
/// the map. Degenerate cell sizes are a caller error: the grid sizes
/// must be positive.
pub fn world_to_iso_tile(collisions: &CollisionTiles, wx: i64, wy: i64) -> (t: (i64, i64))
    requires
        collisions.grid_size.0 >= 1,
        collisions.grid_size.1 >= 1,
        i64::MIN <= spec_tile_x(collisions.params(), wx as int, wy as int) <= i64::MAX,
        i64::MIN <= spec_tile_y(collisions.params(), wx as int, wy as int) <= i64::MAX,
    ensures
        t.0 == spec_tile_x(collisions.params(), wx as int, wy as int),
        t.1 == spec_tile_y(collisions.params(), wx as int, wy as int),
{
    let gw = collisions.grid_size.0 as i128;
    let gh = collisions.grid_size.1 as i128;
    let mw = collisions.map_size.0 as i128;
    let mh = collisions.map_size.1 as i128;
    let lx = wx as i128 - collisions.layer_offset.0 as i128;
    let ly = wy as i128 - collisions.layer_offset.1 as i128;
    proof {
        lemma_mul_range(lx as int, 0x2_0000_0000_0000_0000, gh as int, 0x1_0000_0000);
        lemma_mul_range(ly as int, 0x2_0000_0000_0000_0000, gw as int, 0x1_0000_0000);
        lemma_mul_range(2 * (mw - 1) as int, 0x2_0000_0000, gw as int, 0x1_0000_0000);
        lemma_mul_range(2 * (mw - 1) * gw as int, 0x2_0000_0000_0000_0000, gh as int, 0x1_0000_0000);
        lemma_mul_range(2 * (mh - 1) as int, 0x2_0000_0000, gw as int, 0x1_0000_0000);
        lemma_mul_range(2 * (mh - 1) * gw as int, 0x2_0000_0000_0000_0000, gh as int, 0x1_0000_0000);
        lemma_mul_range(4 * gw as int, 0x4_0000_0000, gh as int, 0x1_0000_0000);
    }
    proof {
        assert(4 * (gw as int) * (gh as int) >= 4) by (nonlinear_arith)
            requires
                gw as int >= 1,
                gh as int >= 1,
        ;
    }
    let d = 4 * gw * gh;
    let nx = lx * gh + (ly * gw + 2 * (mw - 1) * gw * gh);
    let ny = ly * gw - lx * gh + 2 * (mh - 1) * gw * gh;
    let qx = floor_div_i128(nx, d);
    let qy = floor_div_i128(ny, d);
    (qx as i64, qy as i64)
}

/// Forward transform on a collision grid: the world position (in
/// quarter pixels) of tile (tx, ty); the conceptual placement
/// position of a rendered tile.
pub fn iso_tile_to_world(collisions: &CollisionTiles, tx: i64, ty: i64) -> (w: (i64, i64))
    requires
        i64::MIN <= spec_world_x(collisions.params(), tx as int, ty as int) <= i64::MAX,
        i64::MIN <= spec_world_y(collisions.params(), tx as int, ty as int) <= i64::MAX,
    ensures
        w.0 == spec_world_x(collisions.params(), tx as int, ty as int),
        w.1 == spec_world_y(collisions.params(), tx as int, ty as int),
{
    let gw = collisions.grid_size.0 as i128;
    let gh = collisions.grid_size.1 as i128;
    let mw = collisions.map_size.0 as i128;
    let mh = collisions.map_size.1 as i128;
    let txl = tx as i128;
    let tyl = ty as i128;
    proof {
        lemma_mul_range(
            (2 * (txl - tyl) - (mw - mh)) as int,
            0x8_0000_0000_0000_0000,
            gw as int,
            0x1_0000_0000,
        );
        lemma_mul_range(
            (2 * (txl + tyl) - (mw + mh - 2)) as int,
            0x8_0000_0000_0000_0000,
            gh as int,
            0x1_0000_0000,
        );
    }
    let wxl = (2 * (txl - tyl) - (mw - mh)) * gw + collisions.layer_offset.0 as i128;
    let wyl = (2 * (txl + tyl) - (mw + mh - 2)) * gh + collisions.layer_offset.1 as i128;
    (wxl as i64, wyl as i64)
}

/// Bound on a product from bounds on its factors.
proof fn lemma_mul_range(a: int, amax: int, b: int, bmax: int)
    requires
        -amax <= a <= amax,
        0 <= b <= bmax,
        0 <= amax,
    ensures
        -(amax * bmax) <= a * b <= amax * bmax,
{
    assert(-(amax * bmax) <= a * b <= amax * bmax) by (nonlinear_arith)
        requires
            -amax <= a <= amax,
            0 <= b <= bmax,
            0 <= amax,
    ;
}

} // verus!

