//! World coordinates and their tiles.
//!
//! A world coordinate is a fixed-point number with `WORLD_BITS` fractional
//! bits, counted in widths of the map: `0` is the western (or northern) edge
//! and `WORLD` the eastern (or southern) one. The x axis is periodic, so any
//! x names a place on the map; y is not, and may lie off the map.
//!
//! On the Web-Mercator map a longitude of `lon` degrees lies at
//! `lon / 360 + 1/2` widths, and a latitude whose sine is `s` at
//! `1/2 - ln((1 + s) / (1 - s)) / (4 pi)` widths. The edges of the map are
//! the meridian of 180 degrees and the parallels of about 85.05 degrees.

use vstd::prelude::*;
use vstd::arithmetic::power2::{pow2, lemma_pow2_pos, lemma_pow2_adds, lemma_pow2_strictly_increases, lemma2_to64, lemma2_to64_rest};
use vstd::bits::lemma_u64_shl_is_mul;
use vstd::arithmetic::div_mod::{lemma_fundamental_div_mod, lemma_fundamental_div_mod_converse};

verus! {

/// Number of fractional bits of a world coordinate.
pub const WORLD_BITS: u8 = 52;

/// Width of the map in world units: two to the `WORLD_BITS`.
pub const WORLD: i64 = 0x10_0000_0000_0000;

/// Deepest zoom whose tile indices fit in 32 bits.
pub const MAX_ZOOM: u8 = 31;

/// Side of a tile at zoom `z`, in world units.
pub open spec fn span(z: int) -> int {
    pow2((WORLD_BITS - z) as nat) as int
}

/// The place on the map that x names: x brought into `[0, WORLD)` by whole
/// turns round the globe.
pub open spec fn wrap(x: int) -> int {
    x % (WORLD as int)
}

/// Index along one axis of the tile at zoom `z` that holds coordinate `v`.
pub open spec fn tile_index(v: int, z: int) -> int {
    v / span(z)
}

/// Whether the tile that holds y at zoom `z` has an index of 32 bits.
pub open spec fn fits(y: int, z: int) -> bool {
    i32::MIN <= tile_index(y, z) <= i32::MAX
}

/// Whether the world coordinate of the edge with index `i` at zoom `z` can
/// be written in 64 bits.
pub open spec fn edge_in_reach(i: int, z: int) -> bool {
    i64::MIN <= i * span(z) <= i64::MAX
}

/// The side of a tile is a power of two, halves with every zoom level, and
/// `2^z` tiles of zoom `z` span the map.
pub proof fn lemma_span(z: int)
    requires
        0 <= z <= MAX_ZOOM,
    ensures
        0x20_0000 <= span(z) <= WORLD,
        span(z) * pow2(z as nat) == WORLD,
        z < MAX_ZOOM ==> span(z) == 2 * span(z + 1),
{
    lemma2_to64();
    lemma2_to64_rest();
    lemma_pow2_adds((WORLD_BITS - z) as nat, z as nat);
    lemma_pow2_pos(z as nat);
    if z < MAX_ZOOM {
        lemma_pow2_adds((WORLD_BITS - z - 1) as nat, 1);
    }
    if z > 0 {
        lemma_pow2_strictly_increases((WORLD_BITS - z) as nat, WORLD_BITS as nat);
    }
    if z < MAX_ZOOM {
        lemma_pow2_strictly_increases(21, (WORLD_BITS - z) as nat);
    }
}

/// Side of a tile at zoom `z`, in world units.
pub fn tile_span(z: u8) -> (c: i64)
    requires
        z <= MAX_ZOOM,
    ensures
        c == span(z as int),
        0x20_0000 <= c <= WORLD,
{
    let shift: u64 = (WORLD_BITS - z) as u64;
    proof {
        lemma_span(z as int);
        lemma_u64_shl_is_mul(1u64, shift);
    }
    let c: u64 = 1u64 << shift;
    c as i64
}

/// The place on the map that (`x`, `y`) names, with x wrapped round the
/// globe and y as it is. Read with `WORLD_BITS - z` fractional bits, the
/// result is the position in tiles of zoom `z`: its whole part is the tile,
/// its fraction the place within the tile.
pub fn point_to_tile_fraction(x: i64, y: i64, z: u8) -> (at: (i64, i64, u8))
    ensures
        at.0 == wrap(x as int),
        0 <= at.0 < WORLD,
        z <= MAX_ZOOM ==> at.0 < pow2(z as nat) * span(z as int),
        at.1 == y,
        at.2 == z,
{
    proof {
        if z <= MAX_ZOOM {
            lemma_span(z as int);
            assert(pow2(z as nat) * span(z as int) == span(z as int) * pow2(z as nat))
                by (nonlinear_arith);
        }
    }
    let r: i64 = x % WORLD;
    let wrapped: i64 = if r < 0 { r + WORLD } else { r };
    (wrapped, y, z)
}

/// Floor of `v / c` for a positive `c`.
pub fn floor_div(v: i64, c: i64) -> (q: i64)
    requires
        c > 0,
    ensures
        q == (v as int) / (c as int),
{
    if v >= 0 {
        v / c
    } else {
        let m: i64 = -(v + 1);
        let t: i64 = m / c;
        proof {
            let r = (m as int) % (c as int);
            lemma_fundamental_div_mod(m as int, c as int);
            assert(0 <= t <= m) by (nonlinear_arith)
                requires
                    c >= 1,
                    m >= 0,
                    0 <= r < c,
                    m == c * t + r,
            ;
            assert(v == (-t - 1) * c + (c - r - 1)) by (nonlinear_arith)
                requires
                    v == -m - 1,
                    m == c * t + r,
            ;
            lemma_fundamental_div_mod_converse(v as int, c as int, -t - 1, c - r - 1);
        }
        -t - 1
    }
}

/// The tile of zoom `z` that holds the position (`x`, `y`).
pub fn point_to_tile(x: i64, y: i64, z: u8) -> (tile: (i32, i32, u8))
    requires
        z <= MAX_ZOOM,
        fits(y as int, z as int),
    ensures
        tile.0 == tile_index(wrap(x as int), z as int),
        tile.1 == tile_index(y as int, z as int),
        tile.2 == z,
        0 <= tile.0 < pow2(z as nat),
{
    let at = point_to_tile_fraction(x, y, z);
    let c = tile_span(z);
    proof {
        lemma_wrapped_index(at.0 as int, z as int);
    }
    (floor_div(at.0, c) as i32, floor_div(at.1, c) as i32, z)
}

/// A place on the map lies in one of the `2^z` columns of zoom `z`.
pub proof fn lemma_wrapped_index(x: int, z: int)
    requires
        0 <= z <= MAX_ZOOM,
        0 <= x < WORLD,
    ensures
        0 <= tile_index(x, z) < pow2(z as nat),
        tile_index(x, z) <= i32::MAX,
{
    lemma_span(z);
    lemma2_to64();
    let c = span(z);
    let n = pow2(z as nat) as int;
    let q = x / c;
    assert(0 <= q < n) by (nonlinear_arith)
        requires
            c > 0,
            0 <= x < c * n,
            q == x / c,
    ;
    if z < MAX_ZOOM {
        lemma_pow2_strictly_increases(z as nat, 31);
    }
}

/// World x of the western edge of column `x` at zoom `z`.
pub fn tile_to_lon(x: i32, z: u8) -> (west: i64)
    requires
        z <= MAX_ZOOM,
        edge_in_reach(x as int, z as int),
    ensures
        west == x * span(z as int),
{
    let c = tile_span(z);
    (x as i64) * c
}

/// World y of the northern edge of row `y` at zoom `z`.
pub fn tile_to_lat(y: i32, z: u8) -> (north: i64)
    requires
        z <= MAX_ZOOM,
        edge_in_reach(y as int, z as int),
    ensures
        north == y * span(z as int),
{
    let c = tile_span(z);
    (y as i64) * c
}

/// The square of the world that a tile covers, as (west, south, east, north).
/// South is the larger y: y grows southward.
pub fn tile_to_bbox(tile: (i32, i32, u8)) -> (bbox: (i64, i64, i64, i64))
    requires
        tile.2 <= MAX_ZOOM,
        tile.0 < i32::MAX,
        tile.1 < i32::MAX,
        edge_in_reach(tile.0 as int, tile.2 as int),
        edge_in_reach(tile.0 + 1, tile.2 as int),
        edge_in_reach(tile.1 as int, tile.2 as int),
        edge_in_reach(tile.1 + 1, tile.2 as int),
    ensures
        bbox.0 == tile.0 * span(tile.2 as int),
        bbox.1 == (tile.1 + 1) * span(tile.2 as int),
        bbox.2 == (tile.0 + 1) * span(tile.2 as int),
        bbox.3 == tile.1 * span(tile.2 as int),
        bbox.0 < bbox.2,
        bbox.3 < bbox.1,
{
    proof {
        lemma_span(tile.2 as int);
        let c = span(tile.2 as int);
        assert((tile.0 + 1) * c == tile.0 * c + c) by (nonlinear_arith);
        assert((tile.1 + 1) * c == tile.1 * c + c) by (nonlinear_arith);
    }
    (
        tile_to_lon(tile.0, tile.2),
        tile_to_lat(tile.1 + 1, tile.2),
        tile_to_lon(tile.0 + 1, tile.2),
        tile_to_lat(tile.1, tile.2),
    )
}

/// A tile's square holds exactly the places whose tile it is: `v` lies
/// between edge `i` and edge `i + 1` if and only if `i` is the index of the
/// tile that holds `v`.
pub proof fn lemma_tile_holds(v: int, i: int, z: int)
    requires
        0 <= z <= MAX_ZOOM,
    ensures
        tile_index(v, z) == i <==> i * span(z) <= v < (i + 1) * span(z),
{
    lemma_span(z);
    let c = span(z);
    assert(v / c == i <==> i * c <= v < (i + 1) * c) by (nonlinear_arith)
        requires
            c > 0,
    ;
}

/// The y nearest to `y` that lies in a row of 32-bit index at zoom `z`:
/// `y` itself where it lies in one, else the y at the near end of the
/// outermost row on its side.
pub fn fit_row(y: i64, z: u8) -> (r: i64)
    requires
        z <= MAX_ZOOM,
    ensures
        fits(r as int, z as int),
        fits(y as int, z as int) ==> r == y,
        tile_index(y as int, z as int) < i32::MIN ==> r == i32::MIN * span(z as int),
        tile_index(y as int, z as int) > i32::MAX ==> r == (i32::MAX + 1) * span(z as int) - 1,
{
    let c = tile_span(z);
    proof {
        lemma_span(z as int);
        lemma2_to64();
        lemma2_to64_rest();
    }
    if z <= 20 {
        proof {
            if z < 20 {
                lemma_pow2_strictly_increases(32, (WORLD_BITS - z) as nat);
            }
            let q = (y as int) / (c as int);
            lemma_tile_holds(y as int, q, z as int);
            assert(-0x8000_0000 <= q <= 0x7fff_ffff) by (nonlinear_arith)
                requires
                    c >= 0x1_0000_0000,
                    q * c <= y < (q + 1) * c,
                    -0x8000_0000_0000_0000 <= y < 0x8000_0000_0000_0000,
            ;
        }
        y
    } else {
        proof {
            if z > 21 {
                lemma_pow2_strictly_increases((WORLD_BITS - z) as nat, 31);
            }
        }
        let low: i64 = -0x8000_0000 * c;
        let high: i64 = 0x8000_0000 * c - 1;
        proof {
            lemma_tile_holds(low as int, i32::MIN as int, z as int);
            lemma_tile_holds(high as int, i32::MAX as int, z as int);
            lemma_tile_holds(y as int, (y as int) / (c as int), z as int);
            let q = (y as int) / (c as int);
            assert(y < low ==> q < -0x8000_0000) by (nonlinear_arith)
                requires
                    c > 0,
                    low == -0x8000_0000 * c,
                    q * c <= y < (q + 1) * c,
            ;
            assert(y > high ==> q > 0x7fff_ffff) by (nonlinear_arith)
                requires
                    c > 0,
                    high == 0x8000_0000 * c - 1,
                    q * c <= y < (q + 1) * c,
            ;
            assert(low <= y <= high ==> -0x8000_0000 <= q <= 0x7fff_ffff) by (nonlinear_arith)
                requires
                    c > 0,
                    low == -0x8000_0000 * c,
                    high == 0x8000_0000 * c - 1,
                    q * c <= y < (q + 1) * c,
            ;
        }
        if y < low {
            low
        } else if y > high {
            high
        } else {
            y
        }
    }
}

} // verus!
