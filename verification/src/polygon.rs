//! Tiles covered by an area: the tiles that its rings cross, and the tiles
//! between them.
//!
//! The tiles inside are found row by row. Each ring gives a sample of the
//! tiles with which its walk enters a row. Of these, the ones where the ring
//! truly passes from one row to the next are its crossings. The crossings of
//! all rings, sorted by row and column, are taken two by two: the tiles
//! between the two crossings of a pair are inside.

use vstd::prelude::*;
use crate::geometry::{Coordinate, LineString, Polygon};
use crate::line::{line_cover, line_tiles, pairs, path_fits, paths_tiles, rows_entered, stamp, trimmed};
use crate::order::{row_le, sort_by_row};
use crate::world::MAX_ZOOM;

verus! {

/// The ring sample of a closed path at zoom `z`: the tiles with which its
/// walk enters a row, trimmed.
pub open spec fn ring_sample(pts: Seq<Coordinate>, z: u8) -> Seq<(i32, i32)> {
    trimmed(pairs(rows_entered(line_tiles(pts, z as int))))
}

/// Index of the entry before entry `j` on a ring of `len` entries.
pub open spec fn before(j: int, len: int) -> int {
    if j == 0 {
        len - 1
    } else {
        j - 1
    }
}

/// Index of the entry after entry `j` on a ring of `len` entries.
pub open spec fn after(j: int, len: int) -> int {
    if j + 1 == len {
        0
    } else {
        j + 1
    }
}

/// Whether entry `j` of a ring sample is a crossing: its row is neither
/// below both neighbours' rows nor above both, and is not the row of the
/// entry after it.
pub open spec fn is_crossing(ring: Seq<(i32, i32)>, j: int) -> bool {
    let y = ring[j].1;
    let k = ring[before(j, ring.len() as int)].1;
    let m = ring[after(j, ring.len() as int)].1;
    (y > k || y > m) && (y < k || y < m) && y != m
}

/// The crossings among the first `n` entries of a ring sample, in order.
pub open spec fn crossings_upto(ring: Seq<(i32, i32)>, n: nat) -> Seq<(i32, i32)>
    decreases n,
{
    if n == 0 {
        Seq::empty()
    } else {
        let found = crossings_upto(ring, (n - 1) as nat);
        if is_crossing(ring, n - 1) {
            found.push(ring[n - 1])
        } else {
            found
        }
    }
}

/// The crossings of a ring sample, in order.
pub open spec fn crossings(ring: Seq<(i32, i32)>) -> Seq<(i32, i32)> {
    crossings_upto(ring, ring.len())
}

/// The tiles strictly between crossing `a` and crossing `b`, in the row of
/// `a`, from west to east.
pub open spec fn infill(a: (i32, i32), b: (i32, i32), z: u8) -> Seq<(i32, i32, u8)> {
    if a.0 < b.0 {
        Seq::new((b.0 - a.0 - 1) as nat, |i: int| ((a.0 + 1 + i) as i32, a.1, z))
    } else {
        Seq::empty()
    }
}

/// The tiles between the crossings of the first `n` pairs of a sorted list
/// of crossings.
pub open spec fn filled_upto(sorted: Seq<(i32, i32)>, n: nat, z: u8) -> Seq<(i32, i32, u8)>
    decreases n,
{
    if n == 0 {
        Seq::empty()
    } else {
        filled_upto(sorted, (n - 1) as nat, z) + infill(sorted[2 * n - 2], sorted[2 * n - 1], z)
    }
}

/// The tiles between the crossings of each pair of a sorted list of
/// crossings. A last crossing without a partner gives nothing.
pub open spec fn filled(sorted: Seq<(i32, i32)>, z: u8) -> Seq<(i32, i32, u8)> {
    filled_upto(sorted, sorted.len() / 2, z)
}

/// The crossings of the first `n` of the rings, one ring after the other.
pub open spec fn border_crossings(rings: Seq<Seq<Coordinate>>, n: nat, z: u8) -> Seq<(i32, i32)>
    decreases n,
{
    if n == 0 {
        Seq::empty()
    } else {
        border_crossings(rings, (n - 1) as nat, z) + crossings(ring_sample(rings[n - 1], z))
    }
}

/// The tiles of an area with the given rings at zoom `z`: those that its
/// rings cross, and then those between its crossings.
pub open spec fn poly_tiles(rings: Seq<Seq<Coordinate>>, z: u8) -> Seq<(i32, i32, u8)> {
    paths_tiles(rings, rings.len(), z) + filled(
        border_crossings(rings, rings.len(), z).sort_by(|a: (i32, i32), b: (i32, i32)| row_le(a, b)),
        z,
    )
}

/// Whether every ring fits the rows of zoom `z`.
pub open spec fn rings_fit(rings: Seq<Seq<Coordinate>>, z: int) -> bool {
    forall|i: int| 0 <= i < rings.len() ==> path_fits(#[trigger] rings[i], z)
}

/// Appends to `tiles` the tiles that a ring crosses, and to `intersections`
/// the crossings of its sample.
pub fn poly_cover_single(
    intersections: &mut Vec<(i32, i32)>,
    tiles: &mut Vec<(i32, i32, u8)>,
    linestring: &LineString,
    zoom: u8,
)
    requires
        zoom <= MAX_ZOOM,
        path_fits(linestring@, zoom as int),
    ensures
        final(tiles)@ == old(tiles)@ + stamp(line_tiles(linestring@, zoom as int), zoom),
        final(intersections)@ == old(intersections)@ + crossings(ring_sample(linestring@, zoom)),
{
    let ghost found_before = intersections@;
    let mut ring: Vec<(i32, i32)> = Vec::new();
    line_cover(tiles, linestring, zoom, Some(&mut ring));
    assert(ring@ == ring_sample(linestring@, zoom)) by {
        assert(Seq::<(i32, i32)>::empty() + pairs(rows_entered(line_tiles(linestring@, zoom as int)))
            =~= pairs(rows_entered(line_tiles(linestring@, zoom as int))));
    }
    let len = ring.len();
    if len > 0 {
        let mut j: usize = 0;
        let mut k: usize = len - 1;
        assert(found_before + crossings_upto(ring@, 0) =~= found_before);
        while j < len
            invariant
                len == ring.len(),
                len > 0,
                j <= len,
                k == before(j as int, len as int),
                intersections@ == found_before + crossings_upto(ring@, j as nat),
            decreases len - j,
        {
            let m = if j + 1 == len { 0 } else { j + 1 };
            let y = ring[j].1;
            if (y > ring[k].1 || y > ring[m].1) && (y < ring[k].1 || y < ring[m].1) && y != ring[m].1 {
                assert(is_crossing(ring@, j as int));
                assert(found_before + crossings_upto(ring@, j as nat).push(ring@[j as int])
                    =~= (found_before + crossings_upto(ring@, j as nat)).push(ring@[j as int]));
                intersections.push(ring[j]);
            }
            k = j;
            j = j + 1;
        }
    } else {
        assert(found_before + crossings(ring@) =~= found_before);
    }
}

/// Appends to `tiles` the tiles strictly between two crossings.
fn fill_between(tiles: &mut Vec<(i32, i32, u8)>, a: (i32, i32), b: (i32, i32), zoom: u8)
    ensures
        final(tiles)@ == old(tiles)@ + infill(a, b, zoom),
{
    let ghost start = tiles@;
    if a.0 < b.0 {
        let mut x: i32 = a.0 + 1;
        assert(start + infill(a, b, zoom).take(0) =~= start);
        while x < b.0
            invariant
                a.0 < x <= b.0,
                tiles@ == start + infill(a, b, zoom).take(x - a.0 - 1),
            decreases b.0 - x,
        {
            assert(infill(a, b, zoom).take(x - a.0) =~= infill(a, b, zoom).take(x - a.0 - 1).push(
                (x, a.1, zoom),
            ));
            assert(start + infill(a, b, zoom).take(x - a.0 - 1).push((x, a.1, zoom)) =~= (start
                + infill(a, b, zoom).take(x - a.0 - 1)).push((x, a.1, zoom)));
            tiles.push((x, a.1, zoom));
            x = x + 1;
        }
        assert(infill(a, b, zoom).take(b.0 - a.0 - 1) =~= infill(a, b, zoom));
    } else {
        assert(start + infill(a, b, zoom) =~= start);
    }
}

/// Appends to `tiles` the tiles of an area at zoom `zoom`: those that its
/// rings cross, ring by ring, and then those between its crossings.
pub fn poly_cover(tiles: &mut Vec<(i32, i32, u8)>, polygon: &Polygon, zoom: u8)
    requires
        zoom <= MAX_ZOOM,
        rings_fit(polygon.rings(), zoom as int),
    ensures
        final(tiles)@ == old(tiles)@ + poly_tiles(polygon.rings(), zoom),
{
    let ghost base = tiles@;
    let ghost rings = polygon.rings();
    let mut intersections: Vec<(i32, i32)> = Vec::new();

    assert(rings[0] == polygon.exterior@);
    poly_cover_single(&mut intersections, tiles, &polygon.exterior, zoom);
    assert(tiles@ == base + paths_tiles(rings, 1, zoom)) by {
        assert(paths_tiles(rings, 0, zoom) + stamp(line_tiles(rings[0], zoom as int), zoom)
            =~= stamp(line_tiles(rings[0], zoom as int), zoom));
    }
    assert(intersections@ == border_crossings(rings, 1, zoom)) by {
        assert(border_crossings(rings, 0, zoom) + crossings(ring_sample(rings[0], zoom))
            =~= crossings(ring_sample(rings[0], zoom)));
        assert(Seq::<(i32, i32)>::empty() + crossings(ring_sample(rings[0], zoom))
            =~= crossings(ring_sample(rings[0], zoom)));
    }

    let holes = polygon.interiors.len();
    let mut h: usize = 0;
    while h < holes
        invariant
            zoom <= MAX_ZOOM,
            rings == polygon.rings(),
            rings_fit(rings, zoom as int),
            holes == polygon.interiors.len(),
            rings.len() == holes + 1,
            h <= holes,
            tiles@ == base + paths_tiles(rings, (h + 1) as nat, zoom),
            intersections@ == border_crossings(rings, (h + 1) as nat, zoom),
        decreases holes - h,
    {
        assert(rings[h + 1] == polygon.interiors@[h as int]@);
        let ghost tiles_before = tiles@;
        poly_cover_single(&mut intersections, tiles, &polygon.interiors[h], zoom);
        assert(tiles@ == base + paths_tiles(rings, (h + 2) as nat, zoom)) by {
            assert(base + (paths_tiles(rings, (h + 1) as nat, zoom) + stamp(
                line_tiles(rings[h + 1], zoom as int),
                zoom,
            )) =~= tiles_before + stamp(line_tiles(rings[h + 1], zoom as int), zoom));
        }
        h = h + 1;
    }

    sort_by_row(&mut intersections);
    let ghost sorted = intersections@;
    let ghost border = tiles@;
    let n = intersections.len();
    let mut it: usize = 0;
    assert(border + filled_upto(sorted, 0, zoom) =~= border);
    while it + 1 < n
        invariant
            n == intersections.len(),
            intersections@ == sorted,
            it % 2 == 0,
            it <= n,
            tiles@ == border + filled_upto(sorted, (it / 2) as nat, zoom),
        decreases n - it,
    {
        let ghost tiles_before = tiles@;
        fill_between(tiles, intersections[it], intersections[it + 1], zoom);
        assert(tiles@ == border + filled_upto(sorted, (it / 2 + 1) as nat, zoom)) by {
            assert(border + (filled_upto(sorted, (it / 2) as nat, zoom) + infill(
                sorted[it as int],
                sorted[it + 1],
                zoom,
            )) =~= tiles_before + infill(sorted[it as int], sorted[it + 1], zoom));
        }
        it = it + 2;
    }
    assert(it / 2 == sorted.len() / 2);
    assert(base + (paths_tiles(rings, rings.len(), zoom) + filled(sorted, zoom)) =~= border
        + filled(sorted, zoom));
}

} // verus!
