//! The tiles of a shape.

use vstd::prelude::*;
use crate::geometry::{Coordinate, Error, Geometry, LineString, Polygon};
use crate::line::{in_reach, lemma_line_in_reach, lemma_line_touches, line_cover, line_tiles, path_fits, paths_tiles, segment_at, stamp};
use crate::order::{ascending, dedup, lemma_tidy, sort, tidy};
use crate::polygon::{poly_cover, poly_tiles, rings_fit};
use crate::walk::touches;
use crate::world::{MAX_ZOOM, fit_row, fits, point_to_tile, tile_index, wrap};

verus! {

/// The tile of zoom `z` that holds the position `p`.
pub open spec fn point_tile(p: Coordinate, z: u8) -> (i32, i32, u8) {
    (tile_index(wrap(p.x as int), z as int) as i32, tile_index(p.y as int, z as int) as i32, z)
}

/// The elements of a sequence in the order in which each is first seen.
pub open spec fn first_seen<T>(s: Seq<T>) -> Seq<T>
    decreases s.len(),
{
    if s.len() == 0 {
        s
    } else {
        let seen = first_seen(s.drop_last());
        if seen.contains(s.last()) {
            seen
        } else {
            seen.push(s.last())
        }
    }
}

/// The vertex sequences of some paths.
pub open spec fn paths_of(lines: Seq<LineString>) -> Seq<Seq<Coordinate>> {
    lines.map_values(|line: LineString| line@)
}

/// The tiles of the first `n` of some areas, one area after the other.
pub open spec fn areas_tiles(areas: Seq<Polygon>, n: nat, z: u8) -> Seq<(i32, i32, u8)>
    decreases n,
{
    if n == 0 {
        Seq::empty()
    } else {
        areas_tiles(areas, (n - 1) as nat, z) + poly_tiles(areas[n - 1].rings(), z)
    }
}

/// Whether the shape is of a kind that can be covered.
pub open spec fn supported(geom: &Geometry) -> bool {
    !(geom is Line) && !(geom is GeometryCollection)
}

/// Whether every vertex of the shape lies in a row of tiles, at zoom `z`,
/// whose index is a 32-bit integer. Shapes that are not covered fit.
pub open spec fn shape_fits(geom: &Geometry, z: int) -> bool {
    match geom {
        Geometry::Point(p) => fits(p.y as int, z),
        Geometry::MultiPoint(ps) => forall|i: int|
            0 <= i < ps@.len() ==> fits((#[trigger] ps@[i]).y as int, z),
        Geometry::LineString(line) => path_fits(line@, z),
        Geometry::MultiLineString(lines) => forall|i: int|
            0 <= i < lines@.len() ==> path_fits((#[trigger] lines@[i])@, z),
        Geometry::Polygon(area) => rings_fit(area.rings(), z),
        Geometry::MultiPolygon(areas) => forall|i: int|
            0 <= i < areas@.len() ==> rings_fit((#[trigger] areas@[i]).rings(), z),
        _ => true,
    }
}

/// Whether the tiles of the shape come in ascending order: they do for
/// paths and areas, and for points they come as the points do.
pub open spec fn ordered(geom: &Geometry) -> bool {
    geom is LineString || geom is MultiLineString || geom is Polygon || geom is MultiPolygon
}

/// The tiles of a shape at zoom `z`. Of points, the tile of each, in the
/// order in which the tiles are first seen. Of paths and areas, the tiles
/// that they meet or cover, in ascending order, each once.
pub open spec fn cover(geom: &Geometry, z: u8) -> Seq<(i32, i32, u8)> {
    match geom {
        Geometry::Point(p) => seq![point_tile(*p, z)],
        Geometry::MultiPoint(ps) => first_seen(ps@.map_values(|p: Coordinate| point_tile(p, z))),
        Geometry::LineString(line) => tidy(stamp(line_tiles(line@, z as int), z)),
        Geometry::MultiLineString(lines) => tidy(
            paths_tiles(paths_of(lines@), lines@.len(), z),
        ),
        Geometry::Polygon(area) => tidy(poly_tiles(area.rings(), z)),
        Geometry::MultiPolygon(areas) => tidy(areas_tiles(areas@, areas@.len(), z)),
        _ => Seq::empty(),
    }
}

/// Whether `t` is among the tiles in `seen`.
fn holds(seen: &Vec<(i32, i32, u8)>, t: (i32, i32, u8)) -> (found: bool)
    ensures
        found == seen@.contains(t),
{
    let mut i: usize = 0;
    while i < seen.len()
        invariant
            i <= seen.len(),
            forall|k: int| 0 <= k < i ==> seen@[k] != t,
        decreases seen.len() - i,
    {
        let s = seen[i];
        if s.0 == t.0 && s.1 == t.1 && s.2 == t.2 {
            return true;
        }
        i = i + 1;
    }
    false
}

/// First-seen order holds no element twice.
pub proof fn lemma_first_seen<T>(s: Seq<T>)
    ensures
        first_seen(s).no_duplicates(),
        forall|t: T| s.contains(t) <==> first_seen(s).contains(t),
    decreases s.len(),
{
    if s.len() > 0 {
        let front = s.drop_last();
        let seen = first_seen(front);
        let all = first_seen(s);
        lemma_first_seen(front);
        assert forall|t: T| s.contains(t) <==> all.contains(t) by {
            if s.contains(t) {
                let i = choose|i: int| 0 <= i < s.len() && s[i] == t;
                if i < s.len() - 1 {
                    assert(front[i] == t);
                    assert(front.contains(t));
                    assert(seen.contains(t));
                    let k = choose|k: int| 0 <= k < seen.len() && seen[k] == t;
                    assert(all[k] == t);
                } else if !seen.contains(s.last()) {
                    assert(all[all.len() - 1] == t);
                }
            }
            if all.contains(t) {
                let k = choose|k: int| 0 <= k < all.len() && all[k] == t;
                if k < seen.len() {
                    assert(seen[k] == t);
                    assert(seen.contains(t));
                    assert(front.contains(t));
                    let i = choose|i: int| 0 <= i < front.len() && front[i] == t;
                    assert(s[i] == t);
                } else {
                    assert(s[s.len() - 1] == t);
                }
            }
        }
    }
}

/// The tiles of a shape at zoom `zoom`, or the error where the shape is of
/// a kind that is not covered.
pub fn tiles(geom: &Geometry, zoom: u8) -> (out: Result<Vec<(i32, i32, u8)>, Error>)
    requires
        zoom <= MAX_ZOOM,
        shape_fits(geom, zoom as int),
    ensures
        supported(geom) ==> (out matches Ok(v) && v@ == cover(geom, zoom)),
        !supported(geom) ==> out == Err::<Vec<(i32, i32, u8)>, Error>(Error::GeomTypeNotSupported),
        out matches Ok(v) ==> v@.no_duplicates() && (ordered(geom) ==> ascending(v@)),
{
    match geom {
        Geometry::Point(p) => {
            let mut found: Vec<(i32, i32, u8)> = Vec::new();
            found.push(point_to_tile(p.x, p.y, zoom));
            assert(found@ =~= seq![point_tile(*p, zoom)]);
            Ok(found)
        },
        Geometry::MultiPoint(ps) => {
            let mut found: Vec<(i32, i32, u8)> = Vec::new();
            let ghost all = ps@.map_values(|p: Coordinate| point_tile(p, zoom));
            let mut i: usize = 0;
            while i < ps.len()
                invariant
                    zoom <= MAX_ZOOM,
                    i <= ps.len(),
                    all == ps@.map_values(|p: Coordinate| point_tile(p, zoom)),
                    forall|k: int| 0 <= k < ps@.len() ==> fits((#[trigger] ps@[k]).y as int, zoom as int),
                    found@ == first_seen(all.take(i as int)),
                decreases ps.len() - i,
            {
                let p = ps[i];
                assert(fits(ps@[i as int].y as int, zoom as int));
                let tile = point_to_tile(p.x, p.y, zoom);
                assert(all.take(i + 1).drop_last() =~= all.take(i as int));
                assert(all.take(i + 1).last() == tile);
                if !holds(&found, tile) {
                    found.push(tile);
                }
                i = i + 1;
            }
            assert(all.take(ps.len() as int) =~= all);
            proof {
                lemma_first_seen(all);
            }
            Ok(found)
        },
        Geometry::LineString(line) => {
            let mut found: Vec<(i32, i32, u8)> = Vec::new();
            line_cover(&mut found, line, zoom, None);
            assert(found@ =~= stamp(line_tiles(line@, zoom as int), zoom));
            proof {
                lemma_tidy(found@);
            }
            sort(&mut found);
            dedup(&mut found);
            Ok(found)
        },
        Geometry::MultiLineString(lines) => {
            let mut found: Vec<(i32, i32, u8)> = Vec::new();
            let ghost paths = paths_of(lines@);
            let mut i: usize = 0;
            while i < lines.len()
                invariant
                    zoom <= MAX_ZOOM,
                    i <= lines.len(),
                    paths == paths_of(lines@),
                    forall|k: int| 0 <= k < lines@.len() ==> path_fits((#[trigger] lines@[k])@, zoom as int),
                    found@ == paths_tiles(paths, i as nat, zoom),
                decreases lines.len() - i,
            {
                assert(path_fits(lines@[i as int]@, zoom as int));
                assert(paths[i as int] == lines@[i as int]@);
                line_cover(&mut found, &lines[i], zoom, None);
                i = i + 1;
            }
            proof {
                lemma_tidy(found@);
            }
            sort(&mut found);
            dedup(&mut found);
            Ok(found)
        },
        Geometry::Polygon(area) => {
            let mut found: Vec<(i32, i32, u8)> = Vec::new();
            poly_cover(&mut found, area, zoom);
            assert(found@ =~= poly_tiles(area.rings(), zoom));
            proof {
                lemma_tidy(found@);
            }
            sort(&mut found);
            dedup(&mut found);
            Ok(found)
        },
        Geometry::MultiPolygon(areas) => {
            let mut found: Vec<(i32, i32, u8)> = Vec::new();
            let mut i: usize = 0;
            while i < areas.len()
                invariant
                    zoom <= MAX_ZOOM,
                    i <= areas.len(),
                    forall|k: int| 0 <= k < areas@.len() ==> rings_fit((#[trigger] areas@[k]).rings(), zoom as int),
                    found@ == areas_tiles(areas@, i as nat, zoom),
                decreases areas.len() - i,
            {
                assert(rings_fit(areas@[i as int].rings(), zoom as int));
                poly_cover(&mut found, &areas[i], zoom);
                i = i + 1;
            }
            proof {
                lemma_tidy(found@);
            }
            sort(&mut found);
            dedup(&mut found);
            Ok(found)
        },
        _ => Err(Error::GeomTypeNotSupported),
    }
}

/// Every tile of the cover of a path holds, its border included, a point of
/// the path.
pub proof fn lemma_path_cover_touches(line: LineString, z: u8, t: (i32, i32, u8))
    requires
        z <= MAX_ZOOM,
        path_fits(line@, z as int),
        cover(&Geometry::LineString(line), z).contains(t),
    ensures
        t.2 == z,
        exists|i: int|
            0 <= i < line@.len() - 1 && touches(
                #[trigger] segment_at(line@, i, z as int),
                t.0 as int,
                t.1 as int,
            ),
{
    let trail = line_tiles(line@, z as int);
    let stamped = stamp(trail, z);
    lemma_tidy(stamped);
    assert(stamped.contains(t));
    let k = choose|k: int| 0 <= k < stamped.len() && stamped[k] == t;
    lemma_line_in_reach(line@, z as int);
    assert(in_reach(trail[k]));
    lemma_line_touches(line@, z as int, k);
}

/// Whether y lies in a row of 32-bit index at zoom `zoom`.
fn row_fits(y: i64, zoom: u8) -> (ok: bool)
    requires
        zoom <= MAX_ZOOM,
    ensures
        ok == fits(y as int, zoom as int),
{
    fit_row(y, zoom) == y
}

fn line_fits(line: &LineString, zoom: u8) -> (ok: bool)
    requires
        zoom <= MAX_ZOOM,
    ensures
        ok == path_fits(line@, zoom as int),
{
    let mut i: usize = 0;
    while i < line.0.len()
        invariant
            zoom <= MAX_ZOOM,
            i <= line.0.len(),
            forall|k: int| 0 <= k < i ==> fits((#[trigger] line@[k]).y as int, zoom as int),
        decreases line.0.len() - i,
    {
        if !row_fits(line.0[i].y, zoom) {
            return false;
        }
        i = i + 1;
    }
    true
}

fn area_fits(area: &Polygon, zoom: u8) -> (ok: bool)
    requires
        zoom <= MAX_ZOOM,
    ensures
        ok == rings_fit(area.rings(), zoom as int),
{
    if !line_fits(&area.exterior, zoom) {
        assert(area.rings()[0] == area.exterior@);
        return false;
    }
    let mut i: usize = 0;
    while i < area.interiors.len()
        invariant
            zoom <= MAX_ZOOM,
            i <= area.interiors.len(),
            path_fits(area.exterior@, zoom as int),
            forall|k: int| 0 <= k < i ==> path_fits((#[trigger] area.interiors@[k])@, zoom as int),
        decreases area.interiors.len() - i,
    {
        if !line_fits(&area.interiors[i], zoom) {
            assert(area.rings()[i + 1] == area.interiors@[i as int]@);
            return false;
        }
        i = i + 1;
    }
    assert forall|k: int| 0 <= k < area.rings().len() implies path_fits(
        #[trigger] area.rings()[k],
        zoom as int,
    ) by {
        if k > 0 {
            assert(area.rings()[k] == area.interiors@[k - 1]@);
        }
    }
    true
}

/// Whether `tiles` can be asked for the tiles of the shape at zoom `zoom`:
/// the zoom is not beyond `MAX_ZOOM`, and the shape lies in rows of 32-bit
/// index.
pub fn can_cover(geom: &Geometry, zoom: u8) -> (ok: bool)
    ensures
        ok == (zoom <= MAX_ZOOM && shape_fits(geom, zoom as int)),
{
    if zoom > MAX_ZOOM {
        return false;
    }
    match geom {
        Geometry::Point(p) => row_fits(p.y, zoom),
        Geometry::MultiPoint(ps) => {
            let mut i: usize = 0;
            while i < ps.len()
                invariant
                    zoom <= MAX_ZOOM,
                    i <= ps.len(),
                    shape_fits(geom, zoom as int) == (forall|k: int|
                        0 <= k < ps@.len() ==> fits((#[trigger] ps@[k]).y as int, zoom as int)),
                    forall|k: int| 0 <= k < i ==> fits((#[trigger] ps@[k]).y as int, zoom as int),
                decreases ps.len() - i,
            {
                if !row_fits(ps[i].y, zoom) {
                    assert(!fits(ps@[i as int].y as int, zoom as int));
                    return false;
                }
                i = i + 1;
            }
            true
        },
        Geometry::LineString(line) => line_fits(line, zoom),
        Geometry::MultiLineString(lines) => {
            let mut i: usize = 0;
            while i < lines.len()
                invariant
                    zoom <= MAX_ZOOM,
                    i <= lines.len(),
                    shape_fits(geom, zoom as int) == (forall|k: int|
                        0 <= k < lines@.len() ==> path_fits((#[trigger] lines@[k])@, zoom as int)),
                    forall|k: int| 0 <= k < i ==> path_fits((#[trigger] lines@[k])@, zoom as int),
                decreases lines.len() - i,
            {
                if !line_fits(&lines[i], zoom) {
                    assert(!path_fits(lines@[i as int]@, zoom as int));
                    return false;
                }
                i = i + 1;
            }
            true
        },
        Geometry::Polygon(area) => area_fits(area, zoom),
        Geometry::MultiPolygon(areas) => {
            let mut i: usize = 0;
            while i < areas.len()
                invariant
                    zoom <= MAX_ZOOM,
                    i <= areas.len(),
                    shape_fits(geom, zoom as int) == (forall|k: int|
                        0 <= k < areas@.len() ==> rings_fit(
                            (#[trigger] areas@[k]).rings(),
                            zoom as int,
                        )),
                    forall|k: int|
                        0 <= k < i ==> rings_fit((#[trigger] areas@[k]).rings(), zoom as int),
                decreases areas.len() - i,
            {
                if !area_fits(&areas[i], zoom) {
                    assert(!rings_fit(areas@[i as int].rings(), zoom as int));
                    return false;
                }
                i = i + 1;
            }
            true
        },
        _ => true,
    }
}

} // verus!
