use std::f64::consts::PI;

use tilecover::{tiles, Coordinate, Error, Geometry, LineString, Polygon};

const WORLD_WIDTH: f64 = 4503599627370496.0;

fn to_world(lon: f64, lat: f64) -> Coordinate {
    let sin = (lat * (PI / 180.0)).sin();
    let u = lon / 360.0 + 0.5;
    let v = 0.5 - 0.25 * ((1.0 + sin) / (1.0 - sin)).ln() / PI;
    Coordinate { x: (u * WORLD_WIDTH).floor() as i64, y: (v * WORLD_WIDTH).floor() as i64 }
}

// A point is given as (x, y); its tile is looked up with y for the
// longitude and x for the latitude.
fn point_at(x: f64, y: f64) -> Coordinate {
    to_world(y, x)
}

fn path(vertices: &[(f64, f64)]) -> LineString {
    LineString(vertices.iter().map(|v| to_world(v.0, v.1)).collect())
}

fn closed(vertices: &[(f64, f64)]) -> LineString {
    let mut ring = path(vertices);
    if ring.0.first() != ring.0.last() {
        let first = ring.0[0];
        ring.0.push(first);
    }
    ring
}

#[test]
fn test_point() {
    let geom = Geometry::Point(point_at(-77.15664982795715, 38.87419791355846));
    assert_eq!(tiles(&geom, 1).unwrap(), vec![(1, 1, 1)]);
    assert_eq!(tiles(&geom, 2).unwrap(), vec![(2, 3, 2)]);
    assert_eq!(tiles(&geom, 3).unwrap(), vec![(4, 6, 3)]);
    assert_eq!(tiles(&geom, 4).unwrap(), vec![(9, 13, 4)]);
}

#[test]
fn test_points() {
    let geom = Geometry::MultiPoint(vec![
        point_at(-84.48486328124999, 43.40504748787035),
        point_at(-90.87890625, 39.90973623453719),
        point_at(-84.55078125, 43.45291889355468),
        point_at(-90.8349609375, 39.93711893299021),
    ]);
    assert_eq!(tiles(&geom, 1).unwrap(), vec![(1, 1, 1), (1, 2, 1)]);
    assert_eq!(tiles(&geom, 2).unwrap(), vec![(2, 3, 2), (2, 5, 2)]);
    assert_eq!(tiles(&geom, 3).unwrap(), vec![(4, 7, 3), (4, 10, 3)]);
    assert_eq!(tiles(&geom, 4).unwrap(), vec![(9, 15, 4), (9, 20, 4)]);
}

#[test]
fn test_line() {
    let geom = Geometry::LineString(path(&[
        (-106.21719360351562, 28.592359801121567),
        (-106.1004638671875, 28.791130513231813),
        (-105.87661743164062, 28.864519767126602),
        (-105.82374572753905, 28.60743139267596),
    ]));
    assert_eq!(tiles(&geom, 12).unwrap(), vec![
        (839, 1707, 12),
        (839, 1708, 12),
        (840, 1705, 12),
        (840, 1706, 12),
        (840, 1707, 12),
        (841, 1705, 12),
        (842, 1704, 12),
        (842, 1705, 12),
        (843, 1704, 12),
        (843, 1705, 12),
        (843, 1706, 12),
        (843, 1707, 12),
        (843, 1708, 12),
    ]);
}

#[test]
fn test_line_2() {
    let geom = Geometry::LineString(path(&[
        (-79.37619924545288, 38.8345346107744),
        (-79.37287330627441, 38.83762675779815),
        (-79.37230467796326, 38.83820338656929),
        (-79.37211155891418, 38.83878001066818),
    ]));
    assert_eq!(tiles(&geom, 14).unwrap(), vec![
        (4579, 6271, 14),
    ]);
}

#[test]
fn test_edge_line() {
    let geom = Geometry::LineString(path(&[
        (-80.160384, 32.766901),
        (-80.160216, 32.766845),
        (-80.159659, 32.766722),
        (-80.159356, 32.766633),
        (-80.159196, 32.766586),
        (-80.159096, 32.766571),
        (-80.159016, 32.766569),
        (-80.158947, 32.766581),
        (-80.158637, 32.766668),
        (-80.158527, 32.766691),
        (-80.158433, 32.766697),
        (-80.158367, 32.76669),
        (-80.158116, 32.766641),
        (-80.157565, 32.766507),
        (-80.157183, 32.766389),
        (-80.156946, 32.76633),
        (-80.156748, 32.766298),
        (-80.156657, 32.766279),
        (-80.156492, 32.766253),
        (-80.15626, 32.766181),
        (-80.156216, 32.766155),
        (-80.156166, 32.766118),
        (-80.156148, 32.7661),
        (-80.156125, 32.766052),
        (-80.156122, 32.766012),
        (-80.156131, 32.765974),
        (-80.156179, 32.765905),
        (-80.156198, 32.765856),
        (-80.15621, 32.765807),
        (-80.15625, 32.76548),
        (-80.156249, 32.765323),
        (-80.156235, 32.765284),
        (-80.156215, 32.765256),
        (-80.156181, 32.765226),
    ]));
    assert_eq!(tiles(&geom, 14).unwrap(), vec![
        (4543, 6612, 14),
        (4544, 6612, 14),
    ]);
}

#[test]
fn test_multiline() {
    let geom = Geometry::MultiLineString(vec![
        path(&[

        ]),
        path(&[
            (11.3818359375, 51.15178610143037),
            (7.998046875, 50.0077390146369),
            (10.458984375, 49.18170338770663),
            (5.2734375, 46.6795944656402),
        ]),
        path(&[
            (0.263671875, 49.15296965617042),
            (3.076171875, 50.0077390146369),
            (3.6474609374999996, 48.60385760823255),
            (4.7900390625, 49.095452162534826),
            (6.328125, 48.48748647988415),
            (10.1513671875, 48.07807894349862),
            (12.392578125, 46.46813299215554),
        ]),
    ]);
    assert_eq!(tiles(&geom, 8).unwrap(), vec![
        (128, 87, 8),
        (129, 86, 8),
        (129, 87, 8),
        (130, 86, 8),
        (130, 87, 8),
        (130, 88, 8),
        (131, 87, 8),
        (131, 88, 8),
        (131, 90, 8),
        (132, 88, 8),
        (132, 89, 8),
        (132, 90, 8),
        (133, 86, 8),
        (133, 88, 8),
        (133, 89, 8),
        (134, 86, 8),
        (134, 87, 8),
        (134, 88, 8),
        (135, 85, 8),
        (135, 86, 8),
        (135, 87, 8),
        (135, 88, 8),
        (135, 89, 8),
        (136, 85, 8),
        (136, 89, 8),
        (136, 90, 8),
    ]);
}

#[test]
fn test_polygon() {
    let geom = Geometry::Polygon(Polygon {
        exterior: closed(&[
            (5.11962890625, 20.46818922264095),
            (5.11962890625, 20.7663868125152),
            (5.504150390625, 20.7663868125152),
            (5.504150390625, 20.46818922264095),
            (5.11962890625, 20.46818922264095),
        ]),
        interiors: vec![],
    });
    assert_eq!(tiles(&geom, 8).unwrap(), vec![
        (131, 112, 8),
        (131, 113, 8),
    ]);
}

#[test]
fn test_polygon_building() {
    let geom = Geometry::Polygon(Polygon {
        exterior: closed(&[
            (-77.15269088745116, 38.87153962460514),
            (-77.1521383523941, 38.871322446566325),
            (-77.15196132659912, 38.87159391901113),
            (-77.15202569961546, 38.87162315444336),
            (-77.1519023180008, 38.87179021382536),
            (-77.15266406536102, 38.8727758561868),
            (-77.1527713537216, 38.87274662122871),
            (-77.15282499790192, 38.87282179681094),
            (-77.15323269367218, 38.87267562199469),
            (-77.15313613414764, 38.87254197618533),
            (-77.15270698070526, 38.87236656567917),
            (-77.1523904800415, 38.87198233162923),
            (-77.15269088745116, 38.87153962460514),
        ]),
        interiors: vec![],
    });
    assert_eq!(tiles(&geom, 18).unwrap(), vec![
        (74890, 100305, 18),
        (74891, 100305, 18),
        (74891, 100306, 18),
    ]);
}

#[test]
fn test_polygon_donut() {
    let geom = Geometry::Polygon(Polygon {
        exterior: closed(&[
            (-76.165286, 45.479514),
            (-76.140095, 45.457437),
            (-76.162348, 45.444872),
            (-76.168656, 45.441087),
            (-76.201963, 45.420225),
            (-76.213668, 45.429276),
            (-76.214261, 45.429917),
            (-76.227477, 45.440383),
            (-76.263056, 45.467983),
            (-76.245084, 45.468609),
            (-76.240206, 45.471202),
            (-76.238518, 45.475254),
            (-76.233483, 45.507829),
            (-76.227816, 45.511836),
            (-76.212117, 45.51623),
            (-76.191776, 45.50154),
            (-76.174016, 45.486911),
            (-76.165286, 45.479514),
        ]),
        interiors: vec![
            closed(&[
                (-76.227618, 45.489247),
                (-76.232113, 45.486983),
                (-76.232151, 45.486379),
                (-76.231812, 45.485106),
                (-76.230698, 45.483236),
                (-76.225664, 45.477365),
                (-76.223568, 45.475174),
                (-76.202829, 45.458815),
                (-76.200229, 45.458822),
                (-76.199069, 45.459164),
                (-76.188361, 45.465784),
                (-76.204505, 45.479018),
                (-76.215555, 45.488534),
                (-76.220249, 45.492175),
                (-76.221154, 45.493315),
                (-76.22631, 45.490189),
                (-76.226543, 45.489754),
                (-76.227618, 45.489247),
            ]),
        ],
    });
    assert_eq!(tiles(&geom, 16).unwrap(), vec![
        (18884, 23453, 16),
        (18884, 23454, 16),
        (18885, 23453, 16),
        (18885, 23454, 16),
        (18885, 23455, 16),
        (18886, 23453, 16),
        (18886, 23454, 16),
        (18886, 23455, 16),
        (18886, 23456, 16),
        (18887, 23453, 16),
        (18887, 23454, 16),
        (18887, 23455, 16),
        (18887, 23456, 16),
        (18887, 23457, 16),
        (18888, 23452, 16),
        (18888, 23453, 16),
        (18888, 23454, 16),
        (18888, 23455, 16),
        (18888, 23456, 16),
        (18888, 23457, 16),
        (18888, 23458, 16),
        (18889, 23444, 16),
        (18889, 23445, 16),
        (18889, 23446, 16),
        (18889, 23447, 16),
        (18889, 23448, 16),
        (18889, 23449, 16),
        (18889, 23450, 16),
        (18889, 23451, 16),
        (18889, 23452, 16),
        (18889, 23453, 16),
        (18889, 23454, 16),
        (18889, 23455, 16),
        (18889, 23456, 16),
        (18889, 23457, 16),
        (18889, 23458, 16),
        (18889, 23459, 16),
        (18890, 23442, 16),
        (18890, 23443, 16),
        (18890, 23444, 16),
        (18890, 23445, 16),
        (18890, 23446, 16),
        (18890, 23447, 16),
        (18890, 23448, 16),
        (18890, 23449, 16),
        (18890, 23450, 16),
        (18890, 23451, 16),
        (18890, 23452, 16),
        (18890, 23453, 16),
        (18890, 23454, 16),
        (18890, 23455, 16),
        (18890, 23456, 16),
        (18890, 23457, 16),
        (18890, 23458, 16),
        (18890, 23459, 16),
        (18890, 23460, 16),
        (18891, 23442, 16),
        (18891, 23443, 16),
        (18891, 23444, 16),
        (18891, 23445, 16),
        (18891, 23446, 16),
        (18891, 23447, 16),
        (18891, 23448, 16),
        (18891, 23450, 16),
        (18891, 23451, 16),
        (18891, 23452, 16),
        (18891, 23453, 16),
        (18891, 23454, 16),
        (18891, 23455, 16),
        (18891, 23456, 16),
        (18891, 23457, 16),
        (18891, 23458, 16),
        (18891, 23459, 16),
        (18891, 23460, 16),
        (18891, 23461, 16),
        (18891, 23462, 16),
        (18892, 23441, 16),
        (18892, 23442, 16),
        (18892, 23443, 16),
        (18892, 23444, 16),
        (18892, 23445, 16),
        (18892, 23446, 16),
        (18892, 23447, 16),
        (18892, 23448, 16),
        (18892, 23452, 16),
        (18892, 23453, 16),
        (18892, 23454, 16),
        (18892, 23455, 16),
        (18892, 23456, 16),
        (18892, 23457, 16),
        (18892, 23458, 16),
        (18892, 23459, 16),
        (18892, 23460, 16),
        (18892, 23461, 16),
        (18892, 23462, 16),
        (18892, 23463, 16),
        (18893, 23441, 16),
        (18893, 23442, 16),
        (18893, 23443, 16),
        (18893, 23444, 16),
        (18893, 23445, 16),
        (18893, 23446, 16),
        (18893, 23447, 16),
        (18893, 23448, 16),
        (18893, 23449, 16),
        (18893, 23453, 16),
        (18893, 23454, 16),
        (18893, 23455, 16),
        (18893, 23456, 16),
        (18893, 23457, 16),
        (18893, 23458, 16),
        (18893, 23459, 16),
        (18893, 23460, 16),
        (18893, 23461, 16),
        (18893, 23462, 16),
        (18893, 23463, 16),
        (18893, 23464, 16),
        (18894, 23441, 16),
        (18894, 23442, 16),
        (18894, 23443, 16),
        (18894, 23444, 16),
        (18894, 23445, 16),
        (18894, 23446, 16),
        (18894, 23447, 16),
        (18894, 23448, 16),
        (18894, 23449, 16),
        (18894, 23450, 16),
        (18894, 23454, 16),
        (18894, 23455, 16),
        (18894, 23456, 16),
        (18894, 23457, 16),
        (18894, 23458, 16),
        (18894, 23459, 16),
        (18894, 23460, 16),
        (18894, 23461, 16),
        (18894, 23462, 16),
        (18894, 23463, 16),
        (18894, 23464, 16),
        (18894, 23465, 16),
        (18895, 23442, 16),
        (18895, 23443, 16),
        (18895, 23444, 16),
        (18895, 23445, 16),
        (18895, 23446, 16),
        (18895, 23447, 16),
        (18895, 23448, 16),
        (18895, 23449, 16),
        (18895, 23450, 16),
        (18895, 23451, 16),
        (18895, 23455, 16),
        (18895, 23456, 16),
        (18895, 23457, 16),
        (18895, 23458, 16),
        (18895, 23459, 16),
        (18895, 23460, 16),
        (18895, 23461, 16),
        (18895, 23462, 16),
        (18895, 23463, 16),
        (18895, 23464, 16),
        (18895, 23465, 16),
        (18895, 23466, 16),
        (18896, 23443, 16),
        (18896, 23444, 16),
        (18896, 23445, 16),
        (18896, 23446, 16),
        (18896, 23447, 16),
        (18896, 23448, 16),
        (18896, 23449, 16),
        (18896, 23450, 16),
        (18896, 23451, 16),
        (18896, 23452, 16),
        (18896, 23455, 16),
        (18896, 23456, 16),
        (18896, 23457, 16),
        (18896, 23458, 16),
        (18896, 23459, 16),
        (18896, 23460, 16),
        (18896, 23461, 16),
        (18896, 23462, 16),
        (18896, 23463, 16),
        (18896, 23464, 16),
        (18896, 23465, 16),
        (18896, 23466, 16),
        (18897, 23444, 16),
        (18897, 23445, 16),
        (18897, 23446, 16),
        (18897, 23447, 16),
        (18897, 23448, 16),
        (18897, 23449, 16),
        (18897, 23450, 16),
        (18897, 23451, 16),
        (18897, 23452, 16),
        (18897, 23453, 16),
        (18897, 23454, 16),
        (18897, 23455, 16),
        (18897, 23456, 16),
        (18897, 23457, 16),
        (18897, 23458, 16),
        (18897, 23459, 16),
        (18897, 23460, 16),
        (18897, 23461, 16),
        (18897, 23462, 16),
        (18897, 23463, 16),
        (18897, 23464, 16),
        (18897, 23465, 16),
        (18898, 23445, 16),
        (18898, 23446, 16),
        (18898, 23447, 16),
        (18898, 23448, 16),
        (18898, 23449, 16),
        (18898, 23450, 16),
        (18898, 23451, 16),
        (18898, 23452, 16),
        (18898, 23453, 16),
        (18898, 23454, 16),
        (18898, 23455, 16),
        (18898, 23456, 16),
        (18898, 23457, 16),
        (18898, 23458, 16),
        (18898, 23459, 16),
        (18898, 23460, 16),
        (18898, 23461, 16),
        (18898, 23462, 16),
        (18898, 23463, 16),
        (18898, 23464, 16),
        (18899, 23446, 16),
        (18899, 23447, 16),
        (18899, 23448, 16),
        (18899, 23449, 16),
        (18899, 23450, 16),
        (18899, 23451, 16),
        (18899, 23452, 16),
        (18899, 23453, 16),
        (18899, 23454, 16),
        (18899, 23455, 16),
        (18899, 23456, 16),
        (18899, 23457, 16),
        (18899, 23458, 16),
        (18899, 23459, 16),
        (18899, 23460, 16),
        (18899, 23461, 16),
        (18899, 23462, 16),
        (18899, 23463, 16),
        (18900, 23447, 16),
        (18900, 23448, 16),
        (18900, 23449, 16),
        (18900, 23450, 16),
        (18900, 23451, 16),
        (18900, 23452, 16),
        (18900, 23453, 16),
        (18900, 23454, 16),
        (18900, 23455, 16),
        (18900, 23456, 16),
        (18900, 23457, 16),
        (18900, 23458, 16),
        (18900, 23459, 16),
        (18900, 23460, 16),
        (18900, 23461, 16),
        (18900, 23462, 16),
        (18901, 23449, 16),
        (18901, 23450, 16),
        (18901, 23451, 16),
        (18901, 23452, 16),
        (18901, 23453, 16),
        (18901, 23454, 16),
        (18901, 23455, 16),
        (18901, 23456, 16),
        (18901, 23457, 16),
        (18901, 23458, 16),
        (18901, 23459, 16),
        (18901, 23460, 16),
        (18901, 23461, 16),
        (18902, 23450, 16),
        (18902, 23451, 16),
        (18902, 23452, 16),
        (18902, 23453, 16),
        (18902, 23454, 16),
        (18902, 23455, 16),
        (18902, 23456, 16),
        (18902, 23457, 16),
        (18902, 23458, 16),
        (18902, 23459, 16),
        (18902, 23460, 16),
        (18903, 23451, 16),
        (18903, 23452, 16),
        (18903, 23453, 16),
        (18903, 23454, 16),
        (18903, 23455, 16),
        (18903, 23456, 16),
        (18903, 23457, 16),
        (18903, 23458, 16),
        (18903, 23459, 16),
        (18903, 23460, 16),
        (18904, 23452, 16),
        (18904, 23453, 16),
        (18904, 23454, 16),
        (18904, 23455, 16),
        (18904, 23456, 16),
        (18904, 23457, 16),
        (18904, 23458, 16),
        (18904, 23459, 16),
        (18905, 23454, 16),
        (18905, 23455, 16),
        (18905, 23456, 16),
        (18905, 23457, 16),
        (18905, 23458, 16),
        (18906, 23455, 16),
        (18906, 23456, 16),
        (18906, 23457, 16),
        (18907, 23456, 16),
    ]);
}

#[test]
fn line_is_not_supported() {
    let geom = Geometry::Line(to_world(0.0, 0.0), to_world(1.0, 1.0));
    assert_eq!(tiles(&geom, 4), Err(Error::GeomTypeNotSupported));
}

#[test]
fn collection_is_not_supported() {
    let geom = Geometry::GeometryCollection(vec![Geometry::Point(to_world(0.0, 0.0))]);
    assert_eq!(tiles(&geom, 4), Err(Error::GeomTypeNotSupported));
}
