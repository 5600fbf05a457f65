use std::f64::consts::PI;

use tilecover::{line_cover, poly_cover, Coordinate, LineString, Polygon};

const SCALE: f64 = 4503599627370496.0;

fn unit(lon: f64, lat: f64) -> (f64, f64) {
    let sin = (lat * (PI / 180.0)).sin();
    (lon / 360.0 + 0.5, 0.5 - 0.25 * ((1.0 + sin) / (1.0 - sin)).ln() / PI)
}

fn in_tiles(lon: f64, lat: f64, zoom: u8) -> (f64, f64) {
    let (u, v) = unit(lon, lat);
    let z2: f64 = (2.0 as f64).powf(zoom as f64);
    let mut x = (z2 * u) % z2;
    if x < 0.0 {
        x = x + z2
    }
    (x, z2 * v)
}

fn fixed(lon: f64, lat: f64) -> Coordinate {
    let (u, v) = unit(lon, lat);
    Coordinate { x: (u * SCALE).floor() as i64, y: (v * SCALE).floor() as i64 }
}

fn first_crossing(d: f64, from: f64, tile: f64) -> f64 {
    if d == 0.0 {
        f64::INFINITY
    } else {
        (((if d > 0.0 { 1.0 } else { 0.0 }) + tile - from) / d).abs()
    }
}

// The walk along a path with positions, distances and crossings held in
// floating point.
fn float_walk(
    tiles: &mut Vec<(i32, i32, u8)>,
    vertices: &[(f64, f64)],
    zoom: u8,
    ring: &mut Vec<(i32, i32)>,
) {
    let mut last: Option<(f64, f64)> = None;
    for pair in vertices.windows(2) {
        let (x0, y0) = in_tiles(pair[0].0, pair[0].1, zoom);
        let (x1, y1) = in_tiles(pair[1].0, pair[1].1, zoom);
        let (dx, dy) = (x1 - x0, y1 - y0);
        if dx == 0.0 && dy == 0.0 {
            continue;
        }
        let sx = if dx > 0.0 { 1.0 } else { -1.0 };
        let sy = if dy > 0.0 { 1.0 } else { -1.0 };
        let (mut x, mut y) = (x0.floor(), y0.floor());
        let mut next_x = first_crossing(dx, x0, x);
        let mut next_y = first_crossing(dy, y0, y);
        let (step_x, step_y) = ((sx / dx).abs(), (sy / dy).abs());
        if last != Some((x, y)) {
            tiles.push((x as i32, y as i32, zoom));
            if last.map(|l| l.1) != Some(y) {
                ring.push((x as i32, y as i32));
            }
            last = Some((x, y));
        }
        while next_x < 1.0 || next_y < 1.0 {
            if next_x < next_y {
                next_x += step_x;
                x += sx;
            } else {
                next_y += step_y;
                y += sy;
            }
            tiles.push((x as i32, y as i32, zoom));
            if last.map(|l| l.1) != Some(y) {
                ring.push((x as i32, y as i32));
            }
            last = Some((x, y));
        }
    }
    if !ring.is_empty() && ring[ring.len() - 1].1 == ring[0].1 {
        ring.pop();
    }
}

fn float_fill(tiles: &mut Vec<(i32, i32, u8)>, rings: &[Vec<(f64, f64)>], zoom: u8) {
    let mut crossings: Vec<(i32, i32)> = Vec::new();
    for vertices in rings {
        let mut ring = Vec::new();
        float_walk(tiles, vertices, zoom, &mut ring);
        let len = ring.len();
        for j in 0..len {
            let k = (j + len - 1) % len;
            let m = (j + 1) % len;
            let y = ring[j].1;
            if (y > ring[k].1 || y > ring[m].1) && (y < ring[k].1 || y < ring[m].1) && y != ring[m].1 {
                crossings.push(ring[j]);
            }
        }
    }
    crossings.sort_by_key(|c| (c.1, c.0));
    for pair in crossings.chunks_exact(2) {
        for x in pair[0].0 + 1..pair[1].0 {
            tiles.push((x, pair[0].1, zoom));
        }
    }
}

struct Dice(u64);

impl Dice {
    fn roll(&mut self) -> f64 {
        self.0 ^= self.0 << 13;
        self.0 ^= self.0 >> 7;
        self.0 ^= self.0 << 17;
        (self.0 >> 11) as f64 / (1u64 << 53) as f64
    }

    fn vertices(&mut self, count: usize, zoom: u8) -> Vec<(f64, f64)> {
        let lon = self.roll() * 340.0 - 170.0;
        let lat = self.roll() * 160.0 - 80.0;
        let spread = 400.0 / (2.0 as f64).powi(zoom as i32);
        (0..count)
            .map(|_| {
                (
                    (lon + (self.roll() - 0.5) * spread).max(-179.9).min(179.9),
                    (lat + (self.roll() - 0.5) * spread).max(-84.0).min(84.0),
                )
            })
            .collect()
    }
}

#[test]
fn paths_agree_with_the_walk_in_floating_point() {
    let mut dice = Dice(0x9E3779B97F4A7C15);
    for round in 0..4000 {
        let zoom = (round % 21) as u8;
        let vertices = dice.vertices(2 + round % 5, zoom);
        let mut expected = Vec::new();
        let mut expected_ring = Vec::new();
        float_walk(&mut expected, &vertices, zoom, &mut expected_ring);
        let mut found = Vec::new();
        let mut ring = Vec::new();
        let path = LineString(vertices.iter().map(|v| fixed(v.0, v.1)).collect());
        line_cover(&mut found, &path, zoom, Some(&mut ring));
        assert_eq!(found, expected, "zoom {} along {:?}", zoom, vertices);
        assert_eq!(ring, expected_ring, "zoom {} along {:?}", zoom, vertices);
    }
}

#[test]
fn areas_agree_with_the_fill_in_floating_point() {
    let mut dice = Dice(0x2545F4914F6CDD1D);
    for round in 0..2000 {
        let zoom = (round % 19) as u8;
        let mut outer = dice.vertices(3 + round % 4, zoom);
        outer.push(outer[0]);
        let mut expected = Vec::new();
        float_fill(&mut expected, &[outer.clone()], zoom);
        let mut found = Vec::new();
        let area = Polygon {
            exterior: LineString(outer.iter().map(|v| fixed(v.0, v.1)).collect()),
            interiors: vec![],
        };
        poly_cover(&mut found, &area, zoom);
        assert_eq!(found, expected, "zoom {} round {:?}", zoom, outer);
    }
}
