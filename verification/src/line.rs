//! Tiles crossed by a path.

use vstd::prelude::*;
use crate::geometry::{Coordinate, LineString};
use crate::walk::{Segment, Walker, heading, holds_point, in_frame, lemma_start_on_grid, lemma_step_x, lemma_step_y, lemma_walk_covers, lemma_walk_touches, on_grid, touches};
use vstd::arithmetic::power2::pow2;
use crate::world::{MAX_ZOOM, WORLD, fits, floor_div, lemma_span, lemma_wrapped_index, point_to_tile_fraction, span, tile_span, wrap};

verus! {

/// The `i`-th segment of a path at zoom `z`: from vertex `i` to the next,
/// each taken at its place on the map, on the grid of tiles of that zoom.
pub open spec fn segment_at(pts: Seq<Coordinate>, i: int, z: int) -> Segment {
    Segment {
        ax: wrap(pts[i].x as int),
        ay: pts[i].y as int,
        bx: wrap(pts[i + 1].x as int),
        by: pts[i + 1].y as int,
        c: span(z),
    }
}

/// The tiles met, one after the other, along the first `n` segments of a
/// path. Each segment that is more than a point gives the tile it starts in,
/// unless the path stands in that tile already, and then the tiles that its
/// walk enters.
pub open spec fn line_trail(pts: Seq<Coordinate>, z: int, n: nat) -> Seq<(int, int)>
    decreases n,
{
    if n == 0 {
        Seq::empty()
    } else {
        let done = line_trail(pts, z, (n - 1) as nat);
        let seg = segment_at(pts, n - 1, z);
        if seg.dx() == 0 && seg.dy() == 0 {
            done
        } else {
            arrive(done, seg) + seg.steps()
        }
    }
}

/// The trail `done` with the tile in which `seg` starts, added unless the
/// trail ends in that very tile.
pub open spec fn arrive(done: Seq<(int, int)>, seg: Segment) -> Seq<(int, int)> {
    let first = (seg.start().x, seg.start().y);
    if done.len() > 0 && done.last() == first {
        done
    } else {
        done.push(first)
    }
}

/// Number of segments of a path of `len` vertices.
pub open spec fn segments(len: nat) -> nat {
    if len == 0 {
        0
    } else {
        (len - 1) as nat
    }
}

/// The tiles met, one after the other, along a whole path at zoom `z`.
pub open spec fn line_tiles(pts: Seq<Coordinate>, z: int) -> Seq<(int, int)> {
    line_trail(pts, z, segments(pts.len()))
}

/// The tiles of a trail with which the trail enters a row: the first tile,
/// and each tile that lies in another row than the tile before it.
pub open spec fn rows_entered(trail: Seq<(int, int)>) -> Seq<(int, int)>
    decreases trail.len(),
{
    if trail.len() == 0 {
        Seq::empty()
    } else {
        let before = rows_entered(trail.drop_last());
        if trail.len() == 1 || trail[trail.len() - 2].1 != trail.last().1 {
            before.push(trail.last())
        } else {
            before
        }
    }
}

/// A ring sample without its last entry, where that entry lies in the row
/// of the first: the walk round a closed ring ends in the row it began in,
/// and that row is to be counted once.
pub open spec fn trimmed(sample: Seq<(i32, i32)>) -> Seq<(i32, i32)> {
    if sample.len() > 0 && sample.last().1 == sample.first().1 {
        sample.drop_last()
    } else {
        sample
    }
}

/// A tile position as a tile of zoom `z`.
pub open spec fn tile_at(p: (int, int), z: u8) -> (i32, i32, u8) {
    (p.0 as i32, p.1 as i32, z)
}

/// Tile positions as tiles of zoom `z`.
pub open spec fn stamp(trail: Seq<(int, int)>, z: u8) -> Seq<(i32, i32, u8)> {
    trail.map_values(|p: (int, int)| tile_at(p, z))
}

/// A tile position in machine integers.
pub open spec fn pair_of(p: (int, int)) -> (i32, i32) {
    (p.0 as i32, p.1 as i32)
}

/// Tile positions in machine integers.
pub open spec fn pairs(trail: Seq<(int, int)>) -> Seq<(i32, i32)> {
    trail.map_values(|p: (int, int)| pair_of(p))
}

/// The tiles met along the first `n` of the paths, one path after the
/// other.
pub open spec fn paths_tiles(paths: Seq<Seq<Coordinate>>, n: nat, z: u8) -> Seq<(i32, i32, u8)>
    decreases n,
{
    if n == 0 {
        Seq::empty()
    } else {
        paths_tiles(paths, (n - 1) as nat, z) + stamp(line_tiles(paths[n - 1], z as int), z)
    }
}

/// Whether both indices of a tile position are 32-bit integers.
pub open spec fn in_reach(p: (int, int)) -> bool {
    i32::MIN <= p.0 <= i32::MAX && i32::MIN <= p.1 <= i32::MAX
}

/// Whether every vertex of a path lies in a row of tiles, at zoom `z`,
/// whose index is a 32-bit integer.
pub open spec fn path_fits(pts: Seq<Coordinate>, z: int) -> bool {
    forall|i: int| 0 <= i < pts.len() ==> fits((#[trigger] pts[i]).y as int, z)
}

/// The segment between two places on the map at zoom `z`.
pub open spec fn segment_between(a: (i64, i64, u8), b: (i64, i64, u8)) -> Segment {
    Segment { ax: a.0 as int, ay: a.1 as int, bx: b.0 as int, by: b.1 as int, c: span(a.2 as int) }
}

proof fn lemma_push_stamp(base: Seq<(i32, i32, u8)>, trail: Seq<(int, int)>, p: (int, int), z: u8)
    ensures
        base + stamp(trail.push(p), z) == (base + stamp(trail, z)).push(tile_at(p, z)),
        pairs(trail.push(p)) == pairs(trail).push(pair_of(p)),
{
    assert(base + stamp(trail.push(p), z) =~= (base + stamp(trail, z)).push(tile_at(p, z)));
    assert(pairs(trail.push(p)) =~= pairs(trail).push(pair_of(p)));
}

proof fn lemma_push_row(trail: Seq<(int, int)>, p: (int, int))
    ensures
        rows_entered(trail.push(p)) == if trail.len() == 0 || trail.last().1 != p.1 {
            rows_entered(trail).push(p)
        } else {
            rows_entered(trail)
        },
{
    assert(trail.push(p).drop_last() =~= trail);
}

/// A tile of the frame of a segment whose ends lie in rows and columns of
/// 32-bit index has 32-bit indices itself.
proof fn lemma_frame_in_reach(seg: Segment, z: int, p: (int, int))
    requires
        0 <= z <= MAX_ZOOM,
        seg.c == span(z),
        0 <= seg.ax < WORLD,
        0 <= seg.bx < WORLD,
        fits(seg.ay, z),
        fits(seg.by, z),
        in_frame(seg, p.0, p.1),
    ensures
        in_reach(p),
{
    lemma_wrapped_index(seg.ax, z);
    lemma_wrapped_index(seg.bx, z);
}

/// Emits the tiles of one segment that is more than a point: the tile it
/// starts in, unless `last` is that tile, and the tiles that its walk
/// enters. Returns the tile in which the walk ends.
fn trace_segment(
    tiles: &mut Vec<(i32, i32, u8)>,
    sample: &mut Vec<(i32, i32)>,
    sampling: bool,
    a: (i64, i64, u8),
    b: (i64, i64, u8),
    last: Option<(i32, i32)>,
    Ghost(base): Ghost<Seq<(i32, i32, u8)>>,
    Ghost(trail): Ghost<Seq<(int, int)>>,
) -> (end: (i32, i32))
    requires
        a.2 <= MAX_ZOOM,
        0 <= a.0 < WORLD,
        0 <= b.0 < WORLD,
        fits(a.1 as int, a.2 as int),
        fits(b.1 as int, a.2 as int),
        a.0 != b.0 || a.1 != b.1,
        old(tiles)@ == base + stamp(trail, a.2),
        forall|i: int| 0 <= i < trail.len() ==> in_reach(#[trigger] trail[i]),
        sampling ==> old(sample)@ == pairs(rows_entered(trail)),
        last == if trail.len() > 0 {
            Some(pair_of(trail.last()))
        } else {
            None
        },
    ensures
        ({
            let seg = segment_between(a, b);
            let full = arrive(trail, seg) + seg.steps();
            &&& final(tiles)@ == base + stamp(full, a.2)
            &&& forall|i: int| 0 <= i < full.len() ==> in_reach(#[trigger] full[i])
            &&& sampling ==> final(sample)@ == pairs(rows_entered(full))
            &&& !sampling ==> final(sample)@ == old(sample)@
            &&& full.len() > 0
            &&& end == pair_of(full.last())
        }),
{
    let zoom = a.2;
    let c = tile_span(zoom);
    let ghost seg = segment_between(a, b);
    let ghost full = arrive(trail, seg) + seg.steps();
    proof {
        lemma_span(zoom as int);
        lemma_wrapped_index(a.0 as int, zoom as int);
        lemma_wrapped_index(b.0 as int, zoom as int);
        lemma_start_on_grid(seg);
    }
    let dx: i64 = b.0 - a.0;
    let dy: i128 = b.1 as i128 - a.1 as i128;
    let run: i128 = if dx < 0 { -(dx as i128) } else { dx as i128 };
    let rise: i128 = if dy < 0 { -dy } else { dy };
    let sx: i32 = if dx > 0 { 1 } else { -1 };
    let sy: i32 = if dy > 0 { 1 } else { -1 };
    let side: i128 = c as i128;
    let mut x: i32 = floor_div(a.0, c) as i32;
    let mut y: i32 = floor_div(a.1, c) as i32;
    proof {
        assert(x == seg.start().x && y == seg.start().y);
        lemma_frame_in_reach(seg, zoom as int, (x as int, y as int));
        assert((a.0 as int) % (c as int) == a.0 - x * c) by (nonlinear_arith)
            requires
                c > 0,
                x == (a.0 as int) / (c as int),
        ;
        assert((a.1 as int) % (c as int) == a.1 - y * c) by (nonlinear_arith)
            requires
                c > 0,
                y == (a.1 as int) / (c as int),
        ;
        assert(0 <= (a.0 as int) % (c as int) < c);
        assert(0 <= (a.1 as int) % (c as int) < c);
    }
    let off_x: i128 = a.0 as i128 - (x as i128) * side;
    let off_y: i128 = a.1 as i128 - (y as i128) * side;
    let mut gx: i128 = if dx > 0 { side - off_x } else { off_x };
    let mut gy: i128 = if dy > 0 { side - off_y } else { off_y };

    let ghost mut so_far = arrive(trail, seg);
    let same = match last {
        Some(p) => p.0 == x && p.1 == y,
        None => false,
    };
    if !same {
        let row_kept = match last {
            Some(p) => p.1 == y,
            None => false,
        };
        proof {
            lemma_push_stamp(base, trail, (x as int, y as int), zoom);
            lemma_push_row(trail, (x as int, y as int));
        }
        tiles.push((x, y, zoom));
        if sampling && !row_kept {
            sample.push((x, y));
        }
    }
    assert(so_far.len() > 0 && so_far.last() == (x as int, y as int));

    let ghost mut w = seg.start();
    loop
        invariant
            zoom == a.2,
            zoom <= MAX_ZOOM,
            seg == segment_between(a, b),
            0 <= seg.ax < WORLD,
            0 <= seg.bx < WORLD,
            fits(seg.ay, zoom as int),
            fits(seg.by, zoom as int),
            side == seg.c,
            0 < side <= WORLD,
            run == seg.run(),
            rise == seg.rise(),
            0 <= run < WORLD,
            0 <= rise < 0x1_0000_0000_0000_0000,
            sx == heading(seg.dx()),
            sy == heading(seg.dy()),
            on_grid(seg, w),
            w == (Walker { x: x as int, y: y as int, gx: gx as int, gy: gy as int }),
            full == so_far + seg.trail(w),
            so_far.len() > 0,
            so_far.last() == (x as int, y as int),
            tiles@ == base + stamp(so_far, zoom),
            forall|i: int| 0 <= i < so_far.len() ==> in_reach(#[trigger] so_far[i]),
            sampling ==> sample@ == pairs(rows_entered(so_far)),
            !sampling ==> sample@ == old(sample)@,
        ensures
            full == so_far,
            so_far.len() > 0,
            so_far.last() == (x as int, y as int),
            tiles@ == base + stamp(so_far, zoom),
            forall|i: int| 0 <= i < so_far.len() ==> in_reach(#[trigger] so_far[i]),
            sampling ==> sample@ == pairs(rows_entered(so_far)),
            !sampling ==> sample@ == old(sample)@,
        decreases seg.left(w),
    {
        let can_x = gx < run;
        let can_y = gy < rise;
        let step_x = if can_x && can_y {
            assert(gx * rise <= WORLD * 0x1_0000_0000_0000_0000 && gy * run <= WORLD
                * 0x1_0000_0000_0000_0000) by (nonlinear_arith)
                requires
                    0 <= gx < run,
                    0 <= gy < rise,
                    run < WORLD,
                    rise < 0x1_0000_0000_0000_0000,
            ;
            gx * rise < gy * run
        } else {
            can_x
        };
        assert(step_x == seg.steps_x(w));
        if step_x {
            proof {
                lemma_step_x(seg, w);
                w = seg.after_x(w);
                lemma_frame_in_reach(seg, zoom as int, (w.x, w.y));
                lemma_push_stamp(base, so_far, (w.x, w.y), zoom);
                lemma_push_row(so_far, (w.x, w.y));
                assert(so_far.push((w.x, w.y)) + seg.trail(w) =~= full);
                so_far = so_far.push((w.x, w.y));
            }
            gx = gx + side;
            x = x + sx;
            tiles.push((x, y, zoom));
        } else if can_y {
            proof {
                assert(seg.steps_y(w));
                lemma_step_y(seg, w);
                w = seg.after_y(w);
                lemma_frame_in_reach(seg, zoom as int, (w.x, w.y));
                lemma_push_stamp(base, so_far, (w.x, w.y), zoom);
                lemma_push_row(so_far, (w.x, w.y));
                assert(so_far.push((w.x, w.y)) + seg.trail(w) =~= full);
                so_far = so_far.push((w.x, w.y));
            }
            gy = gy + side;
            y = y + sy;
            tiles.push((x, y, zoom));
            if sampling {
                sample.push((x, y));
            }
        } else {
            assert(seg.trail(w) =~= Seq::empty());
            assert(so_far + seg.trail(w) =~= so_far);
            break;
        }
    }
    (x, y)
}

/// Appends to `tiles` the tiles that the path meets at zoom `zoom`, in the
/// order in which it meets them. Where a ring sample is handed in, it
/// receives the tiles with which the path enters a row, and is then trimmed.
pub fn line_cover(
    tiles: &mut Vec<(i32, i32, u8)>,
    linestring: &LineString,
    zoom: u8,
    ring: Option<&mut Vec<(i32, i32)>>,
)
    requires
        zoom <= MAX_ZOOM,
        path_fits(linestring@, zoom as int),
    ensures
        final(tiles)@ == old(tiles)@ + stamp(line_tiles(linestring@, zoom as int), zoom),
        forall|i: int|
            0 <= i < line_tiles(linestring@, zoom as int).len() ==> in_reach(
                #[trigger] line_tiles(linestring@, zoom as int)[i],
            ),
        match ring {
            Some(r) => final(r)@ == trimmed(
                r@ + pairs(rows_entered(line_tiles(linestring@, zoom as int))),
            ),
            None => true,
        },
{
    let ghost base = tiles@;
    let ghost pts = linestring@;
    let ghost mut trail: Seq<(int, int)> = Seq::empty();
    let sampling = ring.is_some();
    let mut sample: Vec<(i32, i32)> = Vec::new();
    let mut last: Option<(i32, i32)> = None;
    let n = linestring.0.len();
    let mut i: usize = 0;
    assert(base + stamp(trail, zoom) =~= base);
    assert(pairs(rows_entered(trail)) =~= Seq::<(i32, i32)>::empty());
    while i + 1 < n
        invariant
            zoom <= MAX_ZOOM,
            pts == linestring@,
            n == pts.len(),
            path_fits(pts, zoom as int),
            i <= segments(pts.len()),
            trail == line_trail(pts, zoom as int, i as nat),
            tiles@ == base + stamp(trail, zoom),
            forall|k: int| 0 <= k < trail.len() ==> in_reach(#[trigger] trail[k]),
            sampling ==> sample@ == pairs(rows_entered(trail)),
            last == if trail.len() > 0 {
                Some(pair_of(trail.last()))
            } else {
                None
            },
        decreases n - i,
    {
        let from = linestring.0[i];
        let to = linestring.0[i + 1];
        let a = point_to_tile_fraction(from.x, from.y, zoom);
        let b = point_to_tile_fraction(to.x, to.y, zoom);
        assert(segment_between(a, b) == segment_at(pts, i as int, zoom as int));
        assert(fits(pts[i as int].y as int, zoom as int));
        assert(fits(pts[i + 1].y as int, zoom as int));
        if a.0 != b.0 || a.1 != b.1 {
            let end = trace_segment(tiles, &mut sample, sampling, a, b, last, Ghost(base), Ghost(trail));
            proof {
                trail = arrive(trail, segment_between(a, b)) + segment_between(a, b).steps();
            }
            last = Some(end);
        }
        i = i + 1;
    }
    match ring {
        Some(r) => {
            r.append(&mut sample);
            let len = r.len();
            if len > 0 && r[len - 1].1 == r[0].1 {
                r.pop();
            }
        },
        None => {},
    }
}

/// Whether the tile position `p` holds, its border included, a point of one
/// of the first `n` segments of the path, and lies in the frame of that
/// segment.
pub open spec fn on_path(pts: Seq<Coordinate>, z: int, n: nat, p: (int, int)) -> bool {
    exists|i: int|
        0 <= i < n && touches(#[trigger] segment_at(pts, i, z), p.0, p.1) && in_frame(
            segment_at(pts, i, z),
            p.0,
            p.1,
        )
}

/// Every tile met along the first `n` segments of a path holds a point of
/// one of them.
pub proof fn lemma_trail_on_path(pts: Seq<Coordinate>, z: int, n: nat)
    requires
        0 <= z <= MAX_ZOOM,
    ensures
        forall|k: int|
            0 <= k < line_trail(pts, z, n).len() ==> on_path(
                pts,
                z,
                n,
                #[trigger] line_trail(pts, z, n)[k],
            ),
    decreases n,
{
    if n > 0 {
        let done = line_trail(pts, z, (n - 1) as nat);
        let seg = segment_at(pts, n - 1, z);
        lemma_trail_on_path(pts, z, (n - 1) as nat);
        lemma_span(z);
        lemma_walk_touches(seg);
        let all = line_trail(pts, z, n);
        assert forall|k: int| 0 <= k < all.len() implies on_path(pts, z, n, #[trigger] all[k]) by {
            if k < done.len() {
                assert(all[k] == done[k]);
                assert(on_path(pts, z, (n - 1) as nat, done[k]));
                let i = choose|i: int|
                    0 <= i < n - 1 && touches(#[trigger] segment_at(pts, i, z), done[k].0, done[k].1)
                        && in_frame(segment_at(pts, i, z), done[k].0, done[k].1);
                assert(touches(segment_at(pts, i, z), all[k].0, all[k].1));
            } else {
                let head = arrive(done, seg);
                if k < head.len() {
                    assert(all[k] == (seg.start().x, seg.start().y));
                } else {
                    assert(all[k] == seg.steps()[k - head.len()]);
                }
                assert(touches(segment_at(pts, n - 1, z), all[k].0, all[k].1));
            }
        }
    }
}

/// Every tile that a path meets holds, its border included, a point of the
/// path.
pub proof fn lemma_line_touches(pts: Seq<Coordinate>, z: int, k: int)
    requires
        0 <= z <= MAX_ZOOM,
        0 <= k < line_tiles(pts, z).len(),
    ensures
        exists|i: int|
            0 <= i < pts.len() - 1 && touches(
                #[trigger] segment_at(pts, i, z),
                line_tiles(pts, z)[k].0,
                line_tiles(pts, z)[k].1,
            ),
{
    lemma_trail_on_path(pts, z, segments(pts.len()));
    let p = line_tiles(pts, z)[k];
    assert(on_path(pts, z, segments(pts.len()), p));
    let i = choose|i: int|
        0 <= i < segments(pts.len()) && touches(#[trigger] segment_at(pts, i, z), p.0, p.1)
            && in_frame(segment_at(pts, i, z), p.0, p.1);
    assert(touches(segment_at(pts, i, z), p.0, p.1));
}

/// The tiles that a path meets have 32-bit indices where its vertices lie in
/// rows of 32-bit index.
pub proof fn lemma_line_in_reach(pts: Seq<Coordinate>, z: int)
    requires
        0 <= z <= MAX_ZOOM,
        path_fits(pts, z),
    ensures
        forall|k: int|
            0 <= k < line_tiles(pts, z).len() ==> in_reach(#[trigger] line_tiles(pts, z)[k]),
{
    lemma_trail_on_path(pts, z, segments(pts.len()));
    assert forall|k: int| 0 <= k < line_tiles(pts, z).len() implies in_reach(
        #[trigger] line_tiles(pts, z)[k],
    ) by {
        let p = line_tiles(pts, z)[k];
        assert(on_path(pts, z, segments(pts.len()), p));
        let i = choose|i: int|
            0 <= i < segments(pts.len()) && touches(#[trigger] segment_at(pts, i, z), p.0, p.1)
                && in_frame(segment_at(pts, i, z), p.0, p.1);
        assert(fits(pts[i].y as int, z));
        assert(fits(pts[i + 1].y as int, z));
        lemma_frame_in_reach(segment_at(pts, i, z), z, p);
    }
}

/// The tiles met along the first `n` segments of a path are met, in the
/// same places, along its first `m`, for `m` not less than `n`.
pub proof fn lemma_trail_grows(pts: Seq<Coordinate>, z: int, n: nat, m: nat)
    requires
        n <= m,
    ensures
        line_trail(pts, z, n).len() <= line_trail(pts, z, m).len(),
        forall|k: int|
            0 <= k < line_trail(pts, z, n).len() ==> line_trail(pts, z, n)[k] == #[trigger] line_trail(
                pts,
                z,
                m,
            )[k],
    decreases m,
{
    if n < m {
        lemma_trail_grows(pts, z, n, (m - 1) as nat);
    }
}

/// No point of a path is missed: each point of each segment that is more
/// than a point lies in one of the tiles that the path meets, the border of
/// a tile counted to the tile.
pub proof fn lemma_line_covers(pts: Seq<Coordinate>, z: int, i: int, num: int, den: int)
    requires
        0 <= z <= MAX_ZOOM,
        0 <= i < pts.len() - 1,
        segment_at(pts, i, z).dx() != 0 || segment_at(pts, i, z).dy() != 0,
        den > 0,
        0 <= num <= den,
    ensures
        exists|k: int|
            0 <= k < line_tiles(pts, z).len() && holds_point(
                segment_at(pts, i, z),
                (#[trigger] line_tiles(pts, z)[k]).0,
                line_tiles(pts, z)[k].1,
                num,
                den,
            ),
{
    let seg = segment_at(pts, i, z);
    let done = line_trail(pts, z, i as nat);
    let head = arrive(done, seg);
    let upto = line_trail(pts, z, (i + 1) as nat);
    let all = line_tiles(pts, z);
    lemma_span(z);
    lemma_walk_covers(seg, num, den);
    lemma_trail_grows(pts, z, (i + 1) as nat, segments(pts.len()));
    assert(upto == head + seg.steps());
    if holds_point(seg, seg.start().x, seg.start().y, num, den) {
        let k = head.len() - 1;
        assert(upto[k] == (seg.start().x, seg.start().y));
        assert(all[k] == upto[k]);
    } else {
        let j = choose|j: int|
            0 <= j < seg.steps().len() && holds_point(
                seg,
                (#[trigger] seg.steps()[j]).0,
                seg.steps()[j].1,
                num,
                den,
            );
        let k = head.len() + j;
        assert(upto[k] == seg.steps()[j]);
        assert(all[k] == upto[k]);
    }
}

/// Every tile that a path meets lies in one of the columns of the map.
pub proof fn lemma_line_on_map(pts: Seq<Coordinate>, z: int)
    requires
        0 <= z <= MAX_ZOOM,
    ensures
        forall|k: int|
            0 <= k < line_tiles(pts, z).len() ==> 0 <= (#[trigger] line_tiles(pts, z)[k]).0 < pow2(
                z as nat,
            ),
{
    lemma_trail_on_path(pts, z, segments(pts.len()));
    assert forall|k: int| 0 <= k < line_tiles(pts, z).len() implies 0 <= (#[trigger] line_tiles(
        pts,
        z,
    )[k]).0 < pow2(z as nat) by {
        let p = line_tiles(pts, z)[k];
        assert(on_path(pts, z, segments(pts.len()), p));
        let i = choose|i: int|
            0 <= i < segments(pts.len()) && touches(#[trigger] segment_at(pts, i, z), p.0, p.1)
                && in_frame(segment_at(pts, i, z), p.0, p.1);
        lemma_wrapped_index(segment_at(pts, i, z).ax, z);
        lemma_wrapped_index(segment_at(pts, i, z).bx, z);
    }
}

/// In the tiles with which a trail enters its rows, each lies in another
/// row than the one before it, and the last is the trail's last tile.
pub proof fn lemma_rows_differ(trail: Seq<(int, int)>)
    ensures
        forall|i: int|
            0 <= i < rows_entered(trail).len() - 1 ==> (#[trigger] rows_entered(trail)[i]).1
                != rows_entered(trail)[i + 1].1,
        trail.len() > 0 ==> rows_entered(trail).len() > 0 && rows_entered(trail).last().1
            == trail.last().1,
        forall|i: int|
            0 <= i < rows_entered(trail).len() ==> trail.contains(#[trigger] rows_entered(trail)[i]),
    decreases trail.len(),
{
    if trail.len() > 0 {
        let front = trail.drop_last();
        lemma_rows_differ(front);
        let rows = rows_entered(trail);
        assert forall|i: int| 0 <= i < rows.len() implies trail.contains(#[trigger] rows[i]) by {
            if i < rows_entered(front).len() {
                assert(front.contains(rows_entered(front)[i]));
                let k = choose|k: int| 0 <= k < front.len() && front[k] == rows_entered(front)[i];
                assert(trail[k] == rows[i]);
            } else {
                assert(trail[trail.len() - 1] == rows[i]);
            }
        }
    }
}

/// A ring sample is empty, or ends in another row than it begins in; and
/// each of its entries lies in another row than the one before it.
pub proof fn lemma_sample_rows(pts: Seq<Coordinate>, z: int)
    requires
        0 <= z <= MAX_ZOOM,
        path_fits(pts, z),
    ensures
        ({
            let sample = trimmed(pairs(rows_entered(line_tiles(pts, z))));
            &&& forall|i: int| 0 <= i < sample.len() - 1 ==> (#[trigger] sample[i]).1 != sample[i + 1].1
            &&& sample.len() > 0 ==> sample.last().1 != sample.first().1
        }),
{
    let trail = line_tiles(pts, z);
    let rows = rows_entered(trail);
    let whole = pairs(rows);
    let sample = trimmed(whole);
    lemma_rows_differ(trail);
    lemma_line_in_reach(pts, z);
    assert forall|i: int| 0 <= i < whole.len() implies in_reach(#[trigger] rows[i]) by {
        assert(trail.contains(rows[i]));
    }
    assert forall|i: int| 0 <= i < whole.len() - 1 implies (#[trigger] whole[i]).1 != whole[i + 1].1 by {
        assert(rows[i].1 != rows[i + 1].1);
        assert(in_reach(rows[i]) && in_reach(rows[i + 1]));
    }
    if sample.len() > 0 && sample.len() < whole.len() {
        assert(sample.last() == whole[whole.len() - 2]);
        assert(whole[whole.len() - 2].1 != whole[whole.len() - 2 + 1].1);
    }
}

} // verus!
