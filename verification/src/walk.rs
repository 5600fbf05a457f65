//! The grid walk along one straight segment.
//!
//! A segment runs from `a` to `b` over a grid of squares of side `c`. The
//! walk starts in the square that holds `a` and moves to a neighbouring
//! square each time the segment crosses a grid line, taking the crossings in
//! the order in which the segment meets them. Where the segment meets a
//! vertical and a horizontal grid line at once, in a corner, the horizontal
//! line is crossed first.
//!
//! A crossing is measured by how far the segment has travelled along that
//! axis when it happens: the `g`-th unit of `n` lies at the fraction `g / n`
//! of the segment. Fractions are compared by cross-multiplication, so the
//! walk is exact.

use vstd::prelude::*;

verus! {

/// A segment from (`ax`, `ay`) to (`bx`, `by`) on a grid of squares of
/// side `c`.
pub struct Segment {
    pub ax: int,
    pub ay: int,
    pub bx: int,
    pub by: int,
    pub c: int,
}

/// Where the walk stands: the square (`x`, `y`), and the distances `gx`
/// and `gy` from the start of the segment, along each axis, to the next grid
/// line in the direction of travel.
pub struct Walker {
    pub x: int,
    pub y: int,
    pub gx: int,
    pub gy: int,
}

pub open spec fn abs(v: int) -> int {
    if v < 0 {
        -v
    } else {
        v
    }
}

/// Direction of travel along an axis on which the segment advances by `d`.
/// An axis along which the segment does not move counts as travelled
/// backwards; the walk never steps along it.
pub open spec fn heading(d: int) -> int {
    if d > 0 {
        1
    } else {
        -1
    }
}

/// Distance from `a` to the first grid line met when travelling in the
/// direction of `d`: the line at the far side of the square that holds `a`.
/// Travelling backwards from a grid line, that line itself is the first.
pub open spec fn first_gap(a: int, d: int, c: int) -> int {
    if d > 0 {
        c - a % c
    } else {
        a % c
    }
}

impl Segment {
    pub open spec fn dx(self) -> int {
        self.bx - self.ax
    }

    pub open spec fn dy(self) -> int {
        self.by - self.ay
    }

    /// Length of the segment along x.
    pub open spec fn run(self) -> int {
        abs(self.dx())
    }

    /// Length of the segment along y.
    pub open spec fn rise(self) -> int {
        abs(self.dy())
    }

    /// The walker in the square that holds the start of the segment.
    pub open spec fn start(self) -> Walker {
        Walker {
            x: self.ax / self.c,
            y: self.ay / self.c,
            gx: first_gap(self.ax, self.dx(), self.c),
            gy: first_gap(self.ay, self.dy(), self.c),
        }
    }

    /// Whether the next vertical grid line is crossed before the segment
    /// ends.
    pub open spec fn can_x(self, w: Walker) -> bool {
        w.gx < self.run()
    }

    /// Whether the next horizontal grid line is crossed before the segment
    /// ends.
    pub open spec fn can_y(self, w: Walker) -> bool {
        w.gy < self.rise()
    }

    /// Whether the walk goes on with a step along x: a vertical grid line
    /// is still to be crossed, and it comes strictly before the next
    /// horizontal one.
    pub open spec fn steps_x(self, w: Walker) -> bool {
        self.can_x(w) && (!self.can_y(w) || w.gx * self.rise() < w.gy * self.run())
    }

    /// Whether the walk goes on with a step along y.
    pub open spec fn steps_y(self, w: Walker) -> bool {
        !self.steps_x(w) && self.can_y(w)
    }

    pub open spec fn after_x(self, w: Walker) -> Walker {
        Walker { x: w.x + heading(self.dx()), y: w.y, gx: w.gx + self.c, gy: w.gy }
    }

    pub open spec fn after_y(self, w: Walker) -> Walker {
        Walker { x: w.x, y: w.y + heading(self.dy()), gx: w.gx, gy: w.gy + self.c }
    }

    /// Grid lines still to be crossed, counted in distance: what decreases
    /// with every step.
    pub open spec fn left(self, w: Walker) -> int {
        (if self.can_x(w) {
            self.run() - w.gx
        } else {
            0
        }) + (if self.can_y(w) {
            self.rise() - w.gy
        } else {
            0
        })
    }

    /// The squares that the walk enters from `w` on, in order. The square in
    /// which `w` stands is not among them.
    pub open spec fn trail(self, w: Walker) -> Seq<(int, int)>
        decreases self.left(w),
    {
        if self.c <= 0 {
            Seq::empty()
        } else if self.steps_x(w) {
            let next = self.after_x(w);
            seq![(next.x, next.y)] + self.trail(next)
        } else if self.steps_y(w) {
            let next = self.after_y(w);
            seq![(next.x, next.y)] + self.trail(next)
        } else {
            Seq::empty()
        }
    }

    /// The squares that the walk along the whole segment enters after the
    /// one it starts in.
    pub open spec fn steps(self) -> Seq<(int, int)> {
        self.trail(self.start())
    }
}

/// Whether the square (`x`, `y`) holds the point that lies at the fraction
/// `num / den` of the segment, its border included.
pub open spec fn holds_point(seg: Segment, x: int, y: int, num: int, den: int) -> bool {
    &&& den > 0
    &&& 0 <= num <= den
    &&& x * seg.c * den <= seg.ax * den + num * seg.dx() <= (x + 1) * seg.c * den
    &&& y * seg.c * den <= seg.ay * den + num * seg.dy() <= (y + 1) * seg.c * den
}

/// Whether the square (`x`, `y`), its border included, holds a point of the
/// segment.
pub open spec fn touches(seg: Segment, x: int, y: int) -> bool {
    exists|num: int, den: int| holds_point(seg, x, y, num, den)
}

/// Whether `v` lies between `p` and `q`, whichever of the two is larger.
pub open spec fn between(v: int, p: int, q: int) -> bool {
    (p <= v <= q) || (q <= v <= p)
}

/// Whether the square (`x`, `y`) lies in the rectangle of squares spanned by
/// the squares that hold the two ends of the segment.
pub open spec fn in_frame(seg: Segment, x: int, y: int) -> bool {
    &&& between(x, seg.ax / seg.c, seg.bx / seg.c)
    &&& between(y, seg.ay / seg.c, seg.by / seg.c)
}

/// Whether two squares share a side.
pub open spec fn adjacent(p: (int, int), q: (int, int)) -> bool {
    abs(p.0 - q.0) + abs(p.1 - q.1) == 1
}

/// What holds of the walker throughout a walk: its distances are those to
/// the far sides of its square, and neither next crossing is more than one
/// square ahead of the other.
pub open spec fn on_grid(seg: Segment, w: Walker) -> bool {
    &&& seg.c > 0
    &&& w.gx >= 0
    &&& w.gy >= 0
    &&& if seg.dx() > 0 {
        (w.x + 1) * seg.c == seg.ax + w.gx
    } else {
        w.x * seg.c == seg.ax - w.gx
    }
    &&& if seg.dy() > 0 {
        (w.y + 1) * seg.c == seg.ay + w.gy
    } else {
        w.y * seg.c == seg.ay - w.gy
    }
    &&& (w.gy - seg.c) * seg.run() <= w.gx * seg.rise()
    &&& (w.gx - seg.c) * seg.rise() <= w.gy * seg.run()
    &&& in_frame(seg, w.x, w.y)
}

/// Whether the point at the fraction `num / den` of the segment comes no
/// earlier than the walker's entry into its square.
pub open spec fn not_before(seg: Segment, w: Walker, num: int, den: int) -> bool {
    &&& (w.gx - seg.c) * den <= num * seg.run()
    &&& (w.gy - seg.c) * den <= num * seg.rise()
}

/// Whether the point at the fraction `num / den` of the segment comes no
/// later than the walker's leaving its square, or the end of the segment.
pub open spec fn not_after(seg: Segment, w: Walker, num: int, den: int) -> bool {
    &&& num * seg.run() <= w.gx * den
    &&& num * seg.rise() <= w.gy * den
}

/// Whether the point at the fraction `num / den` of the segment lies in the
/// walker's square or in one that the walk enters later.
pub open spec fn reached(seg: Segment, w: Walker, num: int, den: int) -> bool {
    holds_point(seg, w.x, w.y, num, den) || exists|k: int|
        0 <= k < seg.trail(w).len() && holds_point(
            seg,
            (#[trigger] seg.trail(w)[k]).0,
            seg.trail(w)[k].1,
            num,
            den,
        )
}

proof fn lemma_floor(v: int, c: int)
    by (nonlinear_arith)
    requires
        c > 0,
    ensures
        (v / c) * c + v % c == v,
        0 <= v % c < c,
        (v / c + 1) * c == (v / c) * c + c,
{
}

/// If `i * c <= v` then square `i` is not beyond the square that holds
/// `v`; if `v < (i + 1) * c` then it is not before it.
proof fn lemma_floor_order(v: int, i: int, c: int)
    by (nonlinear_arith)
    requires
        c > 0,
    ensures
        i * c <= v ==> i <= v / c,
        v < (i + 1) * c ==> v / c <= i,
{
}

/// Along one axis: a coordinate that has travelled between `g - c` and `g`
/// from `a`, of the `n` that the segment travels, lies in square `i`, whose
/// far side is `g` away from `a`.
proof fn lemma_inside(a: int, d: int, n: int, g: int, i: int, c: int, num: int, den: int)
    requires
        den > 0,
        n >= 0,
        d == n || d == -n,
        d > 0 ==> (i + 1) * c == a + g,
        d <= 0 ==> i * c == a - g,
        (g - c) * den <= num * n,
        num * n <= g * den,
    ensures
        i * c * den <= a * den + num * d <= (i + 1) * c * den,
{
    let low = i * c;
    assert((i + 1) * c == low + c) by (nonlinear_arith)
        requires
            low == i * c,
    ;
    assert((g - c) * den == g * den - c * den) by (nonlinear_arith);
    if d > 0 {
        assert(low * den == a * den + g * den - c * den) by (nonlinear_arith)
            requires
                low == a + g - c,
        ;
        assert((low + c) * den == a * den + g * den) by (nonlinear_arith)
            requires
                low + c == a + g,
        ;
        assert(num * d == num * n);
    } else {
        assert(low * den == a * den - g * den) by (nonlinear_arith)
            requires
                low == a - g,
        ;
        assert((low + c) * den == a * den - g * den + c * den) by (nonlinear_arith)
            requires
                low == a - g,
        ;
        assert(num * d == -(num * n)) by (nonlinear_arith)
            requires
                d == -n,
        ;
    }
}

/// A point of the segment that comes between the walker's entry into its
/// square and its leaving it lies in that square.
pub proof fn lemma_holds(seg: Segment, w: Walker, num: int, den: int)
    requires
        on_grid(seg, w),
        den > 0,
        0 <= num <= den,
        not_before(seg, w, num, den),
        not_after(seg, w, num, den),
    ensures
        holds_point(seg, w.x, w.y, num, den),
{
    lemma_inside(seg.ax, seg.dx(), seg.run(), w.gx, w.x, seg.c, num, den);
    lemma_inside(seg.ay, seg.dy(), seg.rise(), w.gy, w.y, seg.c, num, den);
}

pub proof fn lemma_start_on_grid(seg: Segment)
    requires
        seg.c > 0,
    ensures
        on_grid(seg, seg.start()),
        forall|num: int, den: int|
            den > 0 && 0 <= num <= den ==> #[trigger] not_before(seg, seg.start(), num, den),
{
    let w = seg.start();
    let c = seg.c;
    let n = seg.run();
    let m = seg.rise();
    lemma_floor(seg.ax, c);
    lemma_floor(seg.ay, c);
    assert((w.gy - c) * n <= w.gx * m && (w.gx - c) * m <= w.gy * n) by (nonlinear_arith)
        requires
            w.gx - c <= 0,
            w.gy - c <= 0,
            w.gx >= 0,
            w.gy >= 0,
            n >= 0,
            m >= 0,
    ;
    assert forall|num: int, den: int| den > 0 && 0 <= num <= den implies #[trigger] not_before(
        seg,
        w,
        num,
        den,
    ) by {
        assert((w.gx - c) * den <= num * n && (w.gy - c) * den <= num * m) by (nonlinear_arith)
            requires
                w.gx - c <= 0,
                w.gy - c <= 0,
                den > 0,
                num >= 0,
                n >= 0,
                m >= 0,
        ;
    }
}

/// Of two next crossings, `g` of `n` along one axis and `h` of `m` along
/// the other, the first is no later than the second if the second lies
/// beyond the end of the segment, or if the first is found to be earlier.
proof fn lemma_nearer(g: int, n: int, h: int, m: int)
    by (nonlinear_arith)
    requires
        0 <= g < n,
        0 <= m,
        0 <= h,
        h >= m || g * m <= h * n,
    ensures
        g * m <= h * n,
{
}

/// What one step does along the axis that it follows: the walker's square
/// stays in the frame of the segment.
proof fn lemma_advance(a: int, b: int, c: int, g: int, i: int)
    requires
        c > 0,
        0 <= g < abs(b - a),
        between(i, a / c, b / c),
        b - a > 0 ==> (i + 1) * c == a + g,
        b - a <= 0 ==> i * c == a - g,
    ensures
        between(i + heading(b - a), a / c, b / c),
{
    lemma_floor(a, c);
    lemma_floor(b, c);
    if b - a > 0 {
        lemma_floor_order(b, i + 1, c);
        lemma_floor_order(a, i, c);
    } else {
        assert((i - 1 + 1) * c == i * c);
        assert(i - 1 >= b / c) by (nonlinear_arith)
            requires
                i * c > b,
                c > 0,
                (b / c) * c <= b,
        ;
        lemma_floor_order(a, i, c);
    }
}

pub proof fn lemma_step_x(seg: Segment, w: Walker)
    requires
        on_grid(seg, w),
        seg.steps_x(w),
    ensures
        on_grid(seg, seg.after_x(w)),
        touches(seg, seg.after_x(w).x, seg.after_x(w).y),
        adjacent((w.x, w.y), (seg.after_x(w).x, seg.after_x(w).y)),
{
    let c = seg.c;
    let n = seg.run();
    let m = seg.rise();
    let next = seg.after_x(w);
    lemma_nearer(w.gx, n, w.gy, m);
    lemma_advance(seg.ax, seg.bx, c, w.gx, w.x);
    assert((w.x + 1 + 1) * c == (w.x + 1) * c + c && (w.x - 1) * c == w.x * c - c)
        by (nonlinear_arith);
    assert((next.gy - c) * n <= next.gx * m) by (nonlinear_arith)
        requires
            (w.gy - c) * n <= w.gx * m,
            next.gy == w.gy,
            next.gx == w.gx + c,
            c > 0,
            m >= 0,
    ;
    assert((next.gx - c) * n <= w.gx * n && w.gx * n <= next.gx * n) by (nonlinear_arith)
        requires
            next.gx == w.gx + c,
            c > 0,
            n > 0,
    ;
    lemma_holds(seg, next, w.gx, n);
}

pub proof fn lemma_step_y(seg: Segment, w: Walker)
    requires
        on_grid(seg, w),
        seg.steps_y(w),
    ensures
        on_grid(seg, seg.after_y(w)),
        touches(seg, seg.after_y(w).x, seg.after_y(w).y),
        adjacent((w.x, w.y), (seg.after_y(w).x, seg.after_y(w).y)),
{
    let c = seg.c;
    let n = seg.run();
    let m = seg.rise();
    let next = seg.after_y(w);
    lemma_nearer(w.gy, m, w.gx, n);
    lemma_advance(seg.ay, seg.by, c, w.gy, w.y);
    assert((w.y + 1 + 1) * c == (w.y + 1) * c + c && (w.y - 1) * c == w.y * c - c)
        by (nonlinear_arith);
    assert((next.gx - c) * m <= next.gy * n) by (nonlinear_arith)
        requires
            (w.gx - c) * m <= w.gy * n,
            next.gx == w.gx,
            next.gy == w.gy + c,
            c > 0,
            n >= 0,
    ;
    assert((next.gy - c) * m <= w.gy * m && w.gy * m <= next.gy * m) by (nonlinear_arith)
        requires
            next.gy == w.gy + c,
            c > 0,
            m > 0,
    ;
    lemma_holds(seg, next, w.gy, m);
}

/// Every square that a walk enters holds a point of the segment, lies in
/// the frame of the segment, and shares a side with the square entered
/// before it.
pub proof fn lemma_trail(seg: Segment, w: Walker)
    requires
        on_grid(seg, w),
    ensures
        forall|i: int|
            0 <= i < seg.trail(w).len() ==> {
                &&& touches(seg, (#[trigger] seg.trail(w)[i]).0, seg.trail(w)[i].1)
                &&& in_frame(seg, seg.trail(w)[i].0, seg.trail(w)[i].1)
                &&& adjacent(if i == 0 { (w.x, w.y) } else { seg.trail(w)[i - 1] }, seg.trail(w)[i])
            },
    decreases seg.left(w),
{
    if seg.steps_x(w) || seg.steps_y(w) {
        let next = if seg.steps_x(w) { seg.after_x(w) } else { seg.after_y(w) };
        if seg.steps_x(w) {
            lemma_step_x(seg, w);
        } else {
            lemma_step_y(seg, w);
        }
        lemma_trail(seg, next);
        assert(seg.trail(w) =~= seq![(next.x, next.y)] + seg.trail(next));
        assert forall|i: int| 0 <= i < seg.trail(w).len() implies {
            &&& touches(seg, (#[trigger] seg.trail(w)[i]).0, seg.trail(w)[i].1)
            &&& in_frame(seg, seg.trail(w)[i].0, seg.trail(w)[i].1)
            &&& adjacent(if i == 0 { (w.x, w.y) } else { seg.trail(w)[i - 1] }, seg.trail(w)[i])
        } by {
            if i > 0 {
                assert(seg.trail(w)[i] == seg.trail(next)[i - 1]);
                if i > 1 {
                    assert(seg.trail(w)[i - 1] == seg.trail(next)[i - 2]);
                }
            }
        }
    }
}

/// The squares of a walk along a segment, the first one included: each
/// holds a point of the segment, lies in its frame, and shares a side with
/// the one before it.
pub proof fn lemma_walk_touches(seg: Segment)
    requires
        seg.c > 0,
    ensures
        touches(seg, seg.start().x, seg.start().y),
        in_frame(seg, seg.start().x, seg.start().y),
        forall|i: int|
            0 <= i < seg.steps().len() ==> {
                &&& touches(seg, (#[trigger] seg.steps()[i]).0, seg.steps()[i].1)
                &&& in_frame(seg, seg.steps()[i].0, seg.steps()[i].1)
                &&& adjacent(
                    if i == 0 { (seg.start().x, seg.start().y) } else { seg.steps()[i - 1] },
                    seg.steps()[i],
                )
            },
{
    let w = seg.start();
    lemma_start_on_grid(seg);
    lemma_trail(seg, w);
    assert(not_before(seg, w, 0, 1));
    assert(not_after(seg, w, 0, 1));
    lemma_holds(seg, w, 0, 1);
}

/// If the point lies beyond the next crossing along one axis, `h` of `m`,
/// and the next crossing along the other, `g` of `n`, comes no later than
/// that one, the point lies beyond it too.
proof fn lemma_passed(g: int, n: int, h: int, m: int, num: int, den: int)
    by (nonlinear_arith)
    requires
        den > 0,
        n >= 0,
        m > 0,
        0 <= num,
        0 <= g,
        0 <= h,
        g * m <= h * n,
        h * den < num * m,
    ensures
        g * den <= num * n,
{
}

/// A point of the segment comes no later than a crossing that lies at or
/// beyond the end of the segment.
proof fn lemma_within(num: int, den: int, n: int, g: int)
    by (nonlinear_arith)
    requires
        0 <= num <= den,
        0 <= n <= g,
    ensures
        num * n <= g * den,
{
}

/// A crossing that a point of the segment lies beyond is crossed before the
/// segment ends.
proof fn lemma_can(num: int, den: int, n: int, g: int)
    by (nonlinear_arith)
    requires
        0 <= num <= den,
        0 <= n,
        0 <= g,
        g * den < num * n,
    ensures
        g < n,
{
}

/// What is reached from the walker's next stand is reached from the
/// walker's.
proof fn lemma_shift(seg: Segment, w: Walker, next: Walker, num: int, den: int)
    requires
        seg.trail(w) == seq![(next.x, next.y)] + seg.trail(next),
        reached(seg, next, num, den),
    ensures
        reached(seg, w, num, den),
{
    if holds_point(seg, next.x, next.y, num, den) {
        assert(seg.trail(w)[0] == (next.x, next.y));
    } else {
        let k = choose|k: int|
            0 <= k < seg.trail(next).len() && holds_point(
                seg,
                (#[trigger] seg.trail(next)[k]).0,
                seg.trail(next)[k].1,
                num,
                den,
            );
        assert(seg.trail(w)[k + 1] == seg.trail(next)[k]);
    }
}

/// Every point of the segment that comes no earlier than the walker's entry
/// into its square lies in that square or in one that the walk enters later.
pub proof fn lemma_reach(seg: Segment, w: Walker, num: int, den: int)
    requires
        on_grid(seg, w),
        den > 0,
        0 <= num <= den,
        not_before(seg, w, num, den),
    ensures
        reached(seg, w, num, den),
    decreases seg.left(w),
{
    let n = seg.run();
    let m = seg.rise();
    let in_x = num * n <= w.gx * den;
    let in_y = num * m <= w.gy * den;
    if in_x && in_y {
        lemma_holds(seg, w, num, den);
    } else {
        if !in_x {
            lemma_can(num, den, n, w.gx);
        }
        if !in_y {
            lemma_can(num, den, m, w.gy);
        }
        if seg.steps_x(w) {
            let next = seg.after_x(w);
            if in_x {
                lemma_passed(w.gx, n, w.gy, m, num, den);
            }
            lemma_step_x(seg, w);
            lemma_reach(seg, next, num, den);
            assert(seg.trail(w) =~= seq![(next.x, next.y)] + seg.trail(next));
            lemma_shift(seg, w, next, num, den);
        } else if seg.steps_y(w) {
            let next = seg.after_y(w);
            if in_y {
                lemma_passed(w.gy, m, w.gx, n, num, den);
            }
            lemma_step_y(seg, w);
            lemma_reach(seg, next, num, den);
            assert(seg.trail(w) =~= seq![(next.x, next.y)] + seg.trail(next));
            lemma_shift(seg, w, next, num, den);
        } else {
            lemma_within(num, den, n, w.gx);
            lemma_within(num, den, m, w.gy);
        }
    }
}

/// No point of the segment is missed: each lies in the square in which the
/// walk starts or in one that it enters, the border of a square counted to
/// the square.
pub proof fn lemma_walk_covers(seg: Segment, num: int, den: int)
    requires
        seg.c > 0,
        den > 0,
        0 <= num <= den,
    ensures
        reached(seg, seg.start(), num, den),
{
    lemma_start_on_grid(seg);
    assert(not_before(seg, seg.start(), num, den));
    lemma_reach(seg, seg.start(), num, den);
}

/// A point that lies within square (`i`, `j`), off its border, lies in no
/// other square: whichever square holds it is that one. So a square through
/// whose inside the segment passes is among the squares of the walk.
pub proof fn lemma_inner_point(seg: Segment, x: int, y: int, i: int, j: int, num: int, den: int)
    requires
        seg.c > 0,
        den > 0,
        holds_point(seg, x, y, num, den),
        i * seg.c * den < seg.ax * den + num * seg.dx() < (i + 1) * seg.c * den,
        j * seg.c * den < seg.ay * den + num * seg.dy() < (j + 1) * seg.c * den,
    ensures
        x == i,
        y == j,
{
    let c = seg.c;
    let px = seg.ax * den + num * seg.dx();
    let py = seg.ay * den + num * seg.dy();
    assert(x == i) by (nonlinear_arith)
        requires
            c > 0,
            den > 0,
            x * c * den <= px <= (x + 1) * c * den,
            i * c * den < px < (i + 1) * c * den,
    ;
    assert(y == j) by (nonlinear_arith)
        requires
            c > 0,
            den > 0,
            y * c * den <= py <= (y + 1) * c * den,
            j * c * den < py < (j + 1) * c * den,
    ;
}

} // verus!
