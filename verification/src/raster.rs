//! Scan conversion of triangles on an integer grid, in exact arithmetic.
//!
//! A triangle covers the grid points of its closed area. Barycentric
//! weights are kept as integers, scaled by the doubled area, so that the
//! inside test needs no division and no rounding.

use vstd::prelude::*;
use crate::binary32::{clamp, to_i32, whole};

verus! {

/// A triangle whose corners lie on an integer grid: screen pixels for the
/// frame, texels for an irradiance map.
#[derive(Clone, Copy, Debug)]
pub struct Triangle {
    pub ax: i32,
    pub ay: i32,
    pub bx: i32,
    pub by: i32,
    pub cx: i32,
    pub cy: i32,
}

/// Barycentric weights of a grid point, each scaled by the doubled signed
/// area of the triangle, so that they stay integers: the true weight of
/// corner `a` is `a / (a + b + c)`.
#[derive(Clone, Copy, Debug)]
pub struct Weights {
    pub a: i128,
    pub b: i128,
    pub c: i128,
}

/// A grid point that a triangle covers, with its weights.
#[derive(Clone, Copy, Debug)]
pub struct Fragment {
    pub x: i32,
    pub y: i32,
    pub weights: Weights,
}

/// `w / d >= 0` for a nonzero `d`, without dividing.
pub open spec fn same_side(w: int, d: int) -> bool {
    (d > 0 && w >= 0) || (d < 0 && w <= 0)
}

/// Row-major order of grid points: top row first, left to right in a row.
pub open spec fn row_major_before(x1: int, y1: int, x2: int, y2: int) -> bool {
    y1 < y2 || (y1 == y2 && x1 < x2)
}

pub open spec fn min3(a: int, b: int, c: int) -> int {
    if a <= b && a <= c {
        a
    } else if b <= c {
        b
    } else {
        c
    }
}

pub open spec fn max3(a: int, b: int, c: int) -> int {
    if a >= b && a >= c {
        a
    } else if b >= c {
        b
    } else {
        c
    }
}

impl Triangle {
    /// Twice the signed area: the cross product of the edges `a -> c` and
    /// `a -> b`. Its sign tells the winding, zero means collinear corners.
    pub open spec fn doubled_area(self) -> int {
        (self.cx - self.ax) * (self.by - self.ay) - (self.bx - self.ax) * (self.cy - self.ay)
    }

    /// Edge function opposite corner `b`, the scaled weight of `b` at `(x, y)`.
    pub open spec fn weight_b(self, x: int, y: int) -> int {
        (self.ax - x) * (self.cy - self.ay) - (self.cx - self.ax) * (self.ay - y)
    }

    /// Edge function opposite corner `c`, the scaled weight of `c` at `(x, y)`.
    pub open spec fn weight_c(self, x: int, y: int) -> int {
        (self.bx - self.ax) * (self.ay - y) - (self.ax - x) * (self.by - self.ay)
    }

    /// The scaled weight of corner `a`: what the other two leave of the whole.
    pub open spec fn weight_a(self, x: int, y: int) -> int {
        self.doubled_area() - self.weight_b(x, y) - self.weight_c(x, y)
    }

    /// The point `(x, y)` lies in the closed triangle: no weight is negative.
    /// A triangle without area covers nothing.
    pub open spec fn covers(self, x: int, y: int) -> bool {
        let d = self.doubled_area();
        &&& d != 0
        &&& same_side(self.weight_a(x, y), d)
        &&& same_side(self.weight_b(x, y), d)
        &&& same_side(self.weight_c(x, y), d)
    }

    /// The grid coordinate that a number stands for: the number rounded
    /// toward zero, as far as 32 bits hold it.
    pub open spec fn coordinate(bits: u32) -> int {
        clamp(whole(bits), i32::MIN as int, i32::MAX as int)
    }

    /// The same corners with `b` and `c` exchanged: the opposite winding.
    pub open spec fn reversed(self) -> Triangle {
        Triangle { ax: self.ax, ay: self.ay, bx: self.cx, by: self.cy, cx: self.bx, cy: self.by }
    }

    /// The three scaled weights of `(x, y)`, for corners `a`, `b`, `c`.
    pub open spec fn weights_at(self, x: int, y: int) -> (int, int, int) {
        (self.weight_a(x, y), self.weight_b(x, y), self.weight_c(x, y))
    }

    /// The bounding box of the corners, clamped to a grid of `width` by
    /// `height` points. Meant for a grid that is not empty.
    pub open spec fn clamped_box(self, width: int, height: int) -> (int, int, int, int) {
        (
            clamp(min3(self.ax as int, self.bx as int, self.cx as int), 0, width - 1),
            clamp(min3(self.ay as int, self.by as int, self.cy as int), 0, height - 1),
            clamp(max3(self.ax as int, self.bx as int, self.cx as int), 0, width - 1),
            clamp(max3(self.ay as int, self.by as int, self.cy as int), 0, height - 1),
        )
    }
}

impl Weights {
    pub open spec fn values(self) -> (int, int, int) {
        (self.a as int, self.b as int, self.c as int)
    }

    /// No weight is negative once divided by their sum, and the sum is not
    /// zero.
    pub open spec fn inside(self) -> bool {
        let d = self.a + self.b + self.c;
        &&& d != 0
        &&& same_side(self.a as int, d)
        &&& same_side(self.b as int, d)
        &&& same_side(self.c as int, d)
    }
}

/// A rectangle of grid points, both ends included.
#[derive(Clone, Copy, Debug)]
pub struct Bounds {
    pub minx: i32,
    pub miny: i32,
    pub maxx: i32,
    pub maxy: i32,
}

impl Bounds {
    pub open spec fn values(self) -> (int, int, int, int) {
        (self.minx as int, self.miny as int, self.maxx as int, self.maxy as int)
    }
}

/// Some fragment of the sequence stands at `(x, y)`.
pub open spec fn has_fragment(fragments: Seq<Fragment>, x: int, y: int) -> bool {
    exists|i: int|
        0 <= i < fragments.len() && (#[trigger] fragments[i]).x == x && fragments[i].y == y
}

/// `fragments` is the scan conversion of `t` on a grid of `width` by
/// `height` points: exactly the grid points that `t` covers, each once and
/// with its weights, in row-major order.
pub open spec fn is_coverage(fragments: Seq<Fragment>, width: int, height: int, t: Triangle) -> bool {
    &&& forall|i: int|
        0 <= i < fragments.len() ==> {
            let f = #[trigger] fragments[i];
            &&& 0 <= f.x < width
            &&& 0 <= f.y < height
            &&& t.covers(f.x as int, f.y as int)
            &&& f.weights.values() == t.weights_at(f.x as int, f.y as int)
        }
    &&& forall|i: int, j: int|
        0 <= i < j < fragments.len() ==> row_major_before(
            (#[trigger] fragments[i]).x as int,
            fragments[i].y as int,
            (#[trigger] fragments[j]).x as int,
            fragments[j].y as int,
        )
    &&& forall|x: int, y: int|
        0 <= x < width && 0 <= y < height && #[trigger] t.covers(x, y) ==> has_fragment(
            fragments,
            x,
            y,
        )
}

/// `a * (b + c) == a * b + a * c`.
proof fn lemma_distribute(a: int, b: int, c: int)
    by (nonlinear_arith)
    ensures
        a * (b + c) == a * b + a * c,
        (b + c) * a == b * a + c * a,
        a * (b - c) == a * b - a * c,
        (b - c) * a == b * a - c * a,
        a * b == b * a,
{
}

/// Factors of a product of three exchange places.
proof fn lemma_exchange(a: int, b: int, c: int)
    by (nonlinear_arith)
    ensures
        (a * b) * c == (c * b) * a,
        (a * b) * c == (a * c) * b,
{
}

/// The two-dimensional cross product identity behind barycentric weights,
/// with corner `a` moved to the origin.
proof fn lemma_cross_identity(p: int, q: int, r: int, s: int, u: int, v: int)
    ensures
        (r * q - p * s) * u == (r * v - u * s) * p + (u * q - p * v) * r,
        (r * q - p * s) * v == (r * v - u * s) * q + (u * q - p * v) * s,
{
    lemma_distribute(u, r * q, p * s);
    lemma_distribute(p, r * v, u * s);
    lemma_distribute(r, u * q, p * v);
    lemma_exchange(r, q, u);
    lemma_exchange(p, s, u);
    lemma_exchange(r, v, p);
    lemma_distribute(v, r * q, p * s);
    lemma_distribute(q, r * v, u * s);
    lemma_distribute(s, u * q, p * v);
    lemma_exchange(r, q, v);
    lemma_exchange(u, s, q);
    lemma_exchange(p, s, v);
}

/// The weights of a point sum to the doubled area, and they locate the
/// point: scaled by the doubled area, the point is the weighted sum of the
/// corners.
pub proof fn lemma_weights_locate_point(t: Triangle, x: int, y: int)
    ensures
        t.weight_a(x, y) + t.weight_b(x, y) + t.weight_c(x, y) == t.doubled_area(),
        t.doubled_area() * x == t.weight_a(x, y) * t.ax + t.weight_b(x, y) * t.bx + t.weight_c(
            x,
            y,
        ) * t.cx,
        t.doubled_area() * y == t.weight_a(x, y) * t.ay + t.weight_b(x, y) * t.by + t.weight_c(
            x,
            y,
        ) * t.cy,
{
    let ax = t.ax as int;
    let ay = t.ay as int;
    let p = t.bx - t.ax;
    let q = t.by - t.ay;
    let r = t.cx - t.ax;
    let s = t.cy - t.ay;
    let u = x - t.ax;
    let v = y - t.ay;
    let d = t.doubled_area();
    let wb = t.weight_b(x, y);
    let wc = t.weight_c(x, y);
    // the weights, seen from corner a
    assert((t.ax - x) * s == -(u * s)) by (nonlinear_arith)
        requires
            u == x - t.ax,
    ;
    assert(r * (t.ay - y) == -(r * v)) by (nonlinear_arith)
        requires
            v == y - t.ay,
    ;
    assert(p * (t.ay - y) == -(p * v)) by (nonlinear_arith)
        requires
            v == y - t.ay,
    ;
    assert((t.ax - x) * q == -(u * q)) by (nonlinear_arith)
        requires
            u == x - t.ax,
    ;
    assert(wb == r * v - u * s);
    assert(wc == u * q - p * v);
    assert(d == r * q - p * s);
    lemma_cross_identity(p, q, r, s, u, v);
    // back to the grid's origin
    lemma_distribute(d, u, ax);
    lemma_distribute(wb, p, ax);
    lemma_distribute(wc, r, ax);
    lemma_distribute(ax, d, wb);
    lemma_distribute(ax, d - wb, wc);
    lemma_distribute(d, v, ay);
    lemma_distribute(wb, q, ay);
    lemma_distribute(wc, s, ay);
    lemma_distribute(ay, d, wb);
    lemma_distribute(ay, d - wb, wc);
}

/// A covered point lies within the bounding box of the corners.
pub proof fn lemma_covered_within_corners(t: Triangle, x: int, y: int)
    requires
        t.covers(x, y),
    ensures
        min3(t.ax as int, t.bx as int, t.cx as int) <= x <= max3(
            t.ax as int,
            t.bx as int,
            t.cx as int,
        ),
        min3(t.ay as int, t.by as int, t.cy as int) <= y <= max3(
            t.ay as int,
            t.by as int,
            t.cy as int,
        ),
{
    lemma_weights_locate_point(t, x, y);
    let d = t.doubled_area();
    let wa = t.weight_a(x, y);
    let wb = t.weight_b(x, y);
    let wc = t.weight_c(x, y);
    lemma_convex_between(d, wa, wb, wc, t.ax as int, t.bx as int, t.cx as int, x);
    lemma_convex_between(d, wa, wb, wc, t.ay as int, t.by as int, t.cy as int, y);
}

/// A weighted mean with weights of one sign lies between the least and the
/// greatest of the values.
proof fn lemma_convex_between(d: int, wa: int, wb: int, wc: int, a: int, b: int, c: int, x: int)
    requires
        d != 0,
        wa + wb + wc == d,
        same_side(wa, d),
        same_side(wb, d),
        same_side(wc, d),
        d * x == wa * a + wb * b + wc * c,
    ensures
        min3(a, b, c) <= x <= max3(a, b, c),
{
    let lo = min3(a, b, c);
    let hi = max3(a, b, c);
    lemma_distribute(lo, wa + wb, wc);
    lemma_distribute(lo, wa, wb);
    lemma_distribute(hi, wa + wb, wc);
    lemma_distribute(hi, wa, wb);
    lemma_scaled_order(wa, d, lo, a, hi);
    lemma_scaled_order(wb, d, lo, b, hi);
    lemma_scaled_order(wc, d, lo, c, hi);
    if d > 0 {
        assert(d * lo <= d * x <= d * hi);
        assert(lo <= x <= hi) by (nonlinear_arith)
            requires
                d > 0,
                d * lo <= d * x <= d * hi,
        ;
    } else {
        assert(d * lo >= d * x >= d * hi);
        assert(lo <= x <= hi) by (nonlinear_arith)
            requires
                d < 0,
                d * lo >= d * x >= d * hi,
        ;
    }
}

/// Scaling by a weight keeps the order of values where the weight is not
/// negative, and turns it round where it is not positive.
proof fn lemma_scaled_order(w: int, d: int, lo: int, v: int, hi: int)
    by (nonlinear_arith)
    requires
        same_side(w, d),
        lo <= v <= hi,
    ensures
        d > 0 ==> w * lo <= w * v <= w * hi,
        d < 0 ==> w * lo >= w * v >= w * hi,
{
}

/// Exchanging two corners turns every weight and the area round, so the
/// points covered stay the same: coverage does not depend on the winding.
pub proof fn lemma_winding_keeps_coverage(t: Triangle, x: int, y: int)
    ensures
        t.reversed().doubled_area() == -t.doubled_area(),
        t.reversed().weight_a(x, y) == -t.weight_a(x, y),
        t.reversed().weight_b(x, y) == -t.weight_c(x, y),
        t.reversed().weight_c(x, y) == -t.weight_b(x, y),
        t.reversed().covers(x, y) == t.covers(x, y),
{
}

/// A triangle with area covers its own corners.
pub proof fn lemma_corners_covered(t: Triangle)
    requires
        t.doubled_area() != 0,
    ensures
        t.covers(t.ax as int, t.ay as int),
        t.covers(t.bx as int, t.by as int),
        t.covers(t.cx as int, t.cy as int),
{
    let p = t.bx - t.ax;
    let q = t.by - t.ay;
    let r = t.cx - t.ax;
    let s = t.cy - t.ay;
    lemma_distribute(0, p, q);
    lemma_distribute(0, r, s);
    assert(t.weight_b(t.ax as int, t.ay as int) == 0);
    assert(t.weight_c(t.ax as int, t.ay as int) == 0);
    assert((t.ax - t.bx) * s == -(p * s) && r * (t.ay - t.by) == -(r * q) && p * (t.ay - t.by)
        == -(p * q) && (t.ax - t.bx) * q == -(p * q)) by (nonlinear_arith)
        requires
            p == t.bx - t.ax,
            q == t.by - t.ay,
    ;
    assert(t.weight_b(t.bx as int, t.by as int) == t.doubled_area());
    assert(t.weight_c(t.bx as int, t.by as int) == 0);
    assert((t.ax - t.cx) * s == -(r * s) && r * (t.ay - t.cy) == -(r * s) && p * (t.ay - t.cy)
        == -(p * s) && (t.ax - t.cx) * q == -(r * q)) by (nonlinear_arith)
        requires
            r == t.cx - t.ax,
            s == t.cy - t.ay,
    ;
    assert(t.weight_b(t.cx as int, t.cy as int) == 0);
    assert(t.weight_c(t.cx as int, t.cy as int) == t.doubled_area());
}

/// Two scan conversions of one triangle on one grid agree up to `n`.
proof fn lemma_coverage_prefix(
    f: Seq<Fragment>,
    g: Seq<Fragment>,
    width: int,
    height: int,
    t: Triangle,
    n: int,
)
    requires
        is_coverage(f, width, height, t),
        is_coverage(g, width, height, t),
        0 <= n <= f.len(),
        n <= g.len(),
    ensures
        forall|i: int| 0 <= i < n ==> f[i] == g[i],
    decreases n,
{
    if n > 0 {
        lemma_coverage_prefix(f, g, width, height, t, n - 1);
        let i = n - 1;
        assert(has_fragment(g, f[i].x as int, f[i].y as int));
        let k = choose|k: int|
            0 <= k < g.len() && (#[trigger] g[k]).x == f[i].x && g[k].y == f[i].y;
        assert(has_fragment(f, g[i].x as int, g[i].y as int));
        let m = choose|m: int|
            0 <= m < f.len() && (#[trigger] f[m]).x == g[i].x && f[m].y == g[i].y;
        if k < i {
            assert(f[k] == g[k]);
        }
        if m < i {
            assert(f[m] == g[m]);
        }
        assert(f[i].x == g[i].x && f[i].y == g[i].y);
        assert(f[i].weights.values() == g[i].weights.values());
    }
}

/// Scan conversion has one result: two sequences that both are the
/// coverage of a triangle on a grid are the same sequence.
pub proof fn lemma_coverage_unique(
    f: Seq<Fragment>,
    g: Seq<Fragment>,
    width: int,
    height: int,
    t: Triangle,
)
    requires
        is_coverage(f, width, height, t),
        is_coverage(g, width, height, t),
    ensures
        f == g,
{
    let n = if f.len() <= g.len() {
        f.len() as int
    } else {
        g.len() as int
    };
    lemma_coverage_prefix(f, g, width, height, t, n);
    if f.len() > n {
        assert(has_fragment(g, f[n].x as int, f[n].y as int));
        let k = choose|k: int|
            0 <= k < g.len() && (#[trigger] g[k]).x == f[n].x && g[k].y == f[n].y;
        assert(f[k] == g[k]);
    }
    if g.len() > n {
        assert(has_fragment(f, g[n].x as int, g[n].y as int));
        let m = choose|m: int|
            0 <= m < f.len() && (#[trigger] f[m]).x == g[n].x && f[m].y == g[n].y;
        assert(f[m] == g[m]);
    }
    assert(f =~= g);
}

/// How many grid points a clamped box holds.
pub open spec fn box_cells(b: (int, int, int, int)) -> int {
    (b.2 - b.0 + 1) * (b.3 - b.1 + 1)
}

/// The place of fragment `i` within the clamped box, counted row by row,
/// is at least `i`.
proof fn lemma_fragment_place(
    fragments: Seq<Fragment>,
    width: int,
    height: int,
    t: Triangle,
    i: int,
)
    requires
        is_coverage(fragments, width, height, t),
        width > 0,
        height > 0,
        0 <= i < fragments.len(),
    ensures
        ({
            let b = t.clamped_box(width, height);
            &&& b.0 <= fragments[i].x <= b.2
            &&& b.1 <= fragments[i].y <= b.3
            &&& i <= (fragments[i].y - b.1) * (b.2 - b.0 + 1) + (fragments[i].x - b.0)
        }),
    decreases i,
{
    let b = t.clamped_box(width, height);
    let f = fragments[i];
    lemma_covered_within_corners(t, f.x as int, f.y as int);
    let row = b.2 - b.0 + 1;
    if i == 0 {
        assert((f.y - b.1) * row >= 0) by (nonlinear_arith)
            requires
                f.y - b.1 >= 0,
                row >= 1,
        ;
    } else {
        lemma_fragment_place(fragments, width, height, t, i - 1);
        let e = fragments[i - 1];
        if e.y < f.y {
            assert((f.y - b.1) * row >= (e.y - b.1) * row + row) by (nonlinear_arith)
                requires
                    f.y - b.1 >= e.y - b.1 + 1,
                    row >= 1,
            ;
        }
    }
}

/// A triangle yields no more fragments than its bounding box, clamped to
/// the grid, holds grid points.
pub proof fn lemma_fragment_count(fragments: Seq<Fragment>, width: int, height: int, t: Triangle)
    requires
        is_coverage(fragments, width, height, t),
        width > 0,
        height > 0,
    ensures
        fragments.len() <= box_cells(t.clamped_box(width, height)),
{
    let b = t.clamped_box(width, height);
    let row = b.2 - b.0 + 1;
    let rows = b.3 - b.1 + 1;
    if fragments.len() > 0 {
        let i = fragments.len() - 1;
        lemma_fragment_place(fragments, width, height, t, i);
        let f = fragments[i];
        assert((f.y - b.1) * row + row <= rows * row && rows * row == row * rows)
            by (nonlinear_arith)
            requires
                f.y - b.1 + 1 <= rows,
                row >= 1,
        ;
    } else {
        assert(row * rows >= 0) by (nonlinear_arith)
            requires
                row >= 1,
                rows >= 1,
        ;
    }
}

/// The product of two differences of 32-bit numbers stays far inside 128
/// bits.
proof fn lemma_product_bound(a: int, b: int)
    by (nonlinear_arith)
    requires
        -0x1_0000_0000 < a < 0x1_0000_0000,
        -0x1_0000_0000 < b < 0x1_0000_0000,
    ensures
        -0x1_0000_0000_0000_0000 < a * b < 0x1_0000_0000_0000_0000,
{
}

fn product(a: i64, b: i64) -> (r: i128)
    requires
        -0x1_0000_0000 < a < 0x1_0000_0000,
        -0x1_0000_0000 < b < 0x1_0000_0000,
    ensures
        r == a * b,
        -0x1_0000_0000_0000_0000 < r < 0x1_0000_0000_0000_0000,
{
    proof {
        lemma_product_bound(a as int, b as int);
    }
    (a as i128) * (b as i128)
}

fn least(a: i32, b: i32, c: i32) -> (r: i32)
    ensures
        r == min3(a as int, b as int, c as int),
{
    if a <= b && a <= c {
        a
    } else if b <= c {
        b
    } else {
        c
    }
}

fn greatest(a: i32, b: i32, c: i32) -> (r: i32)
    ensures
        r == max3(a as int, b as int, c as int),
{
    if a >= b && a >= c {
        a
    } else if b >= c {
        b
    } else {
        c
    }
}

fn clamped(v: i32, lo: i32, hi: i32) -> (r: i32)
    ensures
        r == clamp(v as int, lo as int, hi as int),
{
    if v < lo {
        lo
    } else if v > hi {
        hi
    } else {
        v
    }
}

impl Weights {
    /// The inside test of scan conversion.
    pub fn is_inside(&self) -> (r: bool)
        ensures
            r == self.inside(),
    {
        if self.a >= 0 && self.b >= 0 && self.c >= 0 {
            self.a > 0 || self.b > 0 || self.c > 0
        } else if self.a <= 0 && self.b <= 0 && self.c <= 0 {
            self.a < 0 || self.b < 0 || self.c < 0
        } else {
            false
        }
    }
}

impl Triangle {
    /// The triangle whose corners are the given numbers, each rounded
    /// toward zero to a grid coordinate.
    pub fn truncate(ax: u32, ay: u32, bx: u32, by: u32, cx: u32, cy: u32) -> (t: Triangle)
        ensures
            t.ax == Triangle::coordinate(ax),
            t.ay == Triangle::coordinate(ay),
            t.bx == Triangle::coordinate(bx),
            t.by == Triangle::coordinate(by),
            t.cx == Triangle::coordinate(cx),
            t.cy == Triangle::coordinate(cy),
    {
        Triangle {
            ax: to_i32(ax),
            ay: to_i32(ay),
            bx: to_i32(bx),
            by: to_i32(by),
            cx: to_i32(cx),
            cy: to_i32(cy),
        }
    }

    /// Twice the signed area of the triangle.
    pub fn twice_area(&self) -> (d: i128)
        ensures
            d == self.doubled_area(),
            -0x2_0000_0000_0000_0000 < d < 0x2_0000_0000_0000_0000,
    {
        let p: i64 = self.bx as i64 - self.ax as i64;
        let q: i64 = self.by as i64 - self.ay as i64;
        let r: i64 = self.cx as i64 - self.ax as i64;
        let s: i64 = self.cy as i64 - self.ay as i64;
        product(r, q) - product(p, s)
    }

    /// The scaled barycentric weights of the grid point `(x, y)`.
    pub fn weights(&self, x: i32, y: i32) -> (w: Weights)
        ensures
            w.values() == self.weights_at(x as int, y as int),
            w.inside() == self.covers(x as int, y as int),
            -0x8_0000_0000_0000_0000 < w.a < 0x8_0000_0000_0000_0000,
            -0x2_0000_0000_0000_0000 < w.b < 0x2_0000_0000_0000_0000,
            -0x2_0000_0000_0000_0000 < w.c < 0x2_0000_0000_0000_0000,
    {
        let p: i64 = self.bx as i64 - self.ax as i64;
        let q: i64 = self.by as i64 - self.ay as i64;
        let r: i64 = self.cx as i64 - self.ax as i64;
        let s: i64 = self.cy as i64 - self.ay as i64;
        let u: i64 = self.ax as i64 - x as i64;
        let v: i64 = self.ay as i64 - y as i64;
        let d: i128 = self.twice_area();
        let b: i128 = product(u, s) - product(r, v);
        let c: i128 = product(p, v) - product(u, q);
        Weights { a: d - b - c, b, c }
    }

    /// Whether the closed triangle holds the grid point `(x, y)`.
    pub fn contains(&self, x: i32, y: i32) -> (r: bool)
        ensures
            r == self.covers(x as int, y as int),
    {
        self.weights(x, y).is_inside()
    }

    /// The bounding box of the corners, clamped to the grid; `None` for a
    /// grid without points.
    pub fn bounds(&self, width: i32, height: i32) -> (r: Option<Bounds>)
        ensures
            r is None <==> width <= 0 || height <= 0,
            r matches Some(b) ==> b.values() == self.clamped_box(width as int, height as int),
    {
        if width <= 0 || height <= 0 {
            return None;
        }
        let max_width: i32 = width - 1;
        let max_height: i32 = height - 1;
        Some(
            Bounds {
                minx: clamped(least(self.ax, self.bx, self.cx), 0, max_width),
                miny: clamped(least(self.ay, self.by, self.cy), 0, max_height),
                maxx: clamped(greatest(self.ax, self.bx, self.cx), 0, max_width),
                maxy: clamped(greatest(self.ay, self.by, self.cy), 0, max_height),
            },
        )
    }
}

/// A fragment found earlier is still there after one more is appended.
proof fn lemma_push_keeps_fragment(fragments: Seq<Fragment>, f: Fragment, x: int, y: int)
    requires
        has_fragment(fragments, x, y),
    ensures
        has_fragment(fragments.push(f), x, y),
{
    let i = choose|i: int|
        0 <= i < fragments.len() && (#[trigger] fragments[i]).x == x && fragments[i].y == y;
    assert(fragments.push(f)[i] == fragments[i]);
}

/// The fragments found once the scan has reached `(x, y)`: those of the
/// grid points before it, in row-major order.
spec fn scanned_up_to(
    fragments: Seq<Fragment>,
    width: int,
    height: int,
    t: Triangle,
    x: int,
    y: int,
) -> bool {
    &&& forall|i: int|
        0 <= i < fragments.len() ==> {
            let f = #[trigger] fragments[i];
            &&& 0 <= f.x < width
            &&& 0 <= f.y < height
            &&& row_major_before(f.x as int, f.y as int, x, y)
            &&& t.covers(f.x as int, f.y as int)
            &&& f.weights.values() == t.weights_at(f.x as int, f.y as int)
        }
    &&& forall|i: int, j: int|
        0 <= i < j < fragments.len() ==> row_major_before(
            (#[trigger] fragments[i]).x as int,
            fragments[i].y as int,
            (#[trigger] fragments[j]).x as int,
            fragments[j].y as int,
        )
    &&& forall|px: int, py: int|
        0 <= px < width && 0 <= py < height && row_major_before(px, py, x, y)
            && #[trigger] t.covers(px, py) ==> has_fragment(fragments, px, py)
}

/// Scan conversion: the grid points of a `width` by `height` grid that the
/// triangle covers, in row-major order, each with its weights. A triangle
/// without area yields nothing, and so does an empty grid.
pub fn raster_triangle(width: i32, height: i32, triangle: &Triangle) -> (fragments: Vec<Fragment>)
    ensures
        is_coverage(fragments@, width as int, height as int, *triangle),
        triangle.doubled_area() == 0 ==> fragments@.len() == 0,
{
    let mut fragments: Vec<Fragment> = Vec::new();
    let t = *triangle;
    let bounds = match t.bounds(width, height) {
        None => {
            return fragments;
        },
        Some(b) => b,
    };
    if t.twice_area() == 0 {
        return fragments;
    }
    proof {
        assert forall|px: int, py: int| #[trigger] t.covers(px, py) implies bounds.minx <= px
            <= bounds.maxx && bounds.miny <= py <= bounds.maxy || !(0 <= px < width && 0 <= py
            < height) by {
            lemma_covered_within_corners(t, px, py);
        }
    }
    let mut y: i32 = bounds.miny;
    while y <= bounds.maxy
        invariant
            width > 0,
            height > 0,
            bounds.values() == t.clamped_box(width as int, height as int),
            bounds.miny <= y <= bounds.maxy + 1,
            scanned_up_to(fragments@, width as int, height as int, t, 0, y as int),
            forall|px: int, py: int| #[trigger]
                t.covers(px, py) ==> bounds.minx <= px <= bounds.maxx && bounds.miny <= py
                    <= bounds.maxy || !(0 <= px < width && 0 <= py < height),
        decreases bounds.maxy + 1 - y,
    {
        let mut x: i32 = bounds.minx;
        while x <= bounds.maxx
            invariant
                width > 0,
                height > 0,
                bounds.values() == t.clamped_box(width as int, height as int),
                bounds.miny <= y <= bounds.maxy,
                bounds.minx <= x <= bounds.maxx + 1,
                scanned_up_to(fragments@, width as int, height as int, t, x as int, y as int),
                forall|px: int, py: int| #[trigger]
                    t.covers(px, py) ==> bounds.minx <= px <= bounds.maxx && bounds.miny <= py
                        <= bounds.maxy || !(0 <= px < width && 0 <= py < height),
            decreases bounds.maxx + 1 - x,
        {
            let weights = t.weights(x, y);
            if weights.is_inside() {
                let f = Fragment { x, y, weights };
                proof {
                    let before = fragments@;
                    assert forall|px: int, py: int|
                        0 <= px < width && 0 <= py < height && row_major_before(
                            px,
                            py,
                            x + 1,
                            y as int,
                        ) && #[trigger] t.covers(px, py) implies has_fragment(
                        before.push(f),
                        px,
                        py,
                    ) by {
                        if px == x && py == y {
                            assert(before.push(f)[before.len() as int] == f);
                        } else {
                            lemma_push_keeps_fragment(before, f, px, py);
                        }
                    }
                }
                fragments.push(f);
            }
            x += 1;
        }
        y += 1;
    }
    fragments
}

} // verus!
