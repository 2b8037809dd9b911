use vstd::prelude::*;

use crate::geometry::{distance, is_floor_sqrt, sq_dist, Point, VisionError};

verus! {

/// The largest magnitude of a corner coordinate that the projective
/// estimation accepts; it keeps every intermediate product within 128 bits.
pub const MAX_COORD: i32 = 16384;

/// A 3x3 matrix over the integers, used in homogeneous coordinates.
pub ghost struct IMat3 {
    pub m00: int,
    pub m01: int,
    pub m02: int,
    pub m10: int,
    pub m11: int,
    pub m12: int,
    pub m20: int,
    pub m21: int,
    pub m22: int,
}

/// A 3x3 integer matrix acting on homogeneous coordinates `(x, y, w)`.
/// Scaling the matrix by a nonzero factor leaves the mapping unchanged.
#[derive(Debug, Clone, Copy, PartialEq, Eq, Structural)]
pub struct Mat3 {
    pub m00: i128,
    pub m01: i128,
    pub m02: i128,
    pub m10: i128,
    pub m11: i128,
    pub m12: i128,
    pub m20: i128,
    pub m21: i128,
    pub m22: i128,
}

impl View for Mat3 {
    type V = IMat3;

    open spec fn view(&self) -> IMat3 {
        IMat3 {
            m00: self.m00 as int,
            m01: self.m01 as int,
            m02: self.m02 as int,
            m10: self.m10 as int,
            m11: self.m11 as int,
            m12: self.m12 as int,
            m20: self.m20 as int,
            m21: self.m21 as int,
            m22: self.m22 as int,
        }
    }
}

/// A projective mapping: `forward` takes source points to destination
/// points, `inverse` takes them back.
#[derive(Debug, Clone, Copy, PartialEq, Eq, Structural)]
pub struct Homography {
    pub forward: Mat3,
    pub inverse: Mat3,
}

pub open spec fn apply(m: IMat3, x: int, y: int, z: int) -> (int, int, int) {
    (
        m.m00 * x + m.m01 * y + m.m02 * z,
        m.m10 * x + m.m11 * y + m.m12 * z,
        m.m20 * x + m.m21 * y + m.m22 * z,
    )
}

/// `m` sends the point `(x, y)` to the point `(u, v)`: the image of
/// `(x, y, 1)` is a nonzero multiple of `(u, v, 1)`.
pub open spec fn maps_to(m: IMat3, x: int, y: int, u: int, v: int) -> bool {
    let r = apply(m, x, y, 1);
    r.2 != 0 && r.0 == u * r.2 && r.1 == v * r.2
}

/// Twice the signed area of the triangle `a, b, c`; zero exactly when the
/// three points are collinear.
pub open spec fn cross(a: Point, b: Point, c: Point) -> int {
    (b.x - a.x) * (c.y - a.y) - (b.y - a.y) * (c.x - a.x)
}

/// Some three of the four points lie on one line (coincident points included).
pub open spec fn degenerate(q: Seq<Point>) -> bool {
    cross(q[0], q[1], q[2]) == 0 || cross(q[0], q[1], q[3]) == 0 || cross(q[0], q[2], q[3])
        == 0 || cross(q[1], q[2], q[3]) == 0
}

pub open spec fn in_range(p: Point) -> bool {
    -MAX_COORD <= p.x <= MAX_COORD && -MAX_COORD <= p.y <= MAX_COORD
}

pub open spec fn all_in_range(q: Seq<Point>) -> bool {
    forall|i: int| 0 <= i < q.len() ==> in_range(#[trigger] q[i])
}

/// The larger of two values.
pub open spec fn max_int(a: int, b: int) -> int {
    if a >= b { a } else { b }
}

/// The floor of the Euclidean distance between two points.
pub open spec fn floor_dist(p: Point, q: Point) -> int {
    choose|r: int| is_floor_sqrt(sq_dist(p, q), r)
}

/// Width of the rectified view of the ordered corners `tl, tr, br, bl`.
pub open spec fn rect_width(q: Seq<Point>) -> int {
    max_int(floor_dist(q[2], q[3]), floor_dist(q[1], q[0]))
}

/// Height of the rectified view of the ordered corners `tl, tr, br, bl`.
pub open spec fn rect_height(q: Seq<Point>) -> int {
    max_int(floor_dist(q[1], q[2]), floor_dist(q[0], q[3]))
}

/// The line through `a` and `b` in homogeneous coordinates.
pub open spec fn line(a: Point, b: Point) -> (int, int, int) {
    (a.y - b.y, b.x - a.x, a.x * b.y - a.y * b.x)
}

/// The line `l` evaluated at `p`; zero exactly when `p` lies on it.
pub open spec fn dot(l: (int, int, int), p: Point) -> int {
    l.0 * p.x + l.1 * p.y + l.2
}

/// The weights of the corners: twice the signed areas of the triangles
/// that leave out corner 1, 3, 2 and 0 in turn.
pub open spec fn weight1(q: Seq<Point>) -> int {
    cross(q[0], q[2], q[3])
}

pub open spec fn weight3(q: Seq<Point>) -> int {
    cross(q[0], q[1], q[2])
}

pub open spec fn weight2(q: Seq<Point>) -> int {
    cross(q[0], q[1], q[3])
}

pub open spec fn weight0(q: Seq<Point>) -> int {
    weight1(q) + weight3(q) - weight2(q)
}

/// The mapping from the rectified view back onto the quadrilateral `q`,
/// whose corners sit at `(0,0), (wd,0), (wd,hd), (0,hd)` in the view. Its
/// columns are the corners of `q` in homogeneous coordinates, weighted so
/// that the view's fourth corner lands on `q[2]`.
pub open spec fn inverse_map(q: Seq<Point>, wd: int, hd: int) -> IMat3 {
    let w1 = weight1(q);
    let w3 = weight3(q);
    let d = weight0(q);
    let k = wd * hd;
    IMat3 {
        m00: hd * (w1 * q[1].x - d * q[0].x),
        m01: wd * (w3 * q[3].x - d * q[0].x),
        m02: k * (d * q[0].x),
        m10: hd * (w1 * q[1].y - d * q[0].y),
        m11: wd * (w3 * q[3].y - d * q[0].y),
        m12: k * (d * q[0].y),
        m20: hd * (w1 - d),
        m21: wd * (w3 - d),
        m22: k * d,
    }
}

/// The mapping from the quadrilateral `q` onto the rectified view. Its rows
/// are weighted lines through the corners of `q`: the first vanishes on the
/// edge `q[3] q[0]`, the second on the edge `q[0] q[1]`.
pub open spec fn forward_map(q: Seq<Point>, wd: int, hd: int) -> IMat3 {
    let w1 = weight1(q);
    let w3 = weight3(q);
    let d = weight0(q);
    let l30 = line(q[3], q[0]);
    let l01 = line(q[0], q[1]);
    let l13 = line(q[1], q[3]);
    let s0 = d * w3;
    let s1 = d * w1;
    let t1 = w1 * w3;
    let t2 = w1 * d;
    let t3 = w3 * d;
    IMat3 {
        m00: wd * (s0 * l30.0),
        m01: wd * (s0 * l30.1),
        m02: wd * (s0 * l30.2),
        m10: hd * (s1 * l01.0),
        m11: hd * (s1 * l01.1),
        m12: hd * (s1 * l01.2),
        m20: t1 * l13.0 + t2 * l01.0 + t3 * l30.0,
        m21: t1 * l13.1 + t2 * l01.1 + t3 * l30.1,
        m22: t1 * l13.2 + t2 * l01.2 + t3 * l30.2,
    }
}

/// The corners of the rectified view: `(0,0), (wd,0), (wd,hd), (0,hd)`.
pub open spec fn view_corner(i: int, wd: int, hd: int) -> (int, int) {
    if i == 0 {
        (0, 0)
    } else if i == 1 {
        (wd, 0)
    } else if i == 2 {
        (wd, hd)
    } else {
        (0, hd)
    }
}

/// `h` takes each corner of `q` to the matching corner of the view and back.
pub open spec fn corners_mapped(h: Homography, q: Seq<Point>, wd: int, hd: int) -> bool {
    forall|i: int|
        0 <= i < 4 ==> {
            let c = #[trigger] view_corner(i, wd, hd);
            &&& maps_to(h.forward@, q[i].x as int, q[i].y as int, c.0, c.1)
            &&& maps_to(h.inverse@, c.0, c.1, q[i].x as int, q[i].y as int)
        }
}

/// `v` is at most `b` in magnitude.
pub open spec fn bounded(v: int, b: int) -> bool {
    -b <= v <= b
}

/// Every entry of `m` is at most `b` in magnitude.
pub open spec fn mat_bounded(m: IMat3, b: int) -> bool {
    &&& bounded(m.m00, b)
    &&& bounded(m.m01, b)
    &&& bounded(m.m02, b)
    &&& bounded(m.m10, b)
    &&& bounded(m.m11, b)
    &&& bounded(m.m12, b)
    &&& bounded(m.m20, b)
    &&& bounded(m.m21, b)
    &&& bounded(m.m22, b)
}

proof fn lemma_mul_bound(a: int, b: int, ba: int, bb: int)
    requires
        bounded(a, ba),
        bounded(b, bb),
    ensures
        bounded(a * b, ba * bb),
{
    assert(-(ba * bb) <= a * b <= ba * bb) by (nonlinear_arith)
        requires
            -ba <= a <= ba,
            -bb <= b <= bb,
    ;
}

pub(crate) fn mul_b(a: i128, b: i128, Ghost(ba): Ghost<int>, Ghost(bb): Ghost<int>) -> (r: i128)
    requires
        bounded(a as int, ba),
        bounded(b as int, bb),
        ba * bb <= 0x7fff_ffff_ffff_ffff_ffff_ffff_ffff_ffffi128,
    ensures
        r == a * b,
        bounded(r as int, ba * bb),
{
    proof {
        lemma_mul_bound(a as int, b as int, ba, bb);
    }
    a * b
}

/// Applies `m` to `(x, y, z)`.
pub(crate) fn apply_exec(
    m: &Mat3,
    x: i128,
    y: i128,
    z: i128,
    Ghost(bm): Ghost<int>,
    Ghost(bv): Ghost<int>,
) -> (r: (i128, i128, i128))
    requires
        mat_bounded(m@, bm),
        bounded(x as int, bv),
        bounded(y as int, bv),
        bounded(z as int, bv),
        0 <= bm,
        0 <= bv,
        3 * (bm * bv) <= 0x7fff_ffff_ffff_ffff_ffff_ffff_ffff_ffffi128,
    ensures
        (r.0 as int, r.1 as int, r.2 as int) == apply(m@, x as int, y as int, z as int),
        bounded(r.0 as int, 3 * (bm * bv)),
        bounded(r.1 as int, 3 * (bm * bv)),
        bounded(r.2 as int, 3 * (bm * bv)),
{
    let a0 = mul_b(m.m00, x, Ghost(bm), Ghost(bv));
    let a1 = mul_b(m.m01, y, Ghost(bm), Ghost(bv));
    let a2 = mul_b(m.m02, z, Ghost(bm), Ghost(bv));
    let b0 = mul_b(m.m10, x, Ghost(bm), Ghost(bv));
    let b1 = mul_b(m.m11, y, Ghost(bm), Ghost(bv));
    let b2 = mul_b(m.m12, z, Ghost(bm), Ghost(bv));
    let c0 = mul_b(m.m20, x, Ghost(bm), Ghost(bv));
    let c1 = mul_b(m.m21, y, Ghost(bm), Ghost(bv));
    let c2 = mul_b(m.m22, z, Ghost(bm), Ghost(bv));
    (a0 + a1 + a2, b0 + b1 + b2, c0 + c1 + c2)
}

pub(crate) proof fn lemma_floor_sqrt_unique(n: int, r1: int, r2: int)
    requires
        is_floor_sqrt(n, r1),
        is_floor_sqrt(n, r2),
    ensures
        r1 == r2,
{
    if r1 < r2 {
        assert((r1 + 1) * (r1 + 1) <= r2 * r2) by (nonlinear_arith)
            requires
                0 <= r1 + 1 <= r2,
        ;
    } else if r2 < r1 {
        assert((r2 + 1) * (r2 + 1) <= r1 * r1) by (nonlinear_arith)
            requires
                0 <= r2 + 1 <= r1,
        ;
    }
}

/// The floor distance between two points in range, with its bound.
fn corner_distance(p: Point, q: Point) -> (r: u64)
    ensures
        r == floor_dist(p, q),
        is_floor_sqrt(sq_dist(p, q), r as int),
{
    let d = distance(&p, &q);
    proof {
        let n = sq_dist(p, q);
        assert(is_floor_sqrt(n, floor_dist(p, q)));
        lemma_floor_sqrt_unique(n, d as int, floor_dist(p, q));
    }
    d
}

proof fn lemma_corner_distance_bound(p: Point, q: Point, r: int)
    requires
        in_range(p),
        in_range(q),
        is_floor_sqrt(sq_dist(p, q), r),
    ensures
        r < 0x1_0000,
{
    let n = sq_dist(p, q);
    lemma_mul_bound(p.x - q.x, p.x - q.x, 0x8000, 0x8000);
    lemma_mul_bound(p.y - q.y, p.y - q.y, 0x8000, 0x8000);
    assert(is_floor_sqrt(n, r));
    assert(r < 0x1_0000) by (nonlinear_arith)
        requires
            0 <= r,
            r * r <= n,
            n <= 0x8000_0000,
    ;
}

fn in_range_exec(p: Point) -> (r: bool)
    ensures
        r == in_range(p),
{
    -MAX_COORD <= p.x && p.x <= MAX_COORD && -MAX_COORD <= p.y && p.y <= MAX_COORD
}

proof fn lemma_line_dot(a: Point, b: Point, c: Point)
    ensures
        dot(line(a, b), c) == cross(a, b, c),
{
    let (ax, ay, bx, by, cx, cy) = (a.x as int, a.y as int, b.x as int, b.y as int, c.x as int, c.y as int);
    assert((ay - by) * cx + (bx - ax) * cy + (ax * by - ay * bx) == (bx - ax) * (cy - ay) - (by
        - ay) * (cx - ax)) by (nonlinear_arith);
}

proof fn lemma_cross_perm(a: Point, b: Point, c: Point)
    ensures
        cross(b, c, a) == cross(a, b, c),
        cross(a, c, b) == -cross(a, b, c),
        cross(a, b, a) == 0,
        cross(a, b, b) == 0,
{
    let (ax, ay, bx, by, cx, cy) = (a.x as int, a.y as int, b.x as int, b.y as int, c.x as int, c.y as int);
    assert((cx - bx) * (ay - by) - (cy - by) * (ax - bx) == (bx - ax) * (cy - ay) - (by - ay) * (
    cx - ax)) by (nonlinear_arith);
    assert((cx - ax) * (by - ay) - (cy - ay) * (bx - ax) == -((bx - ax) * (cy - ay) - (by - ay) * (
    cx - ax))) by (nonlinear_arith);
    assert((bx - ax) * (ay - ay) - (by - ay) * (ax - ax) == 0) by (nonlinear_arith);
    assert((bx - ax) * (by - ay) - (by - ay) * (bx - ax) == 0) by (nonlinear_arith);
}

/// The weight of corner 0 is the signed area of the triangle of the other
/// three, and the weighted corners satisfy
/// `w1 * q[1] + w3 * q[3] - w0 * q[0] == w2 * q[2]`.
proof fn lemma_weights(q: Seq<Point>)
    requires
        q.len() == 4,
    ensures
        weight0(q) == cross(q[1], q[2], q[3]),
        weight1(q) * q[1].x + weight3(q) * q[3].x - weight0(q) * q[0].x == weight2(q) * q[2].x,
        weight1(q) * q[1].y + weight3(q) * q[3].y - weight0(q) * q[0].y == weight2(q) * q[2].y,
{
    let (x0, y0) = (q[0].x as int, q[0].y as int);
    let (ax, ay) = (q[1].x - x0, q[1].y - y0);
    let (bx, by) = (q[2].x - x0, q[2].y - y0);
    let (cx, cy) = (q[3].x - x0, q[3].y - y0);
    let w1 = bx * cy - by * cx;
    let w3 = ax * by - ay * bx;
    let w2 = ax * cy - ay * cx;
    assert(w1 == weight1(q) && w3 == weight3(q) && w2 == weight2(q));
    assert((bx - ax) * (cy - ay) - (by - ay) * (cx - ax) == w1 + w3 - w2) by (nonlinear_arith)
        requires
            w1 == bx * cy - by * cx,
            w3 == ax * by - ay * bx,
            w2 == ax * cy - ay * cx,
    ;
    assert(w1 * ax + w3 * cx == w2 * bx) by (nonlinear_arith)
        requires
            w1 == bx * cy - by * cx,
            w3 == ax * by - ay * bx,
            w2 == ax * cy - ay * cx,
    ;
    assert(w1 * ay + w3 * cy == w2 * by) by (nonlinear_arith)
        requires
            w1 == bx * cy - by * cx,
            w3 == ax * by - ay * bx,
            w2 == ax * cy - ay * cx,
    ;
    let d = w1 + w3 - w2;
    lemma_dist(w1, x0, ax);
    lemma_dist(w3, x0, cx);
    lemma_dist(w2, x0, bx);
    lemma_dist(w1, y0, ay);
    lemma_dist(w3, y0, cy);
    lemma_dist(w2, y0, by);
    lemma_dist3r(w1, w3, -w2, x0);
    lemma_dist3r(w1, w3, -w2, y0);
    lemma_neg(w2, x0);
    lemma_neg(w2, y0);
    assert(q[1].x == x0 + ax && q[2].x == x0 + bx && q[3].x == x0 + cx);
    assert(q[1].y == y0 + ay && q[2].y == y0 + by && q[3].y == y0 + cy);
}

proof fn lemma_dist(a: int, b: int, c: int)
    ensures
        a * (b + c) == a * b + a * c,
{
    assert(a * (b + c) == a * b + a * c) by (nonlinear_arith);
}

proof fn lemma_neg(a: int, b: int)
    ensures
        (-a) * b == -(a * b),
{
    assert((-a) * b == -(a * b)) by (nonlinear_arith);
}

proof fn lemma_dist3r(a: int, b: int, c: int, x: int)
    ensures
        (a + b + c) * x == a * x + b * x + c * x,
{
    assert((a + b + c) * x == a * x + b * x + c * x) by (nonlinear_arith);
}

proof fn lemma_dist3(k: int, a: int, b: int, c: int)
    ensures
        k * a + k * b + k * c == k * (a + b + c),
{
    assert(k * a + k * b + k * c == k * (a + b + c)) by (nonlinear_arith);
}

proof fn lemma_assoc(a: int, b: int, c: int)
    ensures
        a * (b * c) == (a * b) * c,
{
    assert(a * (b * c) == (a * b) * c) by (nonlinear_arith);
}

proof fn lemma_columns(hd: int, wd: int, e: int, f: int, g: int)
    ensures
        hd * (e - f) * 0 + wd * (g - f) * 0 + (wd * hd) * f * 1 == (wd * hd) * f,
        hd * (e - f) * wd + wd * (g - f) * 0 + (wd * hd) * f * 1 == (wd * hd) * e,
        hd * (e - f) * 0 + wd * (g - f) * hd + (wd * hd) * f * 1 == (wd * hd) * g,
        hd * (e - f) * wd + wd * (g - f) * hd + (wd * hd) * f * 1 == (wd * hd) * (e + g - f),
{
    assert(hd * (e - f) * wd + wd * (g - f) * hd + (wd * hd) * f == (wd * hd) * (e + g - f))
        by (nonlinear_arith);
    assert(hd * (e - f) * wd + (wd * hd) * f == (wd * hd) * e) by (nonlinear_arith);
    assert(wd * (g - f) * hd + (wd * hd) * f == (wd * hd) * g) by (nonlinear_arith);
}

proof fn lemma_scaled(k: int, w: int, x: int)
    ensures
        k * (w * x) == x * (k * w),
{
    assert(k * (w * x) == x * (k * w)) by (nonlinear_arith);
}

proof fn lemma_nonzero(a: int, b: int)
    requires
        a != 0,
        b != 0,
    ensures
        a * b != 0,
{
    assert(a * b != 0) by (nonlinear_arith)
        requires
            a != 0,
            b != 0,
    ;
}

proof fn lemma_inverse_corners(q: Seq<Point>, wd: int, hd: int)
    requires
        q.len() == 4,
        wd != 0,
        hd != 0,
        weight0(q) != 0,
        weight1(q) != 0,
        weight2(q) != 0,
        weight3(q) != 0,
    ensures
        forall|i: int|
            0 <= i < 4 ==> {
                let c = #[trigger] view_corner(i, wd, hd);
                maps_to(inverse_map(q, wd, hd), c.0, c.1, q[i].x as int, q[i].y as int)
            },
{
    let m = inverse_map(q, wd, hd);
    let (w1, w2, w3, d) = (weight1(q), weight2(q), weight3(q), weight0(q));
    let k = wd * hd;
    lemma_weights(q);
    lemma_nonzero(wd, hd);
    lemma_nonzero(k, d);
    lemma_nonzero(k, w1);
    lemma_nonzero(k, w2);
    lemma_nonzero(k, w3);
    let (x0, y0, x1, y1) = (q[0].x as int, q[0].y as int, q[1].x as int, q[1].y as int);
    let (x2, y2, x3, y3) = (q[2].x as int, q[2].y as int, q[3].x as int, q[3].y as int);
    lemma_columns(hd, wd, w1 * x1, d * x0, w3 * x3);
    lemma_columns(hd, wd, w1 * y1, d * y0, w3 * y3);
    lemma_columns(hd, wd, w1, d, w3);
    lemma_scaled(k, d, x0);
    lemma_scaled(k, d, y0);
    lemma_scaled(k, w1, x1);
    lemma_scaled(k, w1, y1);
    lemma_scaled(k, w3, x3);
    lemma_scaled(k, w3, y3);
    lemma_scaled(k, w2, x2);
    lemma_scaled(k, w2, y2);
    assert(maps_to(m, 0, 0, x0, y0));
    assert(maps_to(m, wd, 0, x1, y1));
    assert(maps_to(m, 0, hd, x3, y3));
    assert(w1 + w3 - d == w2);
    assert(maps_to(m, wd, hd, x2, y2));
}

proof fn lemma_row1(c: int, s: int, l: (int, int, int), p: Point)
    ensures
        (c * (s * l.0)) * p.x + (c * (s * l.1)) * p.y + (c * (s * l.2)) * 1 == c * (s * dot(l, p)),
{
    let (x, y) = (p.x as int, p.y as int);
    let k = c * s;
    lemma_assoc(c, s, l.0);
    lemma_assoc(c, s, l.1);
    lemma_assoc(c, s, l.2);
    lemma_assoc(k, l.0, x);
    lemma_assoc(k, l.1, y);
    lemma_dist3(k, l.0 * x, l.1 * y, l.2);
    lemma_assoc(c, s, dot(l, p));
}

proof fn lemma_row3(t1: int, t2: int, t3: int, l: (int, int, int), m: (int, int, int), n: (int, int, int), p: Point)
    ensures
        (t1 * l.0 + t2 * m.0 + t3 * n.0) * p.x + (t1 * l.1 + t2 * m.1 + t3 * n.1) * p.y + (t1 * l.2
            + t2 * m.2 + t3 * n.2) * 1 == t1 * dot(l, p) + t2 * dot(m, p) + t3 * dot(n, p),
{
    let (x, y) = (p.x as int, p.y as int);
    lemma_dist3r(t1 * l.0, t2 * m.0, t3 * n.0, x);
    lemma_dist3r(t1 * l.1, t2 * m.1, t3 * n.1, y);
    lemma_assoc(t1, l.0, x);
    lemma_assoc(t2, m.0, x);
    lemma_assoc(t3, n.0, x);
    lemma_assoc(t1, l.1, y);
    lemma_assoc(t2, m.1, y);
    lemma_assoc(t3, n.1, y);
    lemma_dist3(t1, l.0 * x, l.1 * y, l.2);
    lemma_dist3(t2, m.0 * x, m.1 * y, m.2);
    lemma_dist3(t3, n.0 * x, n.1 * y, n.2);
}

proof fn lemma_forward_corner(q: Seq<Point>, wd: int, hd: int, i: int)
    requires
        q.len() == 4,
        0 <= i < 4,
    ensures
        ({
            let m = forward_map(q, wd, hd);
            let l30 = line(q[3], q[0]);
            let l01 = line(q[0], q[1]);
            let l13 = line(q[1], q[3]);
            let (w1, w3, d) = (weight1(q), weight3(q), weight0(q));
            apply(m, q[i].x as int, q[i].y as int, 1) == (
                wd * ((d * w3) * dot(l30, q[i])),
                hd * ((d * w1) * dot(l01, q[i])),
                (w1 * w3) * dot(l13, q[i]) + (w1 * d) * dot(l01, q[i]) + (w3 * d) * dot(l30, q[i]),
            )
        }),
{
    let (w1, w3, d) = (weight1(q), weight3(q), weight0(q));
    let l30 = line(q[3], q[0]);
    let l01 = line(q[0], q[1]);
    let l13 = line(q[1], q[3]);
    lemma_row1(wd, d * w3, l30, q[i]);
    lemma_row1(hd, d * w1, l01, q[i]);
    lemma_row3(w1 * w3, w1 * d, w3 * d, l13, l01, l30, q[i]);
}

proof fn lemma_forward_corners(q: Seq<Point>, wd: int, hd: int)
    requires
        q.len() == 4,
        weight0(q) != 0,
        weight1(q) != 0,
        weight2(q) != 0,
        weight3(q) != 0,
    ensures
        forall|i: int|
            0 <= i < 4 ==> {
                let c = #[trigger] view_corner(i, wd, hd);
                maps_to(forward_map(q, wd, hd), q[i].x as int, q[i].y as int, c.0, c.1)
            },
{
    let m = forward_map(q, wd, hd);
    let (w1, w2, w3, d) = (weight1(q), weight2(q), weight3(q), weight0(q));
    let (c0, c1, c2, c3) = (q[0], q[1], q[2], q[3]);
    lemma_weights(q);
    lemma_line_dot(c3, c0, c0);
    lemma_line_dot(c3, c0, c1);
    lemma_line_dot(c3, c0, c2);
    lemma_line_dot(c3, c0, c3);
    lemma_line_dot(c0, c1, c0);
    lemma_line_dot(c0, c1, c1);
    lemma_line_dot(c0, c1, c2);
    lemma_line_dot(c0, c1, c3);
    lemma_line_dot(c1, c3, c0);
    lemma_line_dot(c1, c3, c1);
    lemma_line_dot(c1, c3, c2);
    lemma_line_dot(c1, c3, c3);
    lemma_cross_perm(c0, c1, c3);
    lemma_cross_perm(c1, c3, c0);
    lemma_cross_perm(c0, c2, c3);
    lemma_cross_perm(c2, c3, c0);
    lemma_cross_perm(c1, c2, c3);
    lemma_cross_perm(c3, c0, c1);
    lemma_cross_perm(c0, c1, c2);
    lemma_cross_perm(c1, c3, c2);
    lemma_cross_perm(c3, c0, c2);
    lemma_forward_corner(q, wd, hd, 0);
    lemma_forward_corner(q, wd, hd, 1);
    lemma_forward_corner(q, wd, hd, 2);
    lemma_forward_corner(q, wd, hd, 3);
    assert(cross(c1, c3, c0) == w2);
    assert(cross(c3, c0, c1) == w2);
    assert(cross(c3, c0, c2) == w1);
    assert(cross(c1, c3, c2) == -d);
    lemma_nonzero(w1, w3);
    lemma_nonzero(w1 * w3, w2);
    lemma_nonzero(w3, d);
    lemma_nonzero(w3 * d, w2);
    lemma_nonzero(w1, d);
    lemma_nonzero(w1 * d, w2);
    lemma_nonzero(w1 * w3, d);
    assert(maps_to(m, c0.x as int, c0.y as int, 0, 0)) by (nonlinear_arith)
        requires
            apply(m, c0.x as int, c0.y as int, 1) == (wd * ((d * w3) * 0), hd * ((d * w1) * 0), (w1
                * w3) * w2 + (w1 * d) * 0 + (w3 * d) * 0),
            (w1 * w3) * w2 != 0,
    ;
    assert(maps_to(m, c1.x as int, c1.y as int, wd, 0)) by (nonlinear_arith)
        requires
            apply(m, c1.x as int, c1.y as int, 1) == (wd * ((d * w3) * w2), hd * ((d * w1) * 0), (w1
                * w3) * 0 + (w1 * d) * 0 + (w3 * d) * w2),
            (w3 * d) * w2 != 0,
    ;
    assert(maps_to(m, c3.x as int, c3.y as int, 0, hd)) by (nonlinear_arith)
        requires
            apply(m, c3.x as int, c3.y as int, 1) == (wd * ((d * w3) * 0), hd * ((d * w1) * w2), (w1
                * w3) * 0 + (w1 * d) * w2 + (w3 * d) * 0),
            (w1 * d) * w2 != 0,
    ;
    assert(maps_to(m, c2.x as int, c2.y as int, wd, hd)) by (nonlinear_arith)
        requires
            apply(m, c2.x as int, c2.y as int, 1) == (wd * ((d * w3) * w1), hd * ((d * w1) * w3), (w1
                * w3) * (-d) + (w1 * d) * w3 + (w3 * d) * w1),
            (w1 * w3) * d != 0,
    ;
}

/// Estimates the projective mapping from the ordered corners `tl, tr, br, bl`
/// onto an upright rectangle. The rectangle's width is the larger of the two
/// horizontal edge lengths, its height the larger of the two vertical ones,
/// each rounded down to whole pixels; its corners sit at `(0,0), (w-1,0),
/// (w-1,h-1), (0,h-1)`. Returns the mapping with the width and the height.
/// Fails with `SingularSystem` when three corners are collinear or the
/// rectangle would be under two pixels wide or high, and with `InvalidInput`
/// when there are not four corners, or when a usable outline has a
/// coordinate beyond `MAX_COORD` in magnitude.
pub fn estimate(src: &Vec<Point>) -> (r: Result<(Homography, usize, usize), VisionError>)
    ensures
        src@.len() != 4 ==> r == Err::<(Homography, usize, usize), VisionError>(
            VisionError::InvalidInput,
        ),
        src@.len() == 4 && (degenerate(src@) || rect_width(src@) < 2 || rect_height(src@) < 2)
            ==> r == Err::<(Homography, usize, usize), VisionError>(VisionError::SingularSystem),
        src@.len() == 4 && !degenerate(src@) && rect_width(src@) >= 2 && rect_height(src@) >= 2
            && !all_in_range(src@) ==> r == Err::<(Homography, usize, usize), VisionError>(
            VisionError::InvalidInput,
        ),
        src@.len() == 4 && all_in_range(src@) && !degenerate(src@) && rect_width(src@) >= 2
            && rect_height(src@) >= 2 ==> r is Ok,
        r matches Err(e) ==> e == VisionError::InvalidInput || e == VisionError::SingularSystem,
        r matches Ok((h, w, ht)) ==> {
            &&& src@.len() == 4
            &&& all_in_range(src@)
            &&& !degenerate(src@)
            &&& w == rect_width(src@)
            &&& ht == rect_height(src@)
            &&& w >= 2
            &&& ht >= 2
            &&& w < 0x1_0000
            &&& ht < 0x1_0000
            &&& mat_bounded(h.inverse@, 0x8000_0000_0000_0000_0000)
            &&& h.forward@ == forward_map(src@, w - 1, ht - 1)
            &&& h.inverse@ == inverse_map(src@, w - 1, ht - 1)
            &&& corners_mapped(h, src@, w - 1, ht - 1)
        },
{
    if src.len() != 4 {
        return Err(VisionError::InvalidInput);
    }
    let (c0, c1, c2, c3) = (src[0], src[1], src[2], src[3]);
    let (x0, y0) = (c0.x as i128, c0.y as i128);
    let (x1, y1) = (c1.x as i128, c1.y as i128);
    let (x2, y2) = (c2.x as i128, c2.y as i128);
    let (x3, y3) = (c3.x as i128, c3.y as i128);
    let (ax, ay) = (x1 - x0, y1 - y0);
    let (bx, by) = (x2 - x0, y2 - y0);
    let (cx, cy) = (x3 - x0, y3 - y0);
    let wide: Ghost<int> = Ghost(0x1_0000_0000);
    let w1 = mul_b(bx, cy, wide, wide) - mul_b(by, cx, wide, wide);
    let w3 = mul_b(ax, by, wide, wide) - mul_b(ay, bx, wide, wide);
    let w2 = mul_b(ax, cy, wide, wide) - mul_b(ay, cx, wide, wide);
    let d = w1 + w3 - w2;
    proof {
        lemma_weights(src@);
    }
    if w1 == 0 || w2 == 0 || w3 == 0 || d == 0 {
        return Err(VisionError::SingularSystem);
    }
    let wa = corner_distance(c2, c3);
    let wb = corner_distance(c1, c0);
    let ha = corner_distance(c1, c2);
    let hb = corner_distance(c0, c3);
    let width = if wa >= wb { wa } else { wb };
    let height = if ha >= hb { ha } else { hb };
    if width < 2 || height < 2 {
        return Err(VisionError::SingularSystem);
    }
    if !(in_range_exec(c0) && in_range_exec(c1) && in_range_exec(c2) && in_range_exec(c3)) {
        return Err(VisionError::InvalidInput);
    }
    proof {
        lemma_corner_distance_bound(c2, c3, wa as int);
        lemma_corner_distance_bound(c1, c0, wb as int);
        lemma_corner_distance_bound(c1, c2, ha as int);
        lemma_corner_distance_bound(c0, c3, hb as int);
    }
    let width = width as i128;
    let height = height as i128;
    let c: Ghost<int> = Ghost(0x4000);
    let cd: Ghost<int> = Ghost(0x8000);
    let w1 = mul_b(bx, cy, cd, cd) - mul_b(by, cx, cd, cd);
    let w3 = mul_b(ax, by, cd, cd) - mul_b(ay, bx, cd, cd);
    let w2 = mul_b(ax, cy, cd, cd) - mul_b(ay, cx, cd, cd);
    let d = w1 + w3 - w2;
    let wd = width - 1;
    let hd = height - 1;
    let c13: Ghost<int> = Ghost(0x1_0000);
    let bw: Ghost<int> = Ghost(0x8000_0000);
    let bd: Ghost<int> = Ghost(0x1_8000_0000);
    let k = mul_b(wd, hd, c13, c13);
    let bk: Ghost<int> = Ghost(0x1_0000_0000);
    let be: Ghost<int> = Ghost(0x8000_0000_0000);
    let bf: Ghost<int> = Ghost(0x6000_0000_0000);
    let dx0 = mul_b(d, x0, bd, c);
    let dy0 = mul_b(d, y0, bd, c);
    let inverse = Mat3 {
        m00: mul_b(hd, mul_b(w1, x1, bw, c) - dx0, c13, be),
        m01: mul_b(wd, mul_b(w3, x3, bw, c) - dx0, c13, be),
        m02: mul_b(k, dx0, bk, bf),
        m10: mul_b(hd, mul_b(w1, y1, bw, c) - dy0, c13, be),
        m11: mul_b(wd, mul_b(w3, y3, bw, c) - dy0, c13, be),
        m12: mul_b(k, dy0, bk, bf),
        m20: mul_b(hd, w1 - d, c13, be),
        m21: mul_b(wd, w3 - d, c13, be),
        m22: mul_b(k, d, bk, bf),
    };
    // lines through (c3, c0), (c0, c1) and (c1, c3)
    let bl: Ghost<int> = Ghost(0x2000_0000);
    let l30 = (y3 - y0, x0 - x3, mul_b(x3, y0, c, c) - mul_b(y3, x0, c, c));
    let l01 = (y0 - y1, x1 - x0, mul_b(x0, y1, c, c) - mul_b(y0, x1, c, c));
    let l13 = (y1 - y3, x3 - x1, mul_b(x1, y3, c, c) - mul_b(y1, x3, c, c));
    let bs: Ghost<int> = Ghost(0xC000_0000_0000_0000);
    let s0 = mul_b(d, w3, bd, bw);
    let s1 = mul_b(d, w1, bd, bw);
    let t1 = mul_b(w1, w3, bw, bw);
    let t2 = mul_b(w1, d, bw, bd);
    let t3 = mul_b(w3, d, bw, bd);
    let bsl: Ghost<int> = Ghost(0x1800_0000_0000_0000_0000_0000);
    let forward = Mat3 {
        m00: mul_b(wd, mul_b(s0, l30.0, bs, bl), c13, bsl),
        m01: mul_b(wd, mul_b(s0, l30.1, bs, bl), c13, bsl),
        m02: mul_b(wd, mul_b(s0, l30.2, bs, bl), c13, bsl),
        m10: mul_b(hd, mul_b(s1, l01.0, bs, bl), c13, bsl),
        m11: mul_b(hd, mul_b(s1, l01.1, bs, bl), c13, bsl),
        m12: mul_b(hd, mul_b(s1, l01.2, bs, bl), c13, bsl),
        m20: mul_b(t1, l13.0, bs, bl) + mul_b(t2, l01.0, bs, bl) + mul_b(t3, l30.0, bs, bl),
        m21: mul_b(t1, l13.1, bs, bl) + mul_b(t2, l01.1, bs, bl) + mul_b(t3, l30.1, bs, bl),
        m22: mul_b(t1, l13.2, bs, bl) + mul_b(t2, l01.2, bs, bl) + mul_b(t3, l30.2, bs, bl),
    };
    let h = Homography { forward, inverse };
    proof {
        let q = src@;
        assert(h.forward@ == forward_map(q, wd as int, hd as int));
        assert(h.inverse@ == inverse_map(q, wd as int, hd as int));
        lemma_inverse_corners(q, wd as int, hd as int);
        lemma_forward_corners(q, wd as int, hd as int);
    }
    Ok((h, width as usize, height as usize))
}

} // verus!
