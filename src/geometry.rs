use vstd::prelude::*;

verus! {

/// The ways in which rectifying a board can fail.
#[derive(Debug, Clone, Copy, PartialEq, Eq, Structural)]
pub enum VisionError {
    /// A corner set that does not hold exactly four points, or a usable
    /// outline with a coordinate beyond the supported magnitude.
    InvalidInput,
    /// The point correspondences admit no unique projective mapping.
    SingularSystem,
    /// No candidate polygon with exactly four vertices was found.
    PuzzleNotFound,
}

/// An image coordinate.
#[derive(Debug, Clone, Copy, PartialEq, Eq, Structural)]
pub struct Point {
    pub x: i32,
    pub y: i32,
}

impl Point {
    pub fn new(x: i32, y: i32) -> (r: Point)
        ensures
            r.x == x,
            r.y == y,
    {
        Point { x, y }
    }
}

pub open spec fn point_sum(p: Point) -> i64 {
    (p.x + p.y) as i64
}

pub open spec fn point_diff(p: Point) -> i64 {
    (p.x - p.y) as i64
}

/// `x + y` of every point, in order.
pub open spec fn corner_sums(pts: Seq<Point>) -> Seq<i64> {
    pts.map_values(|p: Point| point_sum(p))
}

/// `x - y` of every point, in order.
pub open spec fn corner_diffs(pts: Seq<Point>) -> Seq<i64> {
    pts.map_values(|p: Point| point_diff(p))
}

/// `i` is the first position holding the least value of `s`.
pub open spec fn first_min(s: Seq<i64>, i: int) -> bool {
    &&& 0 <= i < s.len()
    &&& forall|j: int| 0 <= j < s.len() ==> s[i] <= s[j]
    &&& forall|j: int| 0 <= j < i ==> s[j] > s[i]
}

/// `i` is the first position holding the greatest value of `s`.
pub open spec fn first_max(s: Seq<i64>, i: int) -> bool {
    &&& 0 <= i < s.len()
    &&& forall|j: int| 0 <= j < s.len() ==> s[i] >= s[j]
    &&& forall|j: int| 0 <= j < i ==> s[j] < s[i]
}

pub proof fn lemma_first_min_unique(s: Seq<i64>, i: int, k: int)
    requires
        first_min(s, i),
        first_min(s, k),
    ensures
        i == k,
{
    if i < k {
        assert(s[i] > s[k]);
    } else if k < i {
        assert(s[k] > s[i]);
    }
}

pub proof fn lemma_first_max_unique(s: Seq<i64>, i: int, k: int)
    requires
        first_max(s, i),
        first_max(s, k),
    ensures
        i == k,
{
    if i < k {
        assert(s[i] < s[k]);
    } else if k < i {
        assert(s[k] < s[i]);
    }
}

pub open spec fn arg_min(s: Seq<i64>) -> int {
    choose|i: int| first_min(s, i)
}

pub open spec fn arg_max(s: Seq<i64>) -> int {
    choose|i: int| first_max(s, i)
}

/// The canonical corner order of four points: least `x + y`, least `x - y`,
/// greatest `x + y`, greatest `x - y`, each the first such point on ties.
pub open spec fn ordered_corners(pts: Seq<Point>) -> Seq<Point> {
    seq![
        pts[arg_min(corner_sums(pts))],
        pts[arg_min(corner_diffs(pts))],
        pts[arg_max(corner_sums(pts))],
        pts[arg_max(corner_diffs(pts))],
    ]
}

/// Sums the coordinates of each point.
pub fn sum_rows(pts: &Vec<Point>) -> (r: Vec<i64>)
    ensures
        r@ == corner_sums(pts@),
{
    let mut out: Vec<i64> = Vec::new();
    let mut i: usize = 0;
    while i < pts.len()
        invariant
            i <= pts@.len(),
            out@.len() == i,
            forall|j: int| 0 <= j < i ==> out@[j] == point_sum(#[trigger] pts@[j]),
        decreases pts@.len() - i,
    {
        out.push(pts[i].x as i64 + pts[i].y as i64);
        i += 1;
    }
    assert(out@ =~= corner_sums(pts@));
    out
}

/// Subtracts the `y` coordinate from the `x` coordinate of each point.
pub fn diff_rows(pts: &Vec<Point>) -> (r: Vec<i64>)
    ensures
        r@ == corner_diffs(pts@),
{
    let mut out: Vec<i64> = Vec::new();
    let mut i: usize = 0;
    while i < pts.len()
        invariant
            i <= pts@.len(),
            out@.len() == i,
            forall|j: int| 0 <= j < i ==> out@[j] == point_diff(#[trigger] pts@[j]),
        decreases pts@.len() - i,
    {
        out.push(pts[i].x as i64 - pts[i].y as i64);
        i += 1;
    }
    assert(out@ =~= corner_diffs(pts@));
    out
}

/// The position of the least value; the first one on ties.
pub fn min_index(arr: &[i64]) -> (r: usize)
    requires
        arr@.len() > 0,
    ensures
        first_min(arr@, r as int),
{
    let mut best: usize = 0;
    let mut i: usize = 1;
    while i < arr.len()
        invariant
            1 <= i <= arr@.len(),
            first_min(arr@.subrange(0, i as int), best as int),
        decreases arr@.len() - i,
    {
        if arr[i] < arr[best] {
            best = i;
        }
        i += 1;
    }
    assert(arr@.subrange(0, arr@.len() as int) =~= arr@);
    best
}

/// The position of the greatest value; the first one on ties.
pub fn max_index(arr: &[i64]) -> (r: usize)
    requires
        arr@.len() > 0,
    ensures
        first_max(arr@, r as int),
{
    let mut best: usize = 0;
    let mut i: usize = 1;
    while i < arr.len()
        invariant
            1 <= i <= arr@.len(),
            first_max(arr@.subrange(0, i as int), best as int),
        decreases arr@.len() - i,
    {
        if arr[i] > arr[best] {
            best = i;
        }
        i += 1;
    }
    assert(arr@.subrange(0, arr@.len() as int) =~= arr@);
    best
}

/// Puts four corner points in the canonical order (see `ordered_corners`).
pub fn order_points(pts: &Vec<Point>) -> (r: Result<Vec<Point>, VisionError>)
    ensures
        pts@.len() != 4 ==> r == Err::<Vec<Point>, VisionError>(VisionError::InvalidInput),
        pts@.len() == 4 ==> (r matches Ok(q) && q@ == ordered_corners(pts@)),
{
    if pts.len() != 4 {
        return Err(VisionError::InvalidInput);
    }
    let sum = sum_rows(pts);
    let diff = diff_rows(pts);
    let tl = min_index(sum.as_slice());
    let br = max_index(sum.as_slice());
    let tr = min_index(diff.as_slice());
    let bl = max_index(diff.as_slice());
    proof {
        let s = corner_sums(pts@);
        let d = corner_diffs(pts@);
        lemma_first_min_unique(s, tl as int, arg_min(s));
        lemma_first_max_unique(s, br as int, arg_max(s));
        lemma_first_min_unique(d, tr as int, arg_min(d));
        lemma_first_max_unique(d, bl as int, arg_max(d));
    }
    let mut rect: Vec<Point> = Vec::new();
    rect.push(pts[tl]);
    rect.push(pts[tr]);
    rect.push(pts[br]);
    rect.push(pts[bl]);
    assert(rect@ =~= ordered_corners(pts@));
    Ok(rect)
}

/// The squared Euclidean distance between two points.
pub open spec fn sq_dist(p: Point, q: Point) -> int {
    (p.x - q.x) * (p.x - q.x) + (p.y - q.y) * (p.y - q.y)
}

/// `r` is the square root of `n` rounded down.
pub open spec fn is_floor_sqrt(n: int, r: int) -> bool {
    0 <= r && r * r <= n && n < (r + 1) * (r + 1)
}

fn floor_sqrt(n: u128) -> (r: u64)
    requires
        n < 0x4_0000_0000_0000_0000u128,
    ensures
        is_floor_sqrt(n as int, r as int),
{
    let mut lo: u128 = 0;
    let mut hi: u128 = 0x2_0000_0000u128;
    assert(hi * hi == 0x4_0000_0000_0000_0000u128) by (nonlinear_arith)
        requires
            hi == 0x2_0000_0000u128,
    ;
    while hi - lo > 1
        invariant
            lo < hi <= 0x2_0000_0000u128,
            lo * lo <= n,
            n < hi * hi,
        decreases hi - lo,
    {
        let mid: u128 = lo + (hi - lo) / 2;
        assert(mid * mid <= hi * hi) by (nonlinear_arith)
            requires
                mid < hi,
        ;
        assert(hi * hi <= 0x4_0000_0000_0000_0000u128) by (nonlinear_arith)
            requires
                hi <= 0x2_0000_0000u128,
        ;
        if mid * mid <= n {
            lo = mid;
        } else {
            hi = mid;
        }
    }
    assert(hi == lo + 1);
    lo as u64
}

/// The Euclidean distance between two points, rounded down to whole pixels.
pub fn distance(a: &Point, b: &Point) -> (r: u64)
    ensures
        is_floor_sqrt(sq_dist(*a, *b), r as int),
{
    let dx: i128 = a.x as i128 - b.x as i128;
    let dy: i128 = a.y as i128 - b.y as i128;
    assert(0 <= dx * dx <= 0x1_0000_0000_0000_0000i128 && 0 <= dy * dy
        <= 0x1_0000_0000_0000_0000i128) by (nonlinear_arith)
        requires
            -0x1_0000_0000i128 <= dx <= 0x1_0000_0000i128,
            -0x1_0000_0000i128 <= dy <= 0x1_0000_0000i128,
    ;
    let n: u128 = (dx * dx + dy * dy) as u128;
    floor_sqrt(n)
}

} // verus!
