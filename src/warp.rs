use vstd::prelude::*;

use crate::geometry::{
    arg_max, arg_min, corner_diffs, corner_sums, first_max, first_min, is_floor_sqrt,
    lemma_first_max_unique, lemma_first_min_unique, order_points, ordered_corners, sq_dist, Point,
    VisionError,
};
use crate::homography::{
    all_in_range, apply, apply_exec, cross, degenerate, estimate, floor_dist, in_range, inverse_map,
    lemma_floor_sqrt_unique, mat_bounded, rect_height, rect_width, weight0, weight1, weight2,
    weight3, Homography, IMat3, Mat3, MAX_COORD,
};
use crate::image::{lemma_index_join, lemma_index_split, transpose, GrayImage};

verus! {

/// The largest size of a warped image on either axis.
pub const MAX_WARP_SIZE: usize = 0xFFFF;

/// Bilinear blend of four pixel values with 8-bit fractional weights,
/// rounded to nearest and saturated to 255.
pub open spec fn blend(p00: int, p10: int, p01: int, p11: int, ax: int, ay: int) -> int {
    let v = (p00 * (256 - ax) * (256 - ay) + p10 * ax * (256 - ay) + p01 * (256 - ax) * ay + p11
        * ax * ay + 32768) / 65536;
    if v > 255 {
        255
    } else {
        v
    }
}

/// The value of the destination pixel `(dx, dy)` when the source image is
/// resampled through `m`, which maps destination to source coordinates.
/// Positions outside the source image give 0.
pub open spec fn sample(img: GrayImage, m: IMat3, dx: int, dy: int) -> int {
    let p = apply(m, dx, dy, 1);
    let sx = if p.2 < 0 { -p.0 } else { p.0 };
    let sy = if p.2 < 0 { -p.1 } else { p.1 };
    let sz = if p.2 < 0 { -p.2 } else { p.2 };
    if sz == 0 || sx < 0 || sy < 0 {
        0
    } else {
        let fx = sx * 256 / sz;
        let fy = sy * 256 / sz;
        let x0 = fx / 256;
        let y0 = fy / 256;
        if x0 >= img.width || y0 >= img.height {
            0
        } else {
            let x1 = if x0 + 1 < img.width { x0 + 1 } else { x0 };
            let y1 = if y0 + 1 < img.height { y0 + 1 } else { y0 };
            blend(
                img.px(x0, y0) as int,
                img.px(x1, y0) as int,
                img.px(x0, y1) as int,
                img.px(x1, y1) as int,
                fx % 256,
                fy % 256,
            )
        }
    }
}

fn weighted(p: u8, wx: u64, wy: u64) -> (r: u64)
    requires
        wx <= 256,
        wy <= 256,
    ensures
        r == p * wx * wy,
        r <= 0x100_0000,
{
    assert(p * wx <= 255 * 256 && p * wx * wy <= 255 * 256 * 256) by (nonlinear_arith)
        requires
            p <= 255,
            wx <= 256,
            wy <= 256,
    ;
    (p as u64) * wx * wy
}

fn sample_exec(img: &GrayImage, m: &Mat3, dx: i128, dy: i128) -> (r: u8)
    requires
        img.wf(),
        mat_bounded(m@, 0x8000_0000_0000_0000_0000),
        0 <= dx < 0x1_0000,
        0 <= dy < 0x1_0000,
    ensures
        r == sample(*img, m@, dx as int, dy as int),
{
    let p = apply_exec(m, dx, dy, 1, Ghost(0x8000_0000_0000_0000_0000), Ghost(0x1_0000));
    let (sx, sy, sz) = if p.2 < 0 {
        (-p.0, -p.1, -p.2)
    } else {
        p
    };
    if sz == 0 || sx < 0 || sy < 0 {
        return 0;
    }
    let fx = (sx as u128) * 256 / (sz as u128);
    let fy = (sy as u128) * 256 / (sz as u128);
    let x0 = fx / 256;
    let y0 = fy / 256;
    if x0 >= img.width as u128 || y0 >= img.height as u128 {
        return 0;
    }
    let x0 = x0 as usize;
    let y0 = y0 as usize;
    let x1 = if x0 + 1 < img.width { x0 + 1 } else { x0 };
    let y1 = if y0 + 1 < img.height { y0 + 1 } else { y0 };
    let ax = (fx % 256) as u64;
    let ay = (fy % 256) as u64;
    let total = weighted(img.get(x0, y0), 256 - ax, 256 - ay) + weighted(
        img.get(x1, y0),
        ax,
        256 - ay,
    ) + weighted(img.get(x0, y1), 256 - ax, ay) + weighted(img.get(x1, y1), ax, ay) + 32768;
    let v = total / 65536;
    if v > 255 {
        255
    } else {
        v as u8
    }
}

/// Resamples `image` into an `out_w` by `out_h` image: each destination
/// pixel is taken from the source position that `h.inverse` gives for it,
/// blended bilinearly from the four nearest source pixels.
pub fn warp(image: &GrayImage, h: &Homography, out_w: usize, out_h: usize) -> (r: GrayImage)
    requires
        image.wf(),
        mat_bounded(h.inverse@, 0x8000_0000_0000_0000_0000),
        out_w <= MAX_WARP_SIZE,
        out_h <= MAX_WARP_SIZE,
    ensures
        r.wf(),
        r.width == out_w,
        r.height == out_h,
        forall|x: int, y: int|
            0 <= x < out_w && 0 <= y < out_h ==> r.px(x, y) == sample(*image, h.inverse@, x, y),
{
    assert(out_w * out_h <= 0xFFFE_0001) by (nonlinear_arith)
        requires
            out_w <= 0xFFFF,
            out_h <= 0xFFFF,
    ;
    let n = out_w * out_h;
    let mut data: Vec<u8> = Vec::new();
    let mut i: usize = 0;
    while i < n
        invariant
            image.wf(),
            mat_bounded(h.inverse@, 0x8000_0000_0000_0000_0000),
            out_w <= MAX_WARP_SIZE,
            out_h <= MAX_WARP_SIZE,
            n == out_w * out_h,
            i <= n,
            data@.len() == i,
            forall|j: int|
                0 <= j < i ==> data@[j] == sample(*image, h.inverse@, j % out_w as int, j / out_w as int),
        decreases n - i,
    {
        proof {
            lemma_index_split(i as int, out_w as int, out_h as int);
        }
        let x = i % out_w;
        let y = i / out_w;
        let v = sample_exec(image, &h.inverse, x as i128, y as i128);
        data.push(v);
        i += 1;
    }
    let r = GrayImage { width: out_w, height: out_h, data };
    assert forall|x: int, y: int| 0 <= x < out_w && 0 <= y < out_h implies r.px(x, y) == sample(
        *image,
        h.inverse@,
        x,
        y,
    ) by {
        lemma_index_join(x, y, out_w as int, out_h as int);
    }
    r
}

/// `out` is the upright view of the quadrilateral with corners `pts` in
/// `image`: its corners are put in canonical order, the view is as wide as
/// the longer horizontal edge and as high as the longer vertical one, and
/// each pixel is resampled through the inverse mapping, with rows and
/// columns swapped.
pub open spec fn is_rectification(image: GrayImage, pts: Seq<Point>, out: GrayImage) -> bool {
    let q = ordered_corners(pts);
    let w = rect_width(q);
    let ht = rect_height(q);
    &&& pts.len() == 4
    &&& all_in_range(q)
    &&& !degenerate(q)
    &&& out.wf()
    &&& out.width == ht
    &&& out.height == w
    &&& forall|x: int, y: int|
        0 <= x < ht && 0 <= y < w ==> out.px(x, y) == sample(
            image,
            inverse_map(q, w - 1, ht - 1),
            y,
            x,
        )
}

/// Rectifies the quadrilateral with corners `pts` into an upright view:
/// orders the corners, estimates the mapping, resamples, and transposes the
/// result so that rows of the view run along the corner order's first edge.
/// Fails as `order_points` and `estimate` do, so a collinear or coincident
/// outline always gives `SingularSystem`.
pub fn four_point_transform(image: &GrayImage, pts: &Vec<Point>) -> (r: Result<GrayImage, VisionError>)
    requires
        image.wf(),
    ensures
        pts@.len() != 4 ==> r == Err::<GrayImage, VisionError>(VisionError::InvalidInput),
        ({
            let q = ordered_corners(pts@);
            pts@.len() == 4 && (degenerate(q) || rect_width(q) < 2 || rect_height(q) < 2)
                ==> r == Err::<GrayImage, VisionError>(VisionError::SingularSystem)
        }),
        ({
            let q = ordered_corners(pts@);
            pts@.len() == 4 && !degenerate(q) && rect_width(q) >= 2 && rect_height(q) >= 2
                && !all_in_range(q) ==> r == Err::<GrayImage, VisionError>(VisionError::InvalidInput)
        }),
        ({
            let q = ordered_corners(pts@);
            pts@.len() == 4 && all_in_range(q) && !degenerate(q) && rect_width(q) >= 2
                && rect_height(q) >= 2 ==> r is Ok
        }),
        r matches Err(e) ==> e == VisionError::InvalidInput || e == VisionError::SingularSystem,
        r matches Ok(out) ==> is_rectification(*image, pts@, out),
{
    let rect = match order_points(pts) {
        Ok(rect) => rect,
        Err(e) => {
            return Err(e);
        },
    };
    let (h, w, ht) = match estimate(&rect) {
        Ok(t) => t,
        Err(e) => {
            return Err(e);
        },
    };
    let warped = warp(image, &h, w, ht);
    Ok(transpose(&warped))
}

/// An axis-aligned square of side `s`, its corners given as top-left,
/// top-right, bottom-left, bottom-right, is rectified to an `s` by `s` view:
/// the corners are reordered to top-left, bottom-left, bottom-right,
/// top-right, lie in range and in general position, and every view of the
/// square that `four_point_transform` can return is `s` pixels on each side.
pub proof fn lemma_square_rectifies_to_its_size(s: i32)
    requires
        2 <= s <= MAX_COORD,
    ensures
        ({
            let pts = seq![
                Point { x: 0, y: 0 },
                Point { x: s, y: 0 },
                Point { x: 0, y: s },
                Point { x: s, y: s },
            ];
            let q = ordered_corners(pts);
            &&& q == seq![pts[0], pts[2], pts[3], pts[1]]
            &&& all_in_range(q)
            &&& !degenerate(q)
            &&& rect_width(q) == s
            &&& rect_height(q) == s
            &&& forall|image: GrayImage, out: GrayImage|
                is_rectification(image, pts, out) ==> out.width == s && out.height == s
        }),
{
    let pts = seq![
        Point { x: 0, y: 0 },
        Point { x: s, y: 0 },
        Point { x: 0, y: s },
        Point { x: s, y: s },
    ];
    let sums = corner_sums(pts);
    let diffs = corner_diffs(pts);
    assert(sums =~= seq![0i64, s as i64, s as i64, (2 * s) as i64]);
    assert(diffs =~= seq![0i64, s as i64, (-s) as i64, 0i64]);
    assert(first_min(sums, 0));
    assert(first_max(sums, 3));
    assert(first_min(diffs, 2));
    assert(first_max(diffs, 1));
    lemma_first_min_unique(sums, 0, arg_min(sums));
    lemma_first_max_unique(sums, 3, arg_max(sums));
    lemma_first_min_unique(diffs, 2, arg_min(diffs));
    lemma_first_max_unique(diffs, 1, arg_max(diffs));
    let q = ordered_corners(pts);
    assert(q =~= seq![pts[0], pts[2], pts[3], pts[1]]);
    let n = s as int * s as int;
    assert(s * s <= n < (s + 1) * (s + 1)) by (nonlinear_arith)
        requires
            n == s * s,
            s >= 2,
    ;
    assert((s - s) * (s - s) + (s - 0) * (s - 0) == n) by (nonlinear_arith)
        requires
            n == s * s,
    ;
    assert((0 - s) * (0 - s) + (s - s) * (s - s) == n) by (nonlinear_arith)
        requires
            n == s * s,
    ;
    assert(sq_dist(q[2], q[3]) == n);
    assert(sq_dist(q[1], q[0]) == n);
    assert(sq_dist(q[1], q[2]) == n);
    assert(sq_dist(q[0], q[3]) == n);
    assert(is_floor_sqrt(n, s as int));
    lemma_floor_sqrt_unique(n, s as int, floor_dist(q[2], q[3]));
    lemma_floor_sqrt_unique(n, s as int, floor_dist(q[1], q[0]));
    lemma_floor_sqrt_unique(n, s as int, floor_dist(q[1], q[2]));
    lemma_floor_sqrt_unique(n, s as int, floor_dist(q[0], q[3]));
    assert(n != 0) by (nonlinear_arith)
        requires
            n == s * s,
            s >= 2,
    ;
    assert(cross(q[0], q[1], q[2]) == -n);
    assert(cross(q[0], q[1], q[3]) == -n);
    assert(cross(q[0], q[2], q[3]) == -n);
    assert((s - 0) * (0 - s) - (s - s) * (s - 0) == -n) by (nonlinear_arith)
        requires
            n == s * s,
    ;
    assert(cross(q[1], q[2], q[3]) == -n);
    assert(in_range(q[0]) && in_range(q[1]) && in_range(q[2]) && in_range(q[3]));
}

/// Rectifying an axis-aligned square of side `s`, its corners given as
/// top-left, top-right, bottom-left, bottom-right, reproduces the square:
/// pixel `(x, y)` of the view is sampled at source position
/// `(x * s / (s - 1), y * s / (s - 1))`, the same position up to the factor
/// `s / (s - 1)` that maps the view's last pixel onto the square's far edge.
pub proof fn lemma_square_view_is_identity(s: i32)
    requires
        2 <= s <= MAX_COORD,
    ensures
        ({
            let pts = seq![
                Point { x: 0, y: 0 },
                Point { x: s, y: 0 },
                Point { x: 0, y: s },
                Point { x: s, y: s },
            ];
            let m = inverse_map(ordered_corners(pts), s - 1, s - 1);
            let g = (s - 1) * (s * s);
            &&& forall|x: int, y: int|
                #[trigger] apply(m, y, x, 1) == (x * s * -g, y * s * -g, (s - 1) * -g)
            &&& forall|image: GrayImage, out: GrayImage|
                is_rectification(image, pts, out) ==> forall|x: int, y: int|
                    0 <= x < s && 0 <= y < s ==> #[trigger] out.px(x, y) == sample(image, m, y, x)
        }),
{
    lemma_square_rectifies_to_its_size(s);
    let pts = seq![
        Point { x: 0, y: 0 },
        Point { x: s, y: 0 },
        Point { x: 0, y: s },
        Point { x: s, y: s },
    ];
    let q = ordered_corners(pts);
    let t = s - 1;
    let n = s * s;
    let g = t * n;
    assert(q[0] == Point { x: 0, y: 0 } && q[1] == Point { x: 0, y: s } && q[2] == Point {
        x: s,
        y: s,
    } && q[3] == Point { x: s, y: 0 });
    let m = inverse_map(q, t, t);
    assert((s - 0) * (0 - 0) - (s - 0) * (s - 0) == -n && (0 - 0) * (s - 0) - (s - 0) * (s - 0)
        == -n && (0 - 0) * (0 - 0) - (s - 0) * (s - 0) == -n) by (nonlinear_arith)
        requires
            n == s * s,
    ;
    assert(weight1(q) == -n && weight3(q) == -n && weight2(q) == -n);
    assert(weight0(q) == -n);
    assert(m.m00 == 0 && m.m02 == 0 && m.m11 == 0 && m.m12 == 0 && m.m20 == 0 && m.m21 == 0)
        by (nonlinear_arith)
        requires
            m == inverse_map(q, t, t),
            weight1(q) == -n,
            weight3(q) == -n,
            weight0(q) == -n,
            q[0].x == 0,
            q[0].y == 0,
            q[1].x == 0,
            q[3].y == 0,
    ;
    assert(m.m01 == s * -g && m.m10 == s * -g && m.m22 == t * -g) by (nonlinear_arith)
        requires
            m == inverse_map(q, t, t),
            weight1(q) == -n,
            weight3(q) == -n,
            weight0(q) == -n,
            q[0].x == 0,
            q[0].y == 0,
            q[1].y == s,
            q[3].x == s,
            g == t * n,
    ;
    assert forall|x: int, y: int| #[trigger] apply(m, y, x, 1) == (x * s * -g, y * s * -g, t * -g) by {
        assert(0 * y + (s * -g) * x + 0 * 1 == x * s * -g) by (nonlinear_arith);
        assert((s * -g) * y + 0 * x + 0 * 1 == y * s * -g) by (nonlinear_arith);
        assert(0 * y + 0 * x + (t * -g) * 1 == t * -g) by (nonlinear_arith);
    }
}

} // verus!
