use vstd::prelude::*;

use crate::border::{clear_border, cleared};
use crate::image::{lemma_index_join, GrayImage};

verus! {

/// The most pixels a cell may hold for thresholding.
pub const MAX_CELL_PIXELS: usize = 0x4_0000;

/// `v` is a value of `s` no greater than any other.
pub open spec fn is_least(s: Seq<u8>, v: u8) -> bool {
    (exists|j: int| 0 <= j < s.len() && s[j] == v) && forall|j: int| 0 <= j < s.len() ==> v <= s[j]
}

/// `v` is a value of `s` no smaller than any other.
pub open spec fn is_greatest(s: Seq<u8>, v: u8) -> bool {
    (exists|j: int| 0 <= j < s.len() && s[j] == v) && forall|j: int| 0 <= j < s.len() ==> v >= s[j]
}

pub open spec fn least(s: Seq<u8>) -> u8 {
    choose|v: u8| is_least(s, v)
}

pub open spec fn greatest(s: Seq<u8>) -> u8 {
    choose|v: u8| is_greatest(s, v)
}

/// `v` stretched linearly from `[lo, hi]` onto `[0, 255]`, rounded to nearest;
/// a constant image maps to 0.
pub open spec fn norm_value(v: int, lo: int, hi: int) -> int {
    if hi <= lo {
        0
    } else {
        ((v - lo) * 510 + (hi - lo)) / (2 * (hi - lo))
    }
}

/// Every value of `s` stretched so that its least value becomes 0 and its
/// greatest 255.
pub open spec fn norm_seq(s: Seq<u8>) -> Seq<u8> {
    s.map_values(|v: u8| norm_value(v as int, least(s) as int, greatest(s) as int) as u8)
}

/// Inverse binarisation: values at or below `t` become 255 (ink), the rest 0.
pub open spec fn bin_seq(s: Seq<u8>, t: int) -> Seq<u8> {
    s.map_values(|v: u8| if v <= t { 255u8 } else { 0u8 })
}

/// How many values of `s` are at most `t`.
pub open spec fn count_le(s: Seq<u8>, t: int) -> int
    decreases s.len(),
{
    if s.len() == 0 {
        0
    } else {
        count_le(s.drop_last(), t) + if s.last() <= t {
            1int
        } else {
            0int
        }
    }
}

/// The sum of the values of `s` that are at most `t`.
pub open spec fn sum_le(s: Seq<u8>, t: int) -> int
    decreases s.len(),
{
    if s.len() == 0 {
        0
    } else {
        sum_le(s.drop_last(), t) + if s.last() <= t {
            s.last() as int
        } else {
            0int
        }
    }
}

/// Splitting at `t` leaves both classes non-empty.
pub open spec fn valid_split(s: Seq<u8>, t: int) -> bool {
    0 < count_le(s, t) < s.len()
}

/// The between-class variance at `t`, up to a factor common to every `t`,
/// as the fraction `split_num / split_den`.
pub open spec fn split_num(s: Seq<u8>, t: int) -> int {
    let d = sum_le(s, t) * s.len() - count_le(s, t) * sum_le(s, 255);
    d * d
}

pub open spec fn split_den(s: Seq<u8>, t: int) -> int {
    count_le(s, t) * (s.len() - count_le(s, t))
}

/// Splitting at `a` separates the classes strictly better than at `b`.
pub open spec fn better(s: Seq<u8>, a: int, b: int) -> bool {
    split_num(s, a) * split_den(s, b) > split_num(s, b) * split_den(s, a)
}

/// `t` is the threshold that maximises the between-class variance, the
/// first such on ties, or 0 when no threshold splits `s` in two.
pub open spec fn is_otsu_threshold(s: Seq<u8>, t: int) -> bool {
    &&& 0 <= t <= 255
    &&& if exists|u: int| 0 <= u <= 255 && valid_split(s, u) {
        &&& valid_split(s, t)
        &&& forall|u: int| 0 <= u <= 255 && valid_split(s, u) ==> !better(s, u, t)
        &&& forall|u: int| 0 <= u < t && valid_split(s, u) ==> better(s, t, u)
    } else {
        t == 0
    }
}

pub open spec fn otsu_of(s: Seq<u8>) -> int {
    choose|t: int| is_otsu_threshold(s, t)
}

/// The binary mask of a cell: stretched to the full range, then split at its
/// Otsu threshold with ink as foreground.
pub open spec fn isolate_mask(s: Seq<u8>) -> Seq<u8> {
    bin_seq(norm_seq(s), otsu_of(norm_seq(s)))
}

proof fn lemma_least_unique(s: Seq<u8>, v: u8)
    requires
        is_least(s, v),
    ensures
        least(s) == v,
{
    let w = least(s);
    assert(is_least(s, w));
    let jv = choose|j: int| 0 <= j < s.len() && s[j] == v;
    let jw = choose|j: int| 0 <= j < s.len() && s[j] == w;
    assert(v <= s[jw] && w <= s[jv]);
}

proof fn lemma_greatest_unique(s: Seq<u8>, v: u8)
    requires
        is_greatest(s, v),
    ensures
        greatest(s) == v,
{
    let w = greatest(s);
    assert(is_greatest(s, w));
    let jv = choose|j: int| 0 <= j < s.len() && s[j] == v;
    let jw = choose|j: int| 0 <= j < s.len() && s[j] == w;
    assert(v >= s[jw] && w >= s[jv]);
}

fn norm_pixel(v: u8, lo: u8, hi: u8) -> (r: u8)
    requires
        lo <= v <= hi,
    ensures
        r == norm_value(v as int, lo as int, hi as int),
{
    if hi <= lo {
        return 0;
    }
    let a = (v - lo) as u32;
    let d = (hi - lo) as u32;
    let num = a * 510 + d;
    let den = 2 * d;
    let q = num / den;
    proof {
        vstd::arithmetic::div_mod::lemma_fundamental_div_mod(num as int, den as int);
        let qq = num as int / den as int;
        let rr = num as int % den as int;
        assert(qq < 256) by (nonlinear_arith)
            requires
                num == den * qq + rr,
                0 <= rr,
                num < 256 * den,
                den > 0,
        ;
    }
    q as u8
}

/// Stretches the values of `img` onto the full range `[0, 255]`.
pub fn normalize(img: &GrayImage) -> (r: GrayImage)
    requires
        img.wf(),
    ensures
        r.wf(),
        r.width == img.width,
        r.height == img.height,
        r.data@ == norm_seq(img.data@),
{
    let n = img.data.len();
    if n == 0 {
        let r = GrayImage { width: img.width, height: img.height, data: Vec::new() };
        assert(r.data@ =~= norm_seq(img.data@));
        return r;
    }
    let mut lo: u8 = img.data[0];
    let mut hi: u8 = img.data[0];
    let mut i: usize = 1;
    while i < n
        invariant
            n == img.data@.len(),
            1 <= i <= n,
            exists|j: int| 0 <= j < i && img.data@[j] == lo,
            exists|j: int| 0 <= j < i && img.data@[j] == hi,
            forall|j: int| 0 <= j < i ==> lo <= #[trigger] img.data@[j] <= hi,
        decreases n - i,
    {
        let v = img.data[i];
        if v < lo {
            lo = v;
        }
        if v > hi {
            hi = v;
        }
        i += 1;
    }
    proof {
        lemma_least_unique(img.data@, lo);
        lemma_greatest_unique(img.data@, hi);
    }
    let mut data: Vec<u8> = Vec::new();
    i = 0;
    while i < n
        invariant
            n == img.data@.len(),
            lo == least(img.data@),
            hi == greatest(img.data@),
            forall|j: int| 0 <= j < n ==> lo <= #[trigger] img.data@[j] <= hi,
            i <= n,
            data@.len() == i,
            forall|j: int| 0 <= j < i ==> data@[j] == norm_seq(img.data@)[j],
        decreases n - i,
    {
        let v = norm_pixel(img.data[i], lo, hi);
        data.push(v);
        i += 1;
    }
    assert(data@ =~= norm_seq(img.data@));
    GrayImage { width: img.width, height: img.height, data }
}

/// Sets values at or below `t` to 255 and all others to 0.
pub fn binarize_inv(img: &GrayImage, t: u8) -> (r: GrayImage)
    requires
        img.wf(),
    ensures
        r.wf(),
        r.width == img.width,
        r.height == img.height,
        r.data@ == bin_seq(img.data@, t as int),
{
    let n = img.data.len();
    let mut data: Vec<u8> = Vec::new();
    let mut i: usize = 0;
    while i < n
        invariant
            n == img.data@.len(),
            i <= n,
            data@.len() == i,
            forall|j: int| 0 <= j < i ==> data@[j] == bin_seq(img.data@, t as int)[j],
        decreases n - i,
    {
        if img.data[i] <= t {
            data.push(255);
        } else {
            data.push(0);
        }
        i += 1;
    }
    assert(data@ =~= bin_seq(img.data@, t as int));
    GrayImage { width: img.width, height: img.height, data }
}

proof fn lemma_otsu_unique(s: Seq<u8>, t: int)
    requires
        is_otsu_threshold(s, t),
    ensures
        otsu_of(s) == t,
{
    let o = otsu_of(s);
    assert(is_otsu_threshold(s, o));
    if exists|u: int| 0 <= u <= 255 && valid_split(s, u) {
        if o < t {
            assert(better(s, t, o));
            assert(!better(s, t, o));
        } else if t < o {
            assert(better(s, o, t));
            assert(!better(s, o, t));
        }
    }
}

proof fn lemma_frac_trans(a1: int, d1: int, a2: int, d2: int, a3: int, d3: int)
    requires
        d1 > 0,
        d2 > 0,
        d3 > 0,
        a1 * d2 <= a2 * d1,
        a2 * d3 < a3 * d2,
    ensures
        a1 * d3 < a3 * d1,
{
    assert(a1 * d2 * d3 <= a2 * d1 * d3) by (nonlinear_arith)
        requires
            a1 * d2 <= a2 * d1,
            d3 > 0,
    ;
    assert(a2 * d3 * d1 < a3 * d2 * d1) by (nonlinear_arith)
        requires
            a2 * d3 < a3 * d2,
            d1 > 0,
    ;
    assert(a1 * d3 * d2 < a3 * d1 * d2) by (nonlinear_arith)
        requires
            a1 * d2 * d3 <= a2 * d1 * d3,
            a2 * d3 * d1 < a3 * d2 * d1,
    ;
    assert(a1 * d3 < a3 * d1) by (nonlinear_arith)
        requires
            a1 * d3 * d2 < a3 * d1 * d2,
            d2 > 0,
    ;
}

/// How many values of `s` are at most `t`, and their sum.
fn class_stats(s: &Vec<u8>, t: u8) -> (r: (u64, u64))
    requires
        s@.len() <= MAX_CELL_PIXELS,
    ensures
        r.0 == count_le(s@, t as int),
        r.1 == sum_le(s@, t as int),
        r.0 <= s@.len(),
        r.1 <= 255 * s@.len(),
{
    let n = s.len();
    let mut c: u64 = 0;
    let mut sm: u64 = 0;
    let mut i: usize = 0;
    while i < n
        invariant
            n == s@.len(),
            n <= MAX_CELL_PIXELS,
            i <= n,
            c == count_le(s@.subrange(0, i as int), t as int),
            sm == sum_le(s@.subrange(0, i as int), t as int),
            c <= i,
            sm <= 255 * i,
        decreases n - i,
    {
        assert(s@.subrange(0, i + 1).drop_last() =~= s@.subrange(0, i as int));
        let v = s[i];
        if v <= t {
            c += 1;
            sm += v as u64;
        }
        i += 1;
    }
    assert(s@.subrange(0, n as int) =~= s@);
    (c, sm)
}

/// The Otsu threshold of `s` (see `is_otsu_threshold`).
pub fn otsu_threshold(s: &Vec<u8>) -> (r: u8)
    requires
        s@.len() <= MAX_CELL_PIXELS,
    ensures
        is_otsu_threshold(s@, r as int),
{
    let n = s.len() as u64;
    let (_, total) = class_stats(s, 255);
    let mut best: u8 = 0;
    let mut best_num: u128 = 0;
    let mut best_den: u128 = 1;
    let mut found = false;
    let mut t: u32 = 0;
    while t < 256
        invariant
            n == s@.len(),
            n <= MAX_CELL_PIXELS,
            total == sum_le(s@, 255),
            total <= 255 * n,
            t <= 256,
            found == exists|u: int| 0 <= u < t && valid_split(s@, u),
            found ==> {
                &&& valid_split(s@, best as int)
                &&& best < t
                &&& best_num == split_num(s@, best as int)
                &&& best_den == split_den(s@, best as int)
                &&& best_num <= 0x100_0000_0000_0000_0000_0000
                &&& 0 < best_den <= 0x10_0000_0000
                &&& forall|u: int| 0 <= u < t && valid_split(s@, u) ==> !better(s@, u, best as int)
                &&& forall|u: int|
                    0 <= u < best && valid_split(s@, u) ==> better(s@, best as int, u)
            },
            !found ==> best == 0,
            best_num <= 0x100_0000_0000_0000_0000_0000,
            best_den <= 0x10_0000_0000,
        decreases 256 - t,
    {
        let (q, sm) = class_stats(s, t as u8);
        if 0 < q && q < n {
            assert(sm * n <= 0x1000_0000_0000 && q * total <= 0x1000_0000_0000) by (nonlinear_arith)
                requires
                    sm <= 255 * n,
                    total <= 255 * n,
                    q <= n,
                    n <= 0x4_0000,
            ;
            let a = (sm as i128) * (n as i128);
            let b = (q as i128) * (total as i128);
            let d = a - b;
            assert(0 <= d * d <= 0x100_0000_0000_0000_0000_0000) by (nonlinear_arith)
                requires
                    -0x1000_0000_0000 <= d <= 0x1000_0000_0000,
            ;
            let num = (d * d) as u128;
            assert(0 < q * (n - q) <= 0x10_0000_0000) by (nonlinear_arith)
                requires
                    0 < q < n,
                    n <= 0x4_0000,
            ;
            let den = (q as u128) * ((n - q) as u128);
            assert(num * best_den <= 0x1000_0000_0000_0000_0000_0000_0000_0000 && best_num * den
                <= 0x1000_0000_0000_0000_0000_0000_0000_0000) by (nonlinear_arith)
                requires
                    0 <= num <= 0x100_0000_0000_0000_0000_0000,
                    0 <= best_num <= 0x100_0000_0000_0000_0000_0000,
                    0 <= den <= 0x10_0000_0000,
                    0 <= best_den <= 0x10_0000_0000,
            ;
            proof {
                assert(valid_split(s@, t as int));
                assert(num == split_num(s@, t as int));
                assert(den == split_den(s@, t as int));
            }
            if !found || num * best_den > best_num * den {
                proof {
                    if found {
                        assert forall|u: int| 0 <= u < t + 1 && valid_split(s@, u) implies !better(
                            s@,
                            u,
                            t as int,
                        ) && (u < t ==> better(s@, t as int, u)) by {
                            if u < t {
                                assert(!better(s@, u, best as int));
                                assert(split_den(s@, u) > 0) by (nonlinear_arith)
                                    requires
                                        0 < count_le(s@, u) < s@.len(),
                                ;
                                lemma_frac_trans(
                                    split_num(s@, u),
                                    split_den(s@, u),
                                    split_num(s@, best as int),
                                    split_den(s@, best as int),
                                    split_num(s@, t as int),
                                    split_den(s@, t as int),
                                );
                            }
                        }
                    }
                }
                best = t as u8;
                best_num = num;
                best_den = den;
                found = true;
            }
        }
        t += 1;
    }
    best
}

/// `r` is what isolating the glyph of `cell` gives, where `b` is the cell's
/// binary mask (see `isolate_mask`): `None` when clearing the border of `b`
/// leaves no foreground, else `b` with its border cleared.
pub open spec fn isolation_of(cell: GrayImage, b: GrayImage, r: Option<GrayImage>) -> bool {
    &&& b.wf()
    &&& b.width == cell.width
    &&& b.height == cell.height
    &&& b.data@ == isolate_mask(cell.data@)
    &&& (r is None <==> forall|x: int, y: int|
        0 <= x < cell.width && 0 <= y < cell.height ==> cleared(b, x, y) == 0)
    &&& (r matches Some(m) ==> {
        &&& m.wf()
        &&& m.width == cell.width
        &&& m.height == cell.height
        &&& forall|x: int, y: int|
            0 <= x < cell.width && 0 <= y < cell.height ==> m.px(x, y) == cleared(b, x, y)
    })
}

/// Isolates the glyph of a cell: stretches its values onto the full range,
/// binarises it at its Otsu threshold with ink as foreground, and erases the
/// regions touching the cell's edge. `None` when no foreground is left.
pub fn extract_digit(cell: &GrayImage) -> (r: Option<GrayImage>)
    requires
        cell.wf(),
        cell.width * cell.height <= MAX_CELL_PIXELS,
    ensures
        exists|b: GrayImage| isolation_of(*cell, b, r),
{
    let norm = normalize(cell);
    let t = otsu_threshold(&norm.data);
    proof {
        lemma_otsu_unique(norm.data@, t as int);
    }
    let bin = binarize_inv(&norm, t);
    assert(bin.data@ == isolate_mask(cell.data@));
    let out = clear_border(&bin);
    let w = out.width;
    let h = out.height;
    let n = out.data.len();
    let mut i: usize = 0;
    while i < n
        invariant
            out.wf(),
            n == out.data@.len(),
            n == w * h,
            w == out.width,
            h == out.height,
            i <= n,
            forall|j: int| 0 <= j < i ==> out.data@[j] == 0,
            bin.wf(),
            bin.width == cell.width,
            bin.height == cell.height,
            w == cell.width,
            h == cell.height,
            bin.data@ == isolate_mask(cell.data@),
            forall|x: int, y: int|
                0 <= x < w && 0 <= y < h ==> out.px(x, y) == cleared(bin, x, y),
        decreases n - i,
    {
        if out.data[i] != 0 {
            let ghost od = out.data@;
            let r = Some(out);
            proof {
                crate::image::lemma_index_split(i as int, w as int, h as int);
                let x = i as int % w as int;
                let y = i as int / w as int;
                assert(od[y * w + x] != 0);
                assert(0 <= x < w && 0 <= y < h);
                assert(cleared(bin, x, y) != 0);
                assert(isolation_of(*cell, bin, r));
            }
            return r;
        }
        i += 1;
    }
    proof {
        assert forall|x: int, y: int| 0 <= x < w && 0 <= y < h implies cleared(bin, x, y) == 0 by {
            lemma_index_join(x, y, w as int, h as int);
            assert(out.px(x, y) == 0);
        }
        assert(isolation_of(*cell, bin, None));
    }
    None
}

/// A cell whose binary mask holds no foreground pixel yields no glyph.
pub proof fn lemma_blank_mask_yields_none(cell: GrayImage, r: Option<GrayImage>)
    requires
        exists|b: GrayImage| isolation_of(cell, b, r),
        forall|j: int|
            0 <= j < isolate_mask(cell.data@).len() ==> #[trigger] isolate_mask(cell.data@)[j] == 0,
    ensures
        r is None,
{
    let b = choose|b: GrayImage| isolation_of(cell, b, r);
    assert forall|x: int, y: int| 0 <= x < cell.width && 0 <= y < cell.height implies cleared(
        b,
        x,
        y,
    ) == 0 by {
        lemma_index_join(x, y, cell.width as int, cell.height as int);
        assert(b.px(x, y) == isolate_mask(cell.data@)[y * cell.width + x]);
    }
}

} // verus!
