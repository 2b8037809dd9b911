use vstd::prelude::*;

verus! {

/// A single-channel 8-bit raster image stored row by row.
#[derive(Debug, Clone, PartialEq, Eq)]
pub struct GrayImage {
    pub width: usize,
    pub height: usize,
    pub data: Vec<u8>,
}

pub proof fn lemma_pixel_index(x: int, y: int, w: int, h: int)
    requires
        0 <= x < w,
        0 <= y < h,
    ensures
        0 <= y * w + x < w * h,
{
    assert(0 <= y * w + x < w * h) by (nonlinear_arith)
        requires
            0 <= x < w,
            0 <= y < h,
    ;
}

pub proof fn lemma_index_split(j: int, w: int, h: int)
    requires
        0 <= w,
        0 <= j < w * h,
    ensures
        w > 0,
        0 <= j % w < w,
        0 <= j / w < h,
        j == (j / w) * w + j % w,
{
    if w == 0 {
        assert(w * h == 0) by (nonlinear_arith)
            requires
                w == 0,
        ;
    }
    vstd::arithmetic::div_mod::lemma_fundamental_div_mod(j, w);
    vstd::arithmetic::mul::lemma_mul_is_commutative(w, j / w);
    let q = j / w;
    let r = j % w;
    assert(q < h) by (nonlinear_arith)
        requires
            j == q * w + r,
            0 <= r < w,
            j < w * h,
    ;
    assert(0 <= q) by (nonlinear_arith)
        requires
            j == q * w + r,
            0 <= r < w,
            0 <= j,
    ;
}

pub proof fn lemma_index_join(x: int, y: int, w: int, h: int)
    requires
        0 <= x < w,
        0 <= y < h,
    ensures
        0 <= y * w + x < w * h,
        (y * w + x) / w == y,
        (y * w + x) % w == x,
{
    lemma_pixel_index(x, y, w, h);
    vstd::arithmetic::div_mod::lemma_fundamental_div_mod_converse(y * w + x, w, y, x);
}

impl GrayImage {
    /// The buffer holds exactly one value per pixel.
    pub open spec fn wf(&self) -> bool {
        &&& self.data@.len() == self.width * self.height
        &&& self.width * self.height <= usize::MAX
    }

    /// The value at column `x`, row `y`.
    pub open spec fn px(&self, x: int, y: int) -> u8 {
        self.data@[y * self.width + x]
    }

    /// An image of the given size with every pixel set to `value`.
    pub fn filled(width: usize, height: usize, value: u8) -> (r: GrayImage)
        requires
            width * height <= usize::MAX,
        ensures
            r.wf(),
            r.width == width,
            r.height == height,
            forall|x: int, y: int| 0 <= x < width && 0 <= y < height ==> r.px(x, y) == value,
    {
        let n = width * height;
        let mut data: Vec<u8> = Vec::new();
        let mut i: usize = 0;
        while i < n
            invariant
                i <= n,
                data@.len() == i,
                forall|j: int| 0 <= j < i ==> data@[j] == value,
            decreases n - i,
        {
            data.push(value);
            i += 1;
        }
        let r = GrayImage { width, height, data };
        assert forall|x: int, y: int| 0 <= x < width && 0 <= y < height implies r.px(x, y)
            == value by {
            lemma_pixel_index(x, y, width as int, height as int);
        }
        r
    }

    /// Wraps a row-by-row buffer; `None` when its length is not
    /// `width * height`.
    pub fn from_data(width: usize, height: usize, data: Vec<u8>) -> (r: Option<GrayImage>)
        ensures
            r matches Some(img) ==> img.wf() && img.width == width && img.height == height
                && img.data@ == data@,
            r is None <==> data@.len() != width * height,
    {
        let len = data.len();
        match width.checked_mul(height) {
            Some(n) => {
                if len == n {
                    Some(GrayImage { width, height, data })
                } else {
                    None
                }
            },
            None => {
                None
            },
        }
    }

    /// The value at column `x`, row `y`.
    pub fn get(&self, x: usize, y: usize) -> (r: u8)
        requires
            self.wf(),
            x < self.width,
            y < self.height,
        ensures
            r == self.px(x as int, y as int),
    {
        proof {
            lemma_pixel_index(x as int, y as int, self.width as int, self.height as int);
        }
        self.data[y * self.width + x]
    }
}

/// Swaps rows and columns.
pub fn transpose(img: &GrayImage) -> (r: GrayImage)
    requires
        img.wf(),
    ensures
        r.wf(),
        r.width == img.height,
        r.height == img.width,
        forall|x: int, y: int|
            0 <= x < r.width && 0 <= y < r.height ==> r.px(x, y) == img.px(y, x),
{
    let w = img.height;
    let h = img.width;
    proof {
        vstd::arithmetic::mul::lemma_mul_is_commutative(w as int, h as int);
    }
    let n = w * h;
    let mut data: Vec<u8> = Vec::new();
    let mut i: usize = 0;
    while i < n
        invariant
            img.wf(),
            w == img.height,
            h == img.width,
            n == w * h,
            i <= n,
            data@.len() == i,
            forall|j: int| 0 <= j < i ==> data@[j] == img.px(j / w as int, j % w as int),
        decreases n - i,
    {
        proof {
            lemma_index_split(i as int, w as int, h as int);
        }
        let x = i % w;
        let y = i / w;
        let v = img.get(y, x);
        data.push(v);
        i += 1;
    }
    let r = GrayImage { width: w, height: h, data };
    assert forall|x: int, y: int| 0 <= x < r.width && 0 <= y < r.height implies r.px(x, y)
        == img.px(y, x) by {
        lemma_index_join(x, y, w as int, h as int);
    }
    r
}

} // verus!
