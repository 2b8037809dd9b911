use vstd::prelude::*;

use crate::image::{lemma_index_join, lemma_index_split, GrayImage};

verus! {

/// A window `(x, y, w, h)` into an image.
#[derive(Debug, Clone, Copy, PartialEq, Eq, Structural)]
pub struct Cell {
    pub x: usize,
    pub y: usize,
    pub w: usize,
    pub h: usize,
}

/// The cell in row `r`, column `c` of a `rows` by `cols` grid laid over a
/// `width` by `height` image; trailing pixels belong to no cell.
pub open spec fn grid_cell(width: int, height: int, rows: int, cols: int, r: int, c: int) -> Cell {
    let cw = width / cols;
    let ch = height / rows;
    Cell { x: (c * cw) as usize, y: (r * ch) as usize, w: cw as usize, h: ch as usize }
}

proof fn lemma_cell_inside(size: int, parts: int, k: int)
    requires
        0 <= size,
        0 < parts,
        0 <= k < parts,
    ensures
        0 <= k * (size / parts),
        k * (size / parts) + size / parts <= size,
{
    let q = size / parts;
    vstd::arithmetic::div_mod::lemma_fundamental_div_mod(size, parts);
    assert(0 <= q);
    assert(0 <= k * q && k * q + q <= size) by (nonlinear_arith)
        requires
            0 <= q,
            0 <= k < parts,
            parts * q <= size,
    ;
}

/// Splits a `width` by `height` image into `rows` by `cols` equal cells of
/// `width / cols` by `height / rows` pixels, enumerated row by row.
pub fn split(image: &GrayImage, rows: usize, cols: usize) -> (r: Vec<Cell>)
    requires
        rows > 0,
        cols > 0,
        rows * cols <= usize::MAX,
    ensures
        r@.len() == rows * cols,
        forall|i: int|
            0 <= i < rows * cols ==> #[trigger] r@[i] == grid_cell(
                image.width as int,
                image.height as int,
                rows as int,
                cols as int,
                i / cols as int,
                i % cols as int,
            ),
        forall|i: int|
            0 <= i < rows * cols ==> #[trigger] r@[i].x + r@[i].w <= image.width && r@[i].y
                + r@[i].h <= image.height,
{
    let cw = image.width / cols;
    let ch = image.height / rows;
    proof {
        vstd::arithmetic::mul::lemma_mul_is_commutative(rows as int, cols as int);
    }
    let n = rows * cols;
    let mut cells: Vec<Cell> = Vec::new();
    let mut i: usize = 0;
    while i < n
        invariant
            rows > 0,
            cols > 0,
            n == cols * rows,
            n == rows * cols,
            cw == image.width as int / cols as int,
            ch == image.height as int / rows as int,
            i <= n,
            cells@.len() == i,
            forall|j: int|
                0 <= j < i ==> #[trigger] cells@[j] == grid_cell(
                    image.width as int,
                    image.height as int,
                    rows as int,
                    cols as int,
                    j / cols as int,
                    j % cols as int,
                ),
            forall|j: int|
                0 <= j < i ==> #[trigger] cells@[j].x + cells@[j].w <= image.width && cells@[j].y
                    + cells@[j].h <= image.height,
        decreases n - i,
    {
        proof {
            lemma_index_split(i as int, cols as int, rows as int);
            lemma_cell_inside(image.width as int, cols as int, i as int % cols as int);
            lemma_cell_inside(image.height as int, rows as int, i as int / cols as int);
        }
        let c = i % cols;
        let r = i / cols;
        cells.push(Cell { x: c * cw, y: r * ch, w: cw, h: ch });
        i += 1;
    }
    cells
}

/// Copies the window `cell` out of `img`.
pub fn crop(img: &GrayImage, cell: &Cell) -> (r: GrayImage)
    requires
        img.wf(),
        cell.x + cell.w <= img.width,
        cell.y + cell.h <= img.height,
    ensures
        r.wf(),
        r.width == cell.w,
        r.height == cell.h,
        forall|x: int, y: int|
            0 <= x < cell.w && 0 <= y < cell.h ==> r.px(x, y) == img.px(cell.x + x, cell.y + y),
{
    let w = cell.w;
    let h = cell.h;
    assert(w * h <= img.width * img.height) by (nonlinear_arith)
        requires
            w <= img.width,
            h <= img.height,
    ;
    let n = w * h;
    let mut data: Vec<u8> = Vec::new();
    let mut i: usize = 0;
    while i < n
        invariant
            img.wf(),
            cell.x + cell.w <= img.width,
            cell.y + cell.h <= img.height,
            w == cell.w,
            h == cell.h,
            n == w * h,
            i <= n,
            data@.len() == i,
            forall|j: int|
                0 <= j < i ==> data@[j] == img.px(cell.x + j % w as int, cell.y + j / w as int),
        decreases n - i,
    {
        proof {
            lemma_index_split(i as int, w as int, h as int);
        }
        let x = i % w;
        let y = i / w;
        let v = img.get(cell.x + x, cell.y + y);
        data.push(v);
        i += 1;
    }
    let r = GrayImage { width: w, height: h, data };
    assert forall|x: int, y: int| 0 <= x < w && 0 <= y < h implies r.px(x, y) == img.px(
        cell.x + x,
        cell.y + y,
    ) by {
        lemma_index_join(x, y, w as int, h as int);
    }
    r
}

} // verus!
