use vstd::prelude::*;

use crate::digit::{extract_digit, isolation_of, MAX_CELL_PIXELS};
use crate::geometry::{ordered_corners, Point, VisionError};
use crate::grid::{crop, grid_cell, split};
use crate::homography::{all_in_range, degenerate, rect_height, rect_width};
use crate::image::GrayImage;
use crate::warp::{four_point_transform, is_rectification};

verus! {

/// Rows and columns of a board.
pub const BOARD_SIZE: usize = 9;

/// A polygon found in the image, with the perimeter of the contour it
/// approximates.
#[derive(Debug, Clone, PartialEq, Eq)]
pub struct Candidate {
    pub points: Vec<Point>,
    pub perimeter: u64,
}

/// `i` is the candidate with exactly four vertices and the greatest
/// perimeter, the first such on ties.
pub open spec fn is_best_candidate(cands: Seq<Candidate>, i: int) -> bool {
    &&& 0 <= i < cands.len()
    &&& cands[i].points@.len() == 4
    &&& forall|j: int|
        0 <= j < cands.len() && cands[j].points@.len() == 4 ==> cands[j].perimeter
            <= cands[i].perimeter
    &&& forall|j: int|
        0 <= j < i && cands[j].points@.len() == 4 ==> cands[j].perimeter < cands[i].perimeter
}

pub open spec fn has_quad(cands: Seq<Candidate>) -> bool {
    exists|j: int| 0 <= j < cands.len() && cands[j].points@.len() == 4
}

/// Picks the board outline among the candidates.
pub fn select_puzzle(cands: &Vec<Candidate>) -> (r: Result<usize, VisionError>)
    ensures
        !has_quad(cands@) <==> r == Err::<usize, VisionError>(VisionError::PuzzleNotFound),
        r matches Ok(i) ==> is_best_candidate(cands@, i as int),
        r matches Err(e) ==> e == VisionError::PuzzleNotFound,
{
    let mut best: usize = 0;
    let mut found = false;
    let mut i: usize = 0;
    while i < cands.len()
        invariant
            i <= cands@.len(),
            found == exists|j: int| 0 <= j < i && cands@[j].points@.len() == 4,
            found ==> {
                &&& best < i
                &&& cands@[best as int].points@.len() == 4
                &&& forall|j: int|
                    0 <= j < i && cands@[j].points@.len() == 4 ==> cands@[j].perimeter
                        <= cands@[best as int].perimeter
                &&& forall|j: int|
                    0 <= j < best && cands@[j].points@.len() == 4 ==> cands@[j].perimeter
                        < cands@[best as int].perimeter
            },
        decreases cands@.len() - i,
    {
        if cands[i].points.len() == 4 && (!found || cands[i].perimeter > cands[best].perimeter) {
            best = i;
            found = true;
        }
        i += 1;
    }
    if found {
        Ok(best)
    } else {
        Err(VisionError::PuzzleNotFound)
    }
}

/// The window `c` of `img`, as an image of its own.
pub open spec fn is_crop(img: GrayImage, c: crate::grid::Cell, out: GrayImage) -> bool {
    &&& out.wf()
    &&& out.width == c.w
    &&& out.height == c.h
    &&& forall|x: int, y: int|
        0 <= x < c.w && 0 <= y < c.h ==> out.px(x, y) == img.px(c.x + x, c.y + y)
}

/// `res` is the isolated glyph of cell `i`, counted row by row, of the
/// board view `rect`.
pub open spec fn cell_result(rect: GrayImage, i: int, res: Option<GrayImage>) -> bool {
    let c = grid_cell(rect.width as int, rect.height as int, 9, 9, i / 9, i % 9);
    exists|cell: GrayImage, b: GrayImage| is_crop(rect, c, cell) && isolation_of(cell, b, res)
}

/// Finds the board among the candidate outlines and rectifies it into an
/// upright view (see `four_point_transform`).
pub fn rectify_board(image: &GrayImage, cands: &Vec<Candidate>) -> (r: Result<GrayImage, VisionError>)
    requires
        image.wf(),
    ensures
        !has_quad(cands@) <==> r == Err::<GrayImage, VisionError>(VisionError::PuzzleNotFound),
        forall|i: int|
            is_best_candidate(cands@, i) ==> {
                let q = ordered_corners(cands@[i].points@);
                &&& degenerate(q) || rect_width(q) < 2 || rect_height(q) < 2 ==> r == Err::<
                    GrayImage,
                    VisionError,
                >(VisionError::SingularSystem)
                &&& !degenerate(q) && rect_width(q) >= 2 && rect_height(q) >= 2 && !all_in_range(q)
                    ==> r == Err::<GrayImage, VisionError>(VisionError::InvalidInput)
                &&& !degenerate(q) && rect_width(q) >= 2 && rect_height(q) >= 2 && all_in_range(q)
                    ==> r is Ok
            },
        r matches Ok(board) ==> exists|i: int|
            is_best_candidate(cands@, i) && is_rectification(*image, cands@[i].points@, board),
{
    let sel = select_puzzle(cands)?;
    proof {
        assert forall|i: int| is_best_candidate(cands@, i) implies i == sel by {
            if i < sel {
                assert(cands@[i].perimeter < cands@[sel as int].perimeter);
            } else if sel < i {
                assert(cands@[sel as int].perimeter < cands@[i].perimeter);
            }
        }
    }
    four_point_transform(image, &cands[sel].points)
}

/// Splits a board view into 9 by 9 cells and isolates the glyph of each,
/// row by row. Each cell may hold at most `MAX_CELL_PIXELS` pixels.
pub fn isolate_cells(board: &GrayImage) -> (r: Vec<Option<GrayImage>>)
    requires
        board.wf(),
        (board.width / 9) * (board.height / 9) <= MAX_CELL_PIXELS,
    ensures
        r@.len() == 81,
        forall|k: int| 0 <= k < 81 ==> cell_result(*board, k, #[trigger] r@[k]),
{
    let cells = split(board, BOARD_SIZE, BOARD_SIZE);
    let mut out: Vec<Option<GrayImage>> = Vec::new();
    let mut k: usize = 0;
    while k < 81
        invariant
            board.wf(),
            (board.width / 9) * (board.height / 9) <= MAX_CELL_PIXELS,
            cells@.len() == 81,
            forall|i: int|
                0 <= i < 81 ==> #[trigger] cells@[i] == grid_cell(
                    board.width as int,
                    board.height as int,
                    9,
                    9,
                    i / 9,
                    i % 9,
                ),
            forall|i: int|
                0 <= i < 81 ==> #[trigger] cells@[i].x + cells@[i].w <= board.width && cells@[i].y
                    + cells@[i].h <= board.height,
            k <= 81,
            out@.len() == k,
            forall|i: int| 0 <= i < k ==> cell_result(*board, i, #[trigger] out@[i]),
        decreases 81 - k,
    {
        let cell = crop(board, &cells[k]);
        let glyph = extract_digit(&cell);
        proof {
            let b = choose|b: GrayImage| isolation_of(cell, b, glyph);
            assert(is_crop(*board, cells@[k as int], cell));
            assert(cell_result(*board, k as int, glyph));
        }
        out.push(glyph);
        k += 1;
    }
    out
}

/// A board of digits, row by row; 0 marks an empty cell.
#[derive(Debug, Clone, PartialEq, Eq)]
pub struct Board {
    pub rows: usize,
    pub cols: usize,
    pub cells: Vec<u8>,
}

impl Board {
    pub open spec fn wf(&self) -> bool {
        &&& self.cells@.len() == self.rows * self.cols
        &&& forall|i: int| 0 <= i < self.cells@.len() ==> #[trigger] self.cells@[i] <= 9
    }
}

/// The digit a classification result stands for: the digit itself, or 0 for
/// a cell without a glyph.
pub open spec fn label_value(l: Option<u8>) -> u8 {
    match l {
        Some(d) => d,
        None => 0,
    }
}

/// Fills a board row by row from the per-cell classification results.
pub fn assemble_board(rows: usize, cols: usize, labels: &Vec<Option<u8>>) -> (r: Board)
    requires
        labels@.len() == rows * cols,
        forall|i: int| 0 <= i < labels@.len() ==> #[trigger] label_value(labels@[i]) <= 9,
    ensures
        r.wf(),
        r.rows == rows,
        r.cols == cols,
        forall|i: int| 0 <= i < labels@.len() ==> r.cells@[i] == label_value(labels@[i]),
{
    let mut cells: Vec<u8> = Vec::new();
    let mut i: usize = 0;
    while i < labels.len()
        invariant
            i <= labels@.len(),
            cells@.len() == i,
            forall|j: int| 0 <= j < labels@.len() ==> #[trigger] label_value(labels@[j]) <= 9,
            forall|j: int| 0 <= j < i ==> cells@[j] == label_value(labels@[j]),
        decreases labels@.len() - i,
    {
        let v = match labels[i] {
            Some(d) => d,
            None => 0,
        };
        cells.push(v);
        i += 1;
    }
    Board { rows, cols, cells }
}

/// Byte `k` of the text form of `b`: each row is its digits separated by
/// single spaces and ended by a newline.
pub open spec fn text_byte(b: Board, k: int) -> u8 {
    let line = 2 * b.cols;
    let r = k / line;
    let j = k % line;
    if j == line - 1 {
        10u8
    } else if j % 2 == 1 {
        32u8
    } else {
        (48 + b.cells@[r * b.cols + j / 2]) as u8
    }
}

/// The text form of a board, as ASCII bytes (see `text_byte`).
pub fn board_text(b: &Board) -> (r: Vec<u8>)
    requires
        b.wf(),
        2 * b.cols <= usize::MAX,
        2 * b.rows * b.cols <= usize::MAX,
    ensures
        r@.len() == 2 * b.rows * b.cols,
        forall|k: int| 0 <= k < r@.len() ==> r@[k] == text_byte(*b, k),
{
    let line = 2 * b.cols;
    assert(line * b.rows == 2 * b.rows * b.cols) by (nonlinear_arith)
        requires
            line == 2 * b.cols,
    ;
    let n = line * b.rows;
    let mut out: Vec<u8> = Vec::new();
    let mut k: usize = 0;
    while k < n
        invariant
            b.wf(),
            line == 2 * b.cols,
            n == line * b.rows,
            n == 2 * b.rows * b.cols,
            2 * b.rows * b.cols <= usize::MAX,
            k <= n,
            out@.len() == k,
            forall|i: int| 0 <= i < k ==> out@[i] == text_byte(*b, i),
        decreases n - k,
    {
        proof {
            crate::image::lemma_index_split(k as int, line as int, b.rows as int);
        }
        let r = k / line;
        let j = k % line;
        let v: u8 = if j == line - 1 {
            10
        } else if j % 2 == 1 {
            32
        } else {
            proof {
                assert(0 <= r * b.cols <= r * b.cols + j / 2 < b.rows * b.cols <= 2 * b.rows
                    * b.cols) by (nonlinear_arith)
                    requires
                        0 <= r < b.rows,
                        0 <= j < 2 * b.cols,
                ;
                assert(b.cells@[r * b.cols + j / 2] <= 9);
            }
            48 + b.cells[r * b.cols + j / 2]
        };
        out.push(v);
        k += 1;
    }
    out
}

} // verus!
