use sudoku_vision::border::clear_border;
use sudoku_vision::digit::{binarize_inv, extract_digit, normalize, otsu_threshold};
use sudoku_vision::geometry::{Point, VisionError};
use sudoku_vision::grid::{crop, split, Cell};
use sudoku_vision::homography::estimate;
use sudoku_vision::image::{transpose, GrayImage};
use sudoku_vision::pipeline::{assemble_board, board_text, isolate_cells, rectify_board, select_puzzle, Board, Candidate};
use sudoku_vision::warp::{four_point_transform, warp};

fn image_from(width: usize, height: usize, f: impl Fn(usize, usize) -> u8) -> GrayImage {
    let mut data = Vec::new();
    for y in 0..height {
        for x in 0..width {
            data.push(f(x, y));
        }
    }
    GrayImage::from_data(width, height, data).unwrap()
}

fn square(x0: i32, y0: i32, x1: i32, y1: i32) -> Vec<Point> {
    vec![
        Point::new(x0, y0),
        Point::new(x1, y0),
        Point::new(x1, y1),
        Point::new(x0, y1),
    ]
}

#[test]
fn estimate_fails_on_collinear_points() {
    let pts = vec![
        Point::new(0, 0),
        Point::new(10, 10),
        Point::new(20, 20),
        Point::new(0, 30),
    ];
    assert_eq!(estimate(&pts).unwrap_err(), VisionError::SingularSystem);
}

#[test]
fn estimate_fails_on_duplicate_points() {
    let pts = vec![
        Point::new(5, 5),
        Point::new(5, 5),
        Point::new(50, 50),
        Point::new(5, 50),
    ];
    assert_eq!(estimate(&pts).unwrap_err(), VisionError::SingularSystem);
}

#[test]
fn estimate_rejects_wrong_count_and_range() {
    let three = vec![Point::new(0, 0), Point::new(9, 0), Point::new(9, 9)];
    assert_eq!(estimate(&three).unwrap_err(), VisionError::InvalidInput);
    let far = square(0, 0, 20000, 20000);
    assert_eq!(estimate(&far).unwrap_err(), VisionError::InvalidInput);
    let below = square(-16385, 0, 50, 50);
    assert_eq!(estimate(&below).unwrap_err(), VisionError::InvalidInput);
}

#[test]
fn estimate_accepts_negative_and_large_coordinates() {
    let (_, w, h) = estimate(&square(-16384, -16384, 16384, 16384)).unwrap();
    assert_eq!(w, 32768);
    assert_eq!(h, 32768);
    let (_, w, h) = estimate(&square(-10, -5, 40, 45)).unwrap();
    assert_eq!((w, h), (50, 50));
}

#[test]
fn singular_outline_is_singular_whatever_its_coordinates() {
    let dup = vec![
        Point::new(0, 0),
        Point::new(0, 0),
        Point::new(5000, 5000),
        Point::new(5000, 0),
    ];
    assert_eq!(estimate(&dup).unwrap_err(), VisionError::SingularSystem);
    let far_line = vec![
        Point::new(-40000, 0),
        Point::new(0, 0),
        Point::new(40000, 0),
        Point::new(0, 90000),
    ];
    assert_eq!(estimate(&far_line).unwrap_err(), VisionError::SingularSystem);
    let img = GrayImage::filled(10, 10, 0);
    let pts = vec![
        Point::new(0, 0),
        Point::new(0, 0),
        Point::new(5000, 5000),
        Point::new(5000, 0),
    ];
    assert_eq!(four_point_transform(&img, &pts).unwrap_err(), VisionError::SingularSystem);
}

#[test]
fn estimate_sizes_the_view_from_the_longer_edges() {
    // tl, tr, br, bl of a trapezoid: top edge 100, bottom edge 60, sides 50.
    let pts = vec![
        Point::new(0, 0),
        Point::new(100, 0),
        Point::new(80, 40),
        Point::new(20, 40),
    ];
    let (h, w, ht) = estimate(&pts).unwrap();
    assert_eq!(w, 100);
    assert_eq!(ht, 44);
    // The inverse mapping takes the view's corners back onto the corners.
    let views = [(0i128, 0i128), (99, 0), (99, 43), (0, 43)];
    for (k, (u, v)) in views.iter().enumerate() {
        let m = h.inverse;
        let x = m.m00 * u + m.m01 * v + m.m02;
        let y = m.m10 * u + m.m11 * v + m.m12;
        let z = m.m20 * u + m.m21 * v + m.m22;
        assert_ne!(z, 0);
        assert_eq!(x, pts[k].x as i128 * z);
        assert_eq!(y, pts[k].y as i128 * z);
        let f = h.forward;
        let (px, py) = (pts[k].x as i128, pts[k].y as i128);
        let a = f.m00 * px + f.m01 * py + f.m02;
        let b = f.m10 * px + f.m11 * py + f.m12;
        let c = f.m20 * px + f.m21 * py + f.m22;
        assert_ne!(c, 0);
        assert_eq!(a, u * c);
        assert_eq!(b, v * c);
    }
}

#[test]
fn warp_of_identity_square_reproduces_content() {
    let src = image_from(801, 801, |x, y| ((x / 4 + y / 8) % 256) as u8);
    let pts = vec![
        Point::new(0, 0),
        Point::new(800, 0),
        Point::new(0, 800),
        Point::new(800, 800),
    ];
    let out = four_point_transform(&src, &pts).unwrap();
    assert_eq!(out.width, 800);
    assert_eq!(out.height, 800);
    assert_eq!(out.get(0, 0), src.get(0, 0));
    for y in (0..800).step_by(37) {
        for x in (0..800).step_by(41) {
            let a = out.get(x, y) as i32;
            let b = src.get(x, y) as i32;
            assert!((a - b).abs() <= 2, "pixel ({}, {}): {} vs {}", x, y, a, b);
        }
    }
}

#[test]
fn warp_fills_outside_with_zero() {
    let src = image_from(10, 10, |_, _| 200);
    // A mapping that sends every view pixel to (20, 20): outside the source.
    let (mut h, _, _) = estimate(&square(0, 0, 9, 9)).unwrap();
    h.inverse.m00 = 0;
    h.inverse.m01 = 0;
    h.inverse.m02 = 20;
    h.inverse.m10 = 0;
    h.inverse.m11 = 0;
    h.inverse.m12 = 20;
    h.inverse.m20 = 0;
    h.inverse.m21 = 0;
    h.inverse.m22 = 1;
    let out = warp(&src, &h, 3, 2);
    assert_eq!(out.width, 3);
    assert_eq!(out.height, 2);
    assert_eq!(out.data, vec![0; 6]);
}

#[test]
fn warp_blends_bilinearly() {
    // Columns alternate 0 and 200; sampling halfway between gives 100.
    let src = image_from(4, 1, |x, _| if x % 2 == 0 { 0 } else { 200 });
    let (mut h, _, _) = estimate(&square(0, 0, 9, 9)).unwrap();
    // source x = (2 * u + 1) / 2, source y = 0
    h.inverse.m00 = 2;
    h.inverse.m01 = 0;
    h.inverse.m02 = 1;
    h.inverse.m10 = 0;
    h.inverse.m11 = 0;
    h.inverse.m12 = 0;
    h.inverse.m20 = 0;
    h.inverse.m21 = 0;
    h.inverse.m22 = 2;
    let out = warp(&src, &h, 3, 1);
    assert_eq!(out.data, vec![100, 100, 100]);
}

#[test]
fn transpose_swaps_axes() {
    let img = image_from(3, 2, |x, y| (10 * y + x) as u8);
    let t = transpose(&img);
    assert_eq!(t.width, 2);
    assert_eq!(t.height, 3);
    assert_eq!(t.data, vec![0, 10, 1, 11, 2, 12]);
}

#[test]
fn split_603_into_nine_by_nine() {
    let img = image_from(603, 603, |_, _| 0);
    let cells = split(&img, 9, 9);
    assert_eq!(cells.len(), 81);
    for (i, c) in cells.iter().enumerate() {
        assert_eq!(c.w, 67);
        assert_eq!(c.h, 67);
        assert_eq!(c.x, (i % 9) * 67);
        assert_eq!(c.y, (i / 9) * 67);
    }
    assert_eq!(cells[80].x + cells[80].w, 603);
}

#[test]
fn split_600_into_nine_by_nine() {
    let img = image_from(600, 600, |_, _| 0);
    let cells = split(&img, 9, 9);
    assert_eq!(cells.len(), 81);
    assert!(cells.iter().all(|c| c.w == 66 && c.h == 66));
    // 600 = 9 * 66 + 6: the trailing six pixels belong to no cell.
    assert_eq!(cells[80].x + cells[80].w, 594);
    assert_eq!(cells[80].y + cells[80].h, 594);
}

#[test]
fn crop_copies_window() {
    let img = image_from(5, 4, |x, y| (10 * y + x) as u8);
    let c = crop(&img, &Cell { x: 1, y: 2, w: 3, h: 2 });
    assert_eq!(c.data, vec![21, 22, 23, 31, 32, 33]);
}

fn ring_and_dot() -> GrayImage {
    // A frame on the edge of a 9x9 image, a diagonal line touching it, and
    // a separate blob in the middle.
    image_from(9, 9, |x, y| {
        if x == 0 || y == 0 || x == 8 || y == 8 {
            255
        } else if (x == 1 && y == 1) || (x == 2 && y == 2) {
            255
        } else if (4..=5).contains(&x) && (4..=5).contains(&y) {
            255
        } else {
            0
        }
    })
}

#[test]
fn clear_border_keeps_only_interior_regions() {
    let img = ring_and_dot();
    let out = clear_border(&img);
    for y in 0..9 {
        for x in 0..9 {
            let expected = if (4..=5).contains(&x) && (4..=5).contains(&y) { 255 } else { 0 };
            assert_eq!(out.get(x, y), expected, "pixel ({}, {})", x, y);
        }
    }
}

#[test]
fn clear_border_follows_diagonal_connections() {
    // The region reaches the edge only through a diagonal step.
    let img = image_from(6, 6, |x, y| if (x == 0 && y == 3) || (x == 1 && y == 2) || (x == 2 && y == 2) { 7 } else { 0 });
    let out = clear_border(&img);
    assert_eq!(out.data, vec![0; 36]);
}

#[test]
fn clear_border_is_idempotent() {
    let img = image_from(12, 10, |x, y| if (x * 7 + y * 3) % 5 < 2 { 255 } else { 0 });
    let once = clear_border(&img);
    let twice = clear_border(&once);
    assert_eq!(once, twice);
    let img2 = ring_and_dot();
    let once2 = clear_border(&img2);
    assert_eq!(clear_border(&once2), once2);
}

#[test]
fn normalize_stretches_to_full_range() {
    let img = image_from(3, 1, |x, _| [50, 100, 150][x]);
    let n = normalize(&img);
    assert_eq!(n.data, vec![0, 128, 255]);
    let flat = image_from(2, 2, |_, _| 77);
    assert_eq!(normalize(&flat).data, vec![0; 4]);
}

#[test]
fn otsu_splits_two_levels() {
    let data = vec![10, 10, 10, 200, 200, 200, 200];
    let t = otsu_threshold(&data);
    assert!(t >= 10 && t < 200);
    assert_eq!(t, 10);
    assert_eq!(otsu_threshold(&vec![5, 5, 5]), 0);
}

#[test]
fn binarize_inverts_polarity() {
    let img = image_from(4, 1, |x, _| [0, 10, 11, 255][x]);
    assert_eq!(binarize_inv(&img, 10).data, vec![255, 255, 0, 0]);
}

#[test]
fn extract_digit_of_blank_cell_is_none() {
    let blank = image_from(20, 20, |_, _| 255);
    assert!(extract_digit(&blank).is_none());
    let dark = image_from(20, 20, |_, _| 0);
    assert!(extract_digit(&dark).is_none());
}

#[test]
fn extract_digit_keeps_centered_glyph_and_drops_grid_line() {
    // White paper, a dark grid line along the left edge and a dark glyph in
    // the middle.
    let cell = image_from(20, 20, |x, y| {
        if x <= 1 {
            0
        } else if (8..12).contains(&x) && (5..15).contains(&y) {
            30
        } else {
            240
        }
    });
    let glyph = extract_digit(&cell).unwrap();
    assert_eq!(glyph.width, 20);
    assert_eq!(glyph.height, 20);
    for y in 0..20 {
        for x in 0..20 {
            let ink = (8..12).contains(&x) && (5..15).contains(&y);
            assert_eq!(glyph.get(x, y), if ink { 255 } else { 0 }, "pixel ({}, {})", x, y);
        }
    }
}

#[test]
fn select_puzzle_prefers_largest_quadrilateral() {
    let cands = vec![
        Candidate { points: square(0, 0, 5, 5), perimeter: 20 },
        Candidate { points: vec![Point::new(0, 0), Point::new(9, 0), Point::new(9, 9)], perimeter: 90 },
        Candidate { points: square(0, 0, 20, 20), perimeter: 80 },
        Candidate { points: square(1, 1, 21, 21), perimeter: 80 },
    ];
    assert_eq!(select_puzzle(&cands), Ok(2));
    let none = vec![Candidate { points: vec![Point::new(0, 0)], perimeter: 4 }];
    assert_eq!(select_puzzle(&none), Err(VisionError::PuzzleNotFound));
    assert_eq!(select_puzzle(&vec![]), Err(VisionError::PuzzleNotFound));
}

#[test]
fn isolate_cells_finds_the_one_glyph() {
    // A 91x91 board: white paper, a dark glyph inside cell (row 1, col 2).
    let img = image_from(91, 91, |x, y| {
        if (23..27).contains(&x) && (12..18).contains(&y) {
            20
        } else {
            235
        }
    });
    let cands = vec![Candidate { points: square(0, 0, 90, 90), perimeter: 360 }];
    let board = rectify_board(&img, &cands).unwrap();
    assert_eq!((board.width, board.height), (90, 90));
    let cells = isolate_cells(&board);
    assert_eq!(cells.len(), 81);
    for (i, c) in cells.iter().enumerate() {
        assert_eq!(c.is_some(), i == 9 + 2, "cell {}", i);
    }
    let missing = rectify_board(&img, &vec![]);
    assert_eq!(missing.unwrap_err(), VisionError::PuzzleNotFound);
}

#[test]
fn extract_digit_handles_large_cells() {
    // A 300x300 cell: blank paper with one glyph in the middle.
    let cell = image_from(300, 300, |x, y| {
        if (120..180).contains(&x) && (80..220).contains(&y) {
            10
        } else {
            240
        }
    });
    let glyph = extract_digit(&cell).unwrap();
    assert_eq!(glyph.get(150, 150), 255);
    assert_eq!(glyph.get(10, 10), 0);
    assert!(extract_digit(&GrayImage::filled(300, 300, 240)).is_none());
}

#[test]
fn board_text_formats_rows() {
    let labels = vec![Some(5), None, Some(3), None];
    let b = assemble_board(2, 2, &labels);
    assert_eq!(b, Board { rows: 2, cols: 2, cells: vec![5, 0, 3, 0] });
    let text = board_text(&b);
    assert_eq!(String::from_utf8(text).unwrap(), "5 0\n3 0\n");
}

#[test]
fn isolate_cells_reports_degenerate_outline() {
    let img = GrayImage::filled(50, 50, 200);
    let flat = vec![Point::new(0, 0), Point::new(10, 0), Point::new(20, 0), Point::new(30, 0)];
    let cands = vec![Candidate { points: flat, perimeter: 60 }];
    assert_eq!(rectify_board(&img, &cands).unwrap_err(), VisionError::SingularSystem);
}

#[test]
fn image_buffers_must_match_their_size() {
    assert!(GrayImage::from_data(3, 2, vec![0; 5]).is_none());
    let img = GrayImage::from_data(3, 2, vec![1, 2, 3, 4, 5, 6]).unwrap();
    assert_eq!(img.get(2, 1), 6);
    let f = GrayImage::filled(2, 3, 9);
    assert_eq!(f.data, vec![9; 6]);
}
