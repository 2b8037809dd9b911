use sudoku_vision::geometry::{diff_rows, distance, max_index, min_index, order_points, sum_rows, Point, VisionError};

#[test]
fn test_sum_rows() {
    let input = vec![
        Point::new(1, 2),
        Point::new(3, 4),
        Point::new(5, 6),
        Point::new(7, 8),
    ];
    assert_eq!(sum_rows(&input), vec![3, 7, 11, 15]);
}

#[test]
fn test_diff_rows() {
    let input = vec![
        Point::new(1, 2),
        Point::new(3, 4),
        Point::new(5, 6),
        Point::new(7, 8),
    ];
    assert_eq!(diff_rows(&input), vec![-1, -1, -1, -1]);
}

#[test]
fn test_min_index() {
    let input = vec![3, 7, 11, 15];
    assert_eq!(min_index(&input), 0);
}

#[test]
fn test_max_index() {
    let input = vec![3, 7, 11, 15];
    assert_eq!(max_index(&input), 3);
}

#[test]
fn test_order_points() {
    let input = vec![
        Point::new(0, 0),
        Point::new(800, 0),
        Point::new(0, 800),
        Point::new(800, 800),
    ];
    let expected = vec![
        Point::new(0, 0),
        Point::new(0, 800),
        Point::new(800, 800),
        Point::new(800, 0),
    ];
    assert_eq!(equal(&order_points(&input).unwrap(), &expected), true);
}

#[test]
fn test_distance() {
    let a = Point::new(0, 0);
    let b = Point::new(800, 800);
    assert_eq!(distance(&a, &b) as u32, 1131);
}

fn equal(a: &Vec<Point>, b: &Vec<Point>) -> bool {
    a.len() == b.len() && a.iter().zip(b.iter()).all(|(a, b)| a == b)
}

#[test]
fn order_points_rejects_three_points() {
    let input = vec![Point::new(0, 0), Point::new(5, 0), Point::new(0, 5)];
    assert_eq!(order_points(&input), Err(VisionError::InvalidInput));
}

#[test]
fn order_points_breaks_ties_by_first_occurrence() {
    // Both (0,0) and (1,-1) have x + y == 0; the first one is top-left.
    let input = vec![
        Point::new(0, 0),
        Point::new(1, -1),
        Point::new(10, 10),
        Point::new(0, 10),
    ];
    let r = order_points(&input).unwrap();
    assert_eq!(r[0], Point::new(0, 0));
    assert_eq!(r[2], Point::new(10, 10));
}

#[test]
fn min_and_max_index_pick_first_on_ties() {
    let input = vec![5, 1, 9, 1, 9];
    assert_eq!(min_index(&input), 1);
    assert_eq!(max_index(&input), 2);
}

#[test]
fn distance_of_whole_numbers_and_extremes() {
    assert_eq!(distance(&Point::new(0, 0), &Point::new(3, 4)), 5);
    assert_eq!(distance(&Point::new(2, 2), &Point::new(2, 2)), 0);
    let far = distance(&Point::new(i32::MIN, i32::MIN), &Point::new(i32::MAX, i32::MAX));
    // floor(sqrt(2) * (2^32 - 1))
    assert_eq!(far, 6074000998);
}
