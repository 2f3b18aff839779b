use casting::tessellation::{reduce_pass, tessellate, ReducePass};

fn cross(a: (f64, f64), b: (f64, f64)) -> f64 {
    a.0 * b.1 - b.0 * a.1
}

fn sub(a: (f64, f64), b: (f64, f64)) -> (f64, f64) {
    (a.0 - b.0, a.1 - b.1)
}

fn pass(pts: &[(f64, f64)], last_len: usize) -> ReducePass {
    let parallel = |a0: usize, a1: usize, b0: usize, b1: usize| {
        cross(sub(pts[a1], pts[a0]), sub(pts[b1], pts[b0])).abs() < 1e-6
    };
    let left_turn = |a: usize, b: usize, c: usize| {
        cross(sub(pts[b], pts[a]), sub(pts[c], pts[b])) > 0.0
    };
    reduce_pass(pts.len(), last_len, parallel, left_turn)
}

#[test]
fn counter_clockwise_square_is_cut_into_two_triangles() {
    let square = [(0.0, 0.0), (1.0, 0.0), (1.0, 1.0), (0.0, 1.0)];
    let p = pass(&square, 4);
    assert_eq!(p.triangles, vec![(0, 1, 2), (2, 3, 0)]);
    assert_eq!(p.next_points, vec![0, 2]);
}

#[test]
fn clockwise_square_is_turned_around() {
    let square = [(0.0, 0.0), (0.0, 1.0), (1.0, 1.0), (1.0, 0.0)];
    let p = pass(&square, 4);
    assert!(p.triangles.is_empty());
    assert_eq!(p.next_points, vec![3, 2, 1, 0]);
}

#[test]
fn clockwise_square_after_a_longer_polygon_keeps_its_order() {
    let square = [(0.0, 0.0), (0.0, 1.0), (1.0, 1.0), (1.0, 0.0)];
    let p = pass(&square, 7);
    assert!(p.triangles.is_empty());
    assert_eq!(p.next_points, vec![0, 1, 2, 3]);
}

#[test]
fn points_on_a_line_are_passed_over() {
    let pts = [(0.0, 0.0), (1.0, 0.0), (2.0, 0.0), (2.0, 1.0), (0.0, 1.0)];
    let p = pass(&pts, 5);
    assert_eq!(p.triangles, vec![(0, 2, 3), (3, 4, 0)]);
    assert_eq!(p.next_points, vec![0, 3]);
}

#[test]
fn walk_ending_on_a_line_keeps_the_last_point() {
    let pts = [(0.0, 0.0), (1.0, 0.0), (2.0, 0.0), (3.0, 0.0)];
    let p = pass(&pts, 1);
    assert!(p.triangles.is_empty());
    assert_eq!(p.next_points, vec![0, 3]);
}

#[test]
fn walk_ending_on_a_line_is_not_turned_around() {
    // the walk ends among parallel edges, so the kept points keep their
    // order even where their number is that of the previous polygon
    let pts = [(0.0, 0.0), (1.0, 0.0), (2.0, 0.0), (3.0, 0.0)];
    let p = pass(&pts, 2);
    assert_eq!(p.next_points, vec![0, 3]);
}

#[test]
fn a_pass_never_keeps_more_than_it_was_given() {
    let hexagon = [(2.0, 0.0), (3.0, 1.0), (3.0, 2.0), (2.0, 3.0), (1.0, 2.0), (1.0, 1.0)];
    let p = pass(&hexagon, 6);
    assert!(!p.triangles.is_empty());
    assert!(p.next_points.len() + p.triangles.len() <= hexagon.len());
    assert!(p.next_points.iter().all(|&i| i < hexagon.len()));
}

fn tessellation_of(pts: &[(f64, f64)], last_len: usize) -> Vec<(usize, usize, usize)> {
    let parallel = |a0: usize, a1: usize, b0: usize, b1: usize| {
        cross(sub(pts[a1], pts[a0]), sub(pts[b1], pts[b0])).abs() < 1e-6
    };
    let left_turn = |a: usize, b: usize, c: usize| {
        cross(sub(pts[b], pts[a]), sub(pts[c], pts[b])) > 0.0
    };
    tessellate(pts.len(), last_len, parallel, left_turn)
}

#[test]
fn tessellation_of_a_counter_clockwise_square() {
    let square = [(0.0, 0.0), (1.0, 0.0), (1.0, 1.0), (0.0, 1.0)];
    assert_eq!(tessellation_of(&square, 4), vec![(0, 1, 2), (2, 3, 0)]);
}

#[test]
fn tessellation_of_a_clockwise_square_turns_it_around() {
    let square = [(0.0, 0.0), (0.0, 1.0), (1.0, 1.0), (1.0, 0.0)];
    assert_eq!(tessellation_of(&square, 4), vec![(3, 2, 1), (1, 0, 3)]);
}

#[test]
fn tessellation_of_a_clockwise_square_after_a_longer_polygon() {
    // the first pass keeps every point and is not turned around; the second
    // one is, and the third cuts
    let square = [(0.0, 0.0), (0.0, 1.0), (1.0, 1.0), (1.0, 0.0)];
    assert_eq!(tessellation_of(&square, 9), vec![(3, 2, 1), (1, 0, 3)]);
}

#[test]
fn tessellation_of_small_polygons() {
    assert_eq!(tessellation_of(&[(0.0, 0.0), (1.0, 0.0), (0.0, 1.0)], 3), vec![(0, 1, 2)]);
    assert!(tessellation_of(&[(0.0, 0.0), (1.0, 0.0)], 2).is_empty());
    assert!(tessellation_of(&[], 0).is_empty());
}

#[test]
fn tessellation_of_a_convex_octagon_has_at_most_six_triangles() {
    let octagon = [
        (2.0, 0.0), (3.0, 0.0), (4.0, 1.0), (4.0, 2.0),
        (3.0, 3.0), (2.0, 3.0), (1.0, 2.0), (1.0, 1.0),
    ];
    let tris = tessellation_of(&octagon, 8);
    assert!(!tris.is_empty());
    assert!(tris.len() <= octagon.len() - 2);
    assert!(tris.iter().all(|&(a, b, c)| a < 8 && b < 8 && c < 8));
}

fn area(pts: &[(f64, f64)], t: (usize, usize, usize)) -> f64 {
    cross(sub(pts[t.1], pts[t.0]), sub(pts[t.2], pts[t.1])) / 2.0
}

#[test]
fn square_with_points_on_its_closing_side_is_covered() {
    let pts = [(0.0, 0.0), (2.0, 0.0), (2.0, 2.0), (1.0, 2.0), (0.0, 2.0)];
    let tris = tessellation_of(&pts, 5);
    assert_eq!(tris, vec![(0, 1, 2), (0, 2, 4)]);
    let total: f64 = tris.iter().map(|&t| area(&pts, t)).sum();
    assert_eq!(total, 4.0);
    assert!(tris.iter().all(|&t| area(&pts, t) > 0.0));
}

#[test]
fn square_with_a_point_on_its_first_side_is_covered() {
    let pts = [(1.0, 0.0), (2.0, 0.0), (2.0, 2.0), (0.0, 2.0), (0.0, 0.0)];
    let tris = tessellation_of(&pts, 5);
    let total: f64 = tris.iter().map(|&t| area(&pts, t)).sum();
    assert_eq!(total, 4.0);
}

#[test]
fn three_points_are_given_as_they_stand_whatever_the_tests_say() {
    let nan = f64::NAN;
    assert_eq!(tessellation_of(&[(nan, 0.0), (1.0, nan), (0.0, 1.0)], 3), vec![(0, 1, 2)]);
    // a clockwise triple too
    assert_eq!(tessellation_of(&[(0.0, 0.0), (0.0, 1.0), (1.0, 0.0)], 3), vec![(0, 1, 2)]);
}
