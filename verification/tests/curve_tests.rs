use flower_geometry::curve::{drop_repeats, interpolate, merge, MergeMode};
use flower_geometry::point::Point;
use flower_geometry::sorting::sort;

fn p(x: i16, y: i16) -> Point {
    Point::new(x, y)
}

fn pairs(points: &[Point]) -> Vec<(i16, i16)> {
    points.iter().map(|point| (point.x, point.y)).collect()
}

#[test]
fn point_fields() {
    let point = Point::new(-3, 8);
    assert_eq!((point.x, point.y), (-3, 8));
    assert_eq!(Point::zero(), Point::new(0, 0));
}

#[test]
fn sort_puts_coordinates_in_ascending_order() {
    let mut v: Vec<i16> = vec![3, -1, 2, 3, i16::MIN, 0, i16::MAX, -1];
    sort(&mut v);
    assert_eq!(v, vec![i16::MIN, -1, -1, 0, 2, 3, 3, i16::MAX]);
    let mut empty: Vec<i16> = vec![];
    sort(&mut empty);
    assert!(empty.is_empty());
}

#[test]
fn merge_zigzag_reverses_every_second_fragment() {
    let a = [p(0, 0), p(1, 1)];
    let b = [p(5, 5), p(6, 6), p(7, 7)];
    let c = [p(9, 9), p(8, 8)];
    let merged = merge(&[&a, &b, &c], MergeMode::ZigZag);
    assert_eq!(
        pairs(&merged),
        vec![(0, 0), (1, 1), (7, 7), (6, 6), (5, 5), (9, 9), (8, 8)]
    );
}

#[test]
fn merge_side_with_side_closes_a_lobe() {
    let left = [p(0, 0), p(-1, 1), p(-1, 2), p(0, 3)];
    let right = [p(0, 0), p(1, 1), p(1, 2), p(0, 3)];
    let merged = merge(&[&left, &right], MergeMode::ZigZag);
    assert_eq!(
        pairs(&merged),
        vec![(0, 0), (-1, 1), (-1, 2), (0, 3), (0, 3), (1, 2), (1, 1), (0, 0)]
    );
}

#[test]
fn merge_origin_follows_every_fragment_with_the_origin() {
    let a = [p(3, 0), p(3, 1)];
    let b = [p(-2, 4)];
    let empty: [Point; 0] = [];
    let merged = merge(&[&a, &b, &empty], MergeMode::Origin(p(0, 0)));
    assert_eq!(pairs(&merged), vec![(3, 0), (3, 1), (0, 0), (-2, 4), (0, 0), (0, 0)]);
    let merged = merge(&[&a], MergeMode::Origin(p(7, -7)));
    assert_eq!(pairs(&merged), vec![(3, 0), (3, 1), (7, -7)]);
}

#[test]
fn merge_of_nothing_is_empty() {
    assert!(merge(&[], MergeMode::ZigZag).is_empty());
    assert!(merge(&[], MergeMode::Origin(p(0, 0))).is_empty());
}

#[test]
fn drop_repeats_keeps_the_first_of_a_run() {
    let points = [p(0, 0), p(0, 0), p(1, 0), p(1, 0), p(1, 0), p(0, 0), p(0, 1)];
    assert_eq!(pairs(&drop_repeats(&points)), vec![(0, 0), (1, 0), (0, 0), (0, 1)]);
    assert!(drop_repeats(&[]).is_empty());
    assert_eq!(pairs(&drop_repeats(&[p(4, 4)])), vec![(4, 4)]);
    assert_eq!(pairs(&drop_repeats(&[p(4, 4), p(4, 4)])), vec![(4, 4)]);
}

#[test]
fn interpolate_fills_along_the_longer_axis() {
    assert_eq!(
        pairs(&interpolate(&[p(0, 0), p(3, 1)])),
        vec![(0, 0), (1, 0), (2, 1), (3, 1)]
    );
    assert_eq!(
        pairs(&interpolate(&[p(0, 0), p(1, 4)])),
        vec![(0, 0), (0, 1), (1, 2), (1, 3), (1, 4)]
    );
}

#[test]
fn interpolate_rounds_halves_away_from_zero() {
    assert_eq!(pairs(&interpolate(&[p(0, 0), p(2, 1)])), vec![(0, 0), (1, 1), (2, 1)]);
    assert_eq!(pairs(&interpolate(&[p(0, 0), p(-2, -1)])), vec![(0, 0), (-1, -1), (-2, -1)]);
    assert_eq!(pairs(&interpolate(&[p(0, 0), p(2, -1)])), vec![(0, 0), (1, -1), (2, -1)]);
    assert_eq!(pairs(&interpolate(&[p(5, 5), p(5, 3)])), vec![(5, 5), (5, 4), (5, 3)]);
}

#[test]
fn interpolate_keeps_neighbours_and_drops_repeats() {
    assert_eq!(
        pairs(&interpolate(&[p(0, 0), p(1, 1), p(1, 1), p(0, 1), p(0, 1)])),
        vec![(0, 0), (1, 1), (0, 1)]
    );
    assert!(interpolate(&[]).is_empty());
    assert_eq!(pairs(&interpolate(&[p(9, -9)])), vec![(9, -9)]);
}

#[test]
fn interpolate_leaves_no_gap() {
    let points = [p(-5, 7), p(20, -3), p(0, 0), p(0, 13), p(-17, -4), p(-5, 7)];
    let outline = interpolate(&points);
    assert_eq!(outline.first().copied(), Some(p(-5, 7)));
    assert_eq!(outline.last().copied(), Some(p(-5, 7)));
    for pair in outline.windows(2) {
        let dx = (pair[1].x - pair[0].x).abs();
        let dy = (pair[1].y - pair[0].y).abs();
        assert!(dx <= 1 && dy <= 1);
        assert!(dx + dy > 0);
    }
    for point in &points {
        assert!(outline.contains(point));
    }
    assert_eq!(outline.len(), 1 + 25 + 20 + 13 + 17 + 12);
}

#[test]
fn interpolate_across_the_whole_grid() {
    let outline = interpolate(&[p(i16::MIN, i16::MIN), p(i16::MAX, i16::MAX - 1)]);
    assert_eq!(outline.len(), 65536);
    assert_eq!(outline[0], p(i16::MIN, i16::MIN));
    assert_eq!(outline[65535], p(i16::MAX, i16::MAX - 1));
    for pair in outline.windows(2) {
        assert_eq!(pair[1].x as i32 - pair[0].x as i32, 1);
        let dy = pair[1].y as i32 - pair[0].y as i32;
        assert!(dy == 0 || dy == 1);
    }
}
