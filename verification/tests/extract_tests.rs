use flower_geometry::area::{Area, Line};
use flower_geometry::curve::{drop_repeats, interpolate, merge, MergeMode};
use flower_geometry::extract::find_inner_area;
use flower_geometry::point::Point;

fn p(x: i16, y: i16) -> Point {
    Point::new(x, y)
}

fn spans(line: &Line) -> Vec<(i16, i16)> {
    let mut spans = Vec::new();
    for i in 0..line.len() {
        let range = line.get(i);
        spans.push((range.from(), range.to_inclusive()));
    }
    spans
}

fn rows(area: &Area) -> Vec<(i16, Vec<(i16, i16)>)> {
    let mut rows = Vec::new();
    for (y, line) in area.iter() {
        rows.push((y, spans(line)));
    }
    rows
}

/// One half of a lobe of `r = sin(k * theta)`, from the origin to the tip,
/// turned so that the tip lies on the upward axis.
fn half_lobe(k: f32, step: f32, mirror: bool) -> Vec<(f32, f32)> {
    let bound = (1.0f32).asin() / k;
    let length = (bound / step) as usize;
    let mut curve = Vec::new();
    for i in 0..length {
        let theta = i as f32 * step;
        let radius = (theta * k).sin();
        curve.push((radius * theta.cos(), radius * theta.sin()));
    }
    let last = curve[curve.len() - 1];
    let turn = std::f32::consts::FRAC_PI_2 - last.1.atan2(last.0);
    let (sin, cos) = turn.sin_cos();
    for point in curve.iter_mut() {
        *point = (cos * point.0 - sin * point.1, sin * point.0 + cos * point.1);
        if mirror {
            point.0 = -point.0;
        }
    }
    curve
}

fn scaled(curve: &[(f32, f32)], size: u16) -> Vec<Point> {
    let rounded: Vec<Point> = curve
        .iter()
        .map(|&(x, y)| p((x * size as f32).round() as i16, (y * size as f32).round() as i16))
        .collect();
    drop_repeats(&rounded)
}

#[test]
fn too_short_outlines_enclose_nothing() {
    assert!(find_inner_area(&[]).is_none());
    assert!(find_inner_area(&[p(3, 3)]).is_none());
}

#[test]
fn flat_outline_encloses_nothing() {
    let outline = interpolate(&[p(0, 0), p(6, 0), p(0, 0)]);
    assert!(find_inner_area(&outline).is_none());
    let outline = interpolate(&[p(0, 0), p(0, 6), p(0, 0)]);
    assert!(find_inner_area(&outline).is_none());
}

#[test]
fn thin_outline_encloses_nothing() {
    // two columns wide: the outline leaves no cell between its sides
    let outline = interpolate(&[p(0, 0), p(1, 0), p(1, 5), p(0, 5), p(0, 0)]);
    assert!(find_inner_area(&outline).is_none());
}

#[test]
fn square_outline() {
    let outline = interpolate(&[p(0, 0), p(4, 0), p(4, 4), p(0, 4), p(0, 0)]);
    assert_eq!(outline.len(), 17);
    let area = find_inner_area(&outline).unwrap();
    assert_eq!(area.min_y(), 1);
    assert_eq!(area.max_y(), 3);
    assert_eq!(
        rows(&area),
        vec![(1, vec![(1, 3)]), (2, vec![(1, 3)]), (3, vec![(1, 3)])]
    );
    assert_eq!(area.coverage(), 9);
}

#[test]
fn diamond_outline() {
    let outline = interpolate(&[p(0, 0), p(3, 3), p(0, 6), p(-3, 3), p(0, 0)]);
    assert_eq!(outline.len(), 13);
    let area = find_inner_area(&outline).unwrap();
    assert_eq!(
        rows(&area),
        vec![
            (1, vec![(0, 0)]),
            (2, vec![(-1, 1)]),
            (3, vec![(-2, 2)]),
            (4, vec![(-1, 1)]),
            (5, vec![(0, 0)]),
        ]
    );
    assert_eq!(area.coverage(), 13);
    assert_eq!(area.min_x(), Some(-2));
    assert_eq!(area.max_x(), Some(2));
}

#[test]
fn outline_with_a_step_is_filled_up_to_its_boundary() {
    let outline = interpolate(&[p(0, 0), p(6, 0), p(6, 2), p(4, 2), p(4, 4), p(0, 4), p(0, 0)]);
    let area = find_inner_area(&outline).unwrap();
    assert_eq!(
        rows(&area),
        vec![(1, vec![(1, 5)]), (2, vec![(1, 3)]), (3, vec![(1, 3)])]
    );
    assert_eq!(area.coverage(), 11);
}

#[test]
fn extracted_rows_are_separate_and_trimmed() {
    let outline = interpolate(&[
        p(0, 0),
        p(12, 0),
        p(12, 9),
        p(8, 9),
        p(8, 3),
        p(4, 3),
        p(4, 9),
        p(0, 9),
        p(0, 0),
    ]);
    let area = find_inner_area(&outline).unwrap();
    let all = rows(&area);
    assert!(!all.first().unwrap().1.is_empty());
    assert!(!all.last().unwrap().1.is_empty());
    assert_eq!(all.len() as i32, area.max_y() as i32 - area.min_y() as i32 + 1);
    for (_, row) in &all {
        for span in row {
            assert!(span.0 <= span.1);
        }
        for pair in row.windows(2) {
            assert!(pair[0].1 < pair[1].0 - 1);
        }
    }
}

#[test]
fn sine_lobe_covers_its_area() {
    let side = half_lobe(2.0, 0.01, false);
    let expected_points = (((1.0f32).asin() / 2.0) / 0.01).floor() as usize;
    assert_eq!(expected_points, 78);
    assert_eq!(side.len(), expected_points);
    let mirrored = half_lobe(2.0, 0.01, true);
    let left = scaled(&side, 100);
    let right = scaled(&mirrored, 100);
    let outline = interpolate(&merge(&[&left, &right], MergeMode::ZigZag));
    for pair in outline.windows(2) {
        assert!((pair[1].x - pair[0].x).abs() <= 1 && (pair[1].y - pair[0].y).abs() <= 1);
    }
    let area = find_inner_area(&outline).unwrap();
    // between the curve and its mirror image lies twice the sector that the
    // curve cuts off: 2 * (1/2) * integral of sin^2(2 theta) over [0, pi/4]
    let expected = std::f64::consts::PI / 8.0 * 100.0 * 100.0;
    let covered = area.coverage() as f64;
    assert!((covered - expected).abs() <= expected * 0.08);
    // the outline itself is not part of the area: the tip lies on row 100
    assert_eq!(area.min_y(), 1);
    assert_eq!(area.max_y(), 99);
    assert!(covered < expected);
}

#[test]
fn leftover_anchor_pairs_with_the_one_before() {
    let outline = [
        p(0, 0),
        p(0, 1),
        p(0, 2),
        p(0, 3),
        p(0, 4),
        p(1, 3),
        p(2, 2),
        p(3, 3),
        p(4, 4),
    ];
    let area = find_inner_area(&outline).unwrap();
    assert_eq!(
        rows(&area),
        vec![(2, vec![(1, 1)]), (3, vec![(2, 2)]), (4, vec![(1, 3)])]
    );
    assert_eq!(area.coverage(), 5);
}

#[test]
fn odd_origin_row_is_closed_at_the_origin() {
    let outline = interpolate(&[p(0, 0), p(0, 2), p(5, 2), p(5, 0)]);
    let area = find_inner_area(&outline).unwrap();
    assert_eq!(rows(&area), vec![(0, vec![(1, 4)]), (1, vec![(1, 4)])]);
    assert_eq!(area.coverage(), 8);
}

#[test]
fn only_the_origin_row_is_closed() {
    let outline = interpolate(&[p(0, 10), p(0, 12), p(5, 12), p(5, 10)]);
    let area = find_inner_area(&outline).unwrap();
    assert_eq!(rows(&area), vec![(11, vec![(1, 4)])]);
    assert_eq!(area.coverage(), 4);
}

#[test]
fn outline_below_the_origin() {
    let outline = interpolate(&[p(-2, -9), p(2, -9), p(2, -5), p(-2, -5), p(-2, -9)]);
    let area = find_inner_area(&outline).unwrap();
    assert_eq!(
        rows(&area),
        vec![(-8, vec![(-1, 1)]), (-7, vec![(-1, 1)]), (-6, vec![(-1, 1)])]
    );
}
