use flower_geometry::area::{Area, Line, Range};
use flower_geometry::occlusion::{cull, cull_line};

fn row(spans: &[(i16, i16)]) -> Line {
    let mut ranges = Vec::new();
    for &(from, to) in spans {
        ranges.push(Range::new(from, to));
    }
    Line::new(ranges)
}

fn spans(line: &Line) -> Vec<(i16, i16)> {
    let mut spans = Vec::new();
    for i in 0..line.len() {
        let range = line.get(i);
        spans.push((range.from(), range.to_inclusive()));
    }
    spans
}

fn rows(area: &Area) -> Vec<(i16, Vec<(i16, i16)>)> {
    let mut rows = Vec::new();
    for (y, line) in area.iter() {
        rows.push((y, spans(line)));
    }
    rows
}

fn square(min_x: i16, min_y: i16, side: i16) -> Area {
    let mut lines = Vec::new();
    for _ in 0..side {
        lines.push(row(&[(min_x, min_x + side - 1)]));
    }
    Area::new(lines, min_y)
}

#[test]
fn cull_line_front_before_and_after() {
    assert_eq!(spans(&cull_line(&row(&[(5, 9)]), &row(&[(0, 3)]))), vec![(5, 9)]);
    assert_eq!(spans(&cull_line(&row(&[(5, 9)]), &row(&[(11, 13)]))), vec![(5, 9)]);
    assert_eq!(spans(&cull_line(&row(&[(5, 9)]), &row(&[]))), vec![(5, 9)]);
    assert_eq!(spans(&cull_line(&row(&[]), &row(&[(0, 3)]))), vec![]);
}

#[test]
fn cull_line_cuts_left_right_and_middle() {
    assert_eq!(spans(&cull_line(&row(&[(5, 9)]), &row(&[(3, 6)]))), vec![(7, 9)]);
    assert_eq!(spans(&cull_line(&row(&[(5, 9)]), &row(&[(8, 12)]))), vec![(5, 7)]);
    assert_eq!(spans(&cull_line(&row(&[(5, 9)]), &row(&[(6, 7)]))), vec![(5, 5), (8, 9)]);
    assert_eq!(spans(&cull_line(&row(&[(5, 9)]), &row(&[(5, 9)]))), vec![]);
    assert_eq!(spans(&cull_line(&row(&[(5, 9)]), &row(&[(0, 20)]))), vec![]);
    assert_eq!(spans(&cull_line(&row(&[(5, 9)]), &row(&[(9, 9)]))), vec![(5, 8)]);
    assert_eq!(spans(&cull_line(&row(&[(5, 9)]), &row(&[(5, 5)]))), vec![(6, 9)]);
}

#[test]
fn cull_line_several_fronts_inside_one_range() {
    assert_eq!(
        spans(&cull_line(&row(&[(0, 10)]), &row(&[(2, 3), (5, 6)]))),
        vec![(0, 1), (4, 4), (7, 10)]
    );
    assert_eq!(
        spans(&cull_line(&row(&[(0, 10)]), &row(&[(-4, 1), (3, 3), (5, 6), (9, 14)]))),
        vec![(2, 2), (4, 4), (7, 8)]
    );
}

#[test]
fn cull_line_one_front_over_several_ranges() {
    assert_eq!(
        spans(&cull_line(&row(&[(0, 2), (4, 6), (8, 10), (12, 14)]), &row(&[(1, 9)]))),
        vec![(0, 0), (10, 10), (12, 14)]
    );
    assert_eq!(
        spans(&cull_line(&row(&[(0, 2), (4, 6), (8, 10)]), &row(&[(2, 4), (6, 8)]))),
        vec![(0, 1), (5, 5), (9, 10)]
    );
}

#[test]
fn cull_line_at_the_edges_of_the_grid() {
    assert_eq!(
        spans(&cull_line(&row(&[(i16::MIN, i16::MAX)]), &row(&[(0, 0)]))),
        vec![(i16::MIN, -1), (1, i16::MAX)]
    );
    assert_eq!(
        spans(&cull_line(&row(&[(i16::MIN, i16::MAX)]), &row(&[(i16::MIN, 0), (2, i16::MAX)]))),
        vec![(1, 1)]
    );
    assert_eq!(
        spans(&cull_line(&row(&[(i16::MAX, i16::MAX)]), &row(&[(i16::MIN, i16::MIN)]))),
        vec![(i16::MAX, i16::MAX)]
    );
}

#[test]
fn squares_offset_by_one_row() {
    let lower = square(0, 0, 2);
    let upper = square(0, 1, 2);
    assert!(lower.intersects(&upper));
    let rest = cull(&lower, &upper).unwrap();
    assert_eq!(rows(&rest), vec![(0, vec![(0, 1)])]);
    assert_eq!(rest.coverage(), 2);
    let rest = cull(&upper, &lower).unwrap();
    assert_eq!(rows(&rest), vec![(2, vec![(0, 1)])]);
}

#[test]
fn cull_keeps_rows_the_front_lacks() {
    let back = Area::new(vec![row(&[(0, 5)]), row(&[(0, 5)]), row(&[(0, 5)])], 0);
    let front = Area::new(vec![row(&[(2, 3)])], 1);
    let rest = cull(&back, &front).unwrap();
    assert_eq!(
        rows(&rest),
        vec![(0, vec![(0, 5)]), (1, vec![(0, 1), (4, 5)]), (2, vec![(0, 5)])]
    );
}

#[test]
fn cull_ignores_rows_only_the_front_has() {
    let back = Area::new(vec![row(&[(0, 5)])], 0);
    let front = Area::new(vec![row(&[(0, 9)]), row(&[(0, 2)]), row(&[(0, 9)])], -1);
    let rest = cull(&back, &front).unwrap();
    assert_eq!(rows(&rest), vec![(0, vec![(3, 5)])]);
}

#[test]
fn cull_trims_what_remains() {
    let back = Area::new(vec![row(&[(0, 5)]), row(&[(0, 5)]), row(&[(0, 5)])], 0);
    let front = Area::new(vec![row(&[(0, 5)]), row(&[(0, 3)])], 0);
    let rest = cull(&back, &front).unwrap();
    assert_eq!(rest.min_y(), 1);
    assert_eq!(rest.max_y(), 2);
    assert_eq!(rows(&rest), vec![(1, vec![(4, 5)]), (2, vec![(0, 5)])]);
}

#[test]
fn cull_behind_an_empty_area_changes_nothing() {
    let back = Area::new(vec![row(&[(0, 5)]), row(&[]), row(&[(1, 1), (4, 7)])], -2);
    let front = Area::new(vec![row(&[]), row(&[]), row(&[]), row(&[])], -3);
    let rest = cull(&back, &front).unwrap();
    assert_eq!(rows(&rest), rows(&back));
}

#[test]
fn cull_of_a_fully_hidden_area_is_none() {
    let back = Area::new(vec![row(&[(2, 3)]), row(&[(1, 4), (6, 7)])], 0);
    let front = Area::new(vec![row(&[(0, 9)]), row(&[(0, 9)]), row(&[(0, 9)])], -1);
    assert!(cull(&back, &front).is_none());
    assert!(cull(&back, &back).is_none());
}

#[test]
fn cull_never_adds_cells() {
    let back = Area::new(vec![row(&[(0, 5)]), row(&[(2, 3), (8, 9)]), row(&[(0, 9)])], 0);
    let apart = Area::new(vec![row(&[(20, 25)])], 1);
    let between = Area::new(vec![row(&[(5, 6)])], 1);
    let across = Area::new(vec![row(&[(3, 8)]), row(&[(3, 8)])], 1);
    assert!(!back.intersects(&apart));
    assert_eq!(cull(&back, &apart).unwrap().coverage(), back.coverage());
    // the extents overlap, yet no cell is shared
    assert!(back.intersects(&between));
    assert_eq!(cull(&back, &between).unwrap().coverage(), back.coverage());
    assert!(back.intersects(&across));
    let rest = cull(&back, &across).unwrap();
    assert_eq!(rest.coverage(), 20 - 2 - 6);
    assert_eq!(
        rows(&rest),
        vec![(0, vec![(0, 5)]), (1, vec![(2, 2), (9, 9)]), (2, vec![(0, 2), (9, 9)])]
    );
}
