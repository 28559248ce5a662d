use flower_geometry::area::{Area, Line, Range};

fn line_of(spans: &[(i16, i16)]) -> Line {
    let mut ranges = Vec::new();
    for &(from, to) in spans {
        ranges.push(Range::new(from, to));
    }
    Line::new(ranges)
}

fn spans_of_line(line: &Line) -> Vec<(i16, i16)> {
    let mut spans = Vec::new();
    for i in 0..line.len() {
        let range = line.get(i);
        spans.push((range.from(), range.to_inclusive()));
    }
    spans
}

fn rows_of_area(area: &Area) -> Vec<(i16, Vec<(i16, i16)>)> {
    let mut rows = Vec::new();
    for (y, line) in area.iter() {
        rows.push((y, spans_of_line(line)));
    }
    rows
}

#[test]
fn range_keeps_its_ends() {
    let range = Range::new(2, 5);
    assert_eq!(range.from(), 2);
    assert_eq!(range.to_inclusive(), 5);
    let single = Range::new(-7, -7);
    assert_eq!(single.from(), -7);
    assert_eq!(single.to_inclusive(), -7);
}

#[test]
fn line_reports_its_ranges() {
    let line = line_of(&[(0, 1), (4, 6)]);
    assert_eq!(line.len(), 2);
    assert!(!line.is_empty());
    assert_eq!(spans_of_line(&line), vec![(0, 1), (4, 6)]);
    assert_eq!(line.min_x(), Some(0));
    assert_eq!(line.max_x(), Some(6));
}

#[test]
fn line_coverage_counts_columns() {
    assert_eq!(line_of(&[(0, 1), (4, 6)]).coverage(), Some(5));
    assert_eq!(line_of(&[(-3, -3)]).coverage(), Some(1));
    assert_eq!(line_of(&[]).coverage(), Some(0));
    assert_eq!(line_of(&[(i16::MIN, i16::MAX)]).coverage(), Some(65536));
}

#[test]
fn line_iter_x_lists_columns_in_order() {
    assert_eq!(line_of(&[(0, 1), (4, 6)]).iter_x(), vec![0, 1, 4, 5, 6]);
    assert_eq!(line_of(&[(-2, 0)]).iter_x(), vec![-2, -1, 0]);
    assert_eq!(line_of(&[]).iter_x(), Vec::<i16>::new());
    assert_eq!(line_of(&[(32766, 32767)]).iter_x(), vec![32766, 32767]);
}

#[test]
fn empty_line_has_no_extent() {
    let line = line_of(&[]);
    assert!(line.is_empty());
    assert_eq!(line.len(), 0);
    assert_eq!(line.min_x(), None);
    assert_eq!(line.max_x(), None);
}

#[test]
fn line_intersects_compares_extents() {
    let line = line_of(&[(0, 1), (4, 6)]);
    // the extents overlap although no column is shared
    assert!(line.intersects(&line_of(&[(2, 3)])));
    assert!(line.intersects(&line_of(&[(6, 9)])));
    assert!(line.intersects(&line_of(&[(-5, 0)])));
    assert!(!line.intersects(&line_of(&[(7, 9)])));
    assert!(!line.intersects(&line_of(&[(-5, -1)])));
    assert!(!line.intersects(&line_of(&[])));
    assert!(!line_of(&[]).intersects(&line));
}

#[test]
fn line_clone_is_equal() {
    let line = line_of(&[(0, 1), (4, 6), (9, 9)]);
    assert_eq!(spans_of_line(&line.clone()), spans_of_line(&line));
}

#[test]
fn area_spans_its_rows() {
    let area = Area::new(vec![line_of(&[(0, 1)]), line_of(&[]), line_of(&[(4, 6)])], -1);
    assert_eq!(area.min_y(), -1);
    assert_eq!(area.max_y(), 1);
    assert_eq!(
        rows_of_area(&area),
        vec![(-1, vec![(0, 1)]), (0, vec![]), (1, vec![(4, 6)])]
    );
}

#[test]
fn area_line_looks_rows_up() {
    let area = Area::new(vec![line_of(&[(0, 1)]), line_of(&[]), line_of(&[(4, 6)])], -1);
    assert!(area.line(-2).is_none());
    assert!(area.line(2).is_none());
    assert_eq!(spans_of_line(area.line(-1).unwrap()), vec![(0, 1)]);
    assert_eq!(spans_of_line(area.line(0).unwrap()), vec![]);
    assert_eq!(spans_of_line(area.line(1).unwrap()), vec![(4, 6)]);
}

#[test]
fn area_coverage_sums_rows() {
    let area = Area::new(vec![line_of(&[(0, 1)]), line_of(&[]), line_of(&[(4, 6), (8, 8)])], -1);
    assert_eq!(area.coverage(), 6);
    let none = Area::new(vec![line_of(&[]), line_of(&[])], 0);
    assert_eq!(none.coverage(), 0);
}

#[test]
fn area_extent_in_x() {
    let area = Area::new(vec![line_of(&[(0, 1)]), line_of(&[]), line_of(&[(-4, 6), (8, 8)])], -1);
    assert_eq!(area.min_x(), Some(-4));
    assert_eq!(area.max_x(), Some(8));
    let none = Area::new(vec![line_of(&[]), line_of(&[])], 0);
    assert_eq!(none.min_x(), None);
    assert_eq!(none.max_x(), None);
}

#[test]
fn area_intersects_needs_a_shared_row() {
    let a = Area::new(vec![line_of(&[(0, 3)]), line_of(&[(0, 3)])], 0);
    let same_columns_above = Area::new(vec![line_of(&[(0, 3)])], 2);
    let touching_row = Area::new(vec![line_of(&[(3, 5)])], 1);
    let beside = Area::new(vec![line_of(&[(4, 5)]), line_of(&[(4, 5)])], 0);
    assert!(!a.intersects(&same_columns_above));
    assert!(!same_columns_above.intersects(&a));
    assert!(a.intersects(&touching_row));
    assert!(touching_row.intersects(&a));
    assert!(!a.intersects(&beside));
}

#[test]
fn area_at_the_edge_of_the_grid() {
    let area = Area::new(vec![line_of(&[(1, 2)]), line_of(&[(1, 2)])], i16::MAX - 1);
    assert_eq!(area.min_y(), i16::MAX - 1);
    assert_eq!(area.max_y(), i16::MAX);
    let low = Area::new(vec![line_of(&[(1, 2)])], i16::MIN);
    assert_eq!(low.max_y(), i16::MIN);
}

#[test]
fn optimize_drops_empty_rows_at_both_ends() {
    let area = Area::new(
        vec![
            line_of(&[]),
            line_of(&[(1, 2)]),
            line_of(&[]),
            line_of(&[(5, 5)]),
            line_of(&[]),
            line_of(&[]),
        ],
        10,
    );
    let trimmed = area.optimize().unwrap();
    assert_eq!(trimmed.min_y(), 11);
    assert_eq!(trimmed.max_y(), 13);
    assert_eq!(
        rows_of_area(&trimmed),
        vec![(11, vec![(1, 2)]), (12, vec![]), (13, vec![(5, 5)])]
    );
    assert_eq!(trimmed.coverage(), area.coverage());
}

#[test]
fn optimize_keeps_a_trimmed_area() {
    let area = Area::new(vec![line_of(&[(1, 2)]), line_of(&[]), line_of(&[(5, 5)])], -3);
    let trimmed = area.optimize().unwrap();
    assert_eq!(rows_of_area(&trimmed), rows_of_area(&area));
}

#[test]
fn optimize_of_nothing_is_none() {
    let area = Area::new(vec![line_of(&[]), line_of(&[]), line_of(&[])], 4);
    assert!(area.optimize().is_none());
}

#[test]
fn area_clone_is_equal() {
    let area = Area::new(vec![line_of(&[(1, 2)]), line_of(&[]), line_of(&[(5, 5)])], -3);
    assert_eq!(rows_of_area(&area.clone()), rows_of_area(&area));
}
