use flower_geometry::area::{Area, Line, Range};
use flower_geometry::layers::{cull_back_area, optimize_layers, CullingResult, Petal};
use flower_geometry::point::Point;
use flower_geometry::raster::{centralize, image_center, radius_to_size};

fn row(spans: &[(i16, i16)]) -> Line {
    let mut ranges = Vec::new();
    for &(from, to) in spans {
        ranges.push(Range::new(from, to));
    }
    Line::new(ranges)
}

fn rows(area: &Area) -> Vec<(i16, Vec<(i16, i16)>)> {
    let mut rows = Vec::new();
    for (y, line) in area.iter() {
        let mut spans = Vec::new();
        for i in 0..line.len() {
            let range = line.get(i);
            spans.push((range.from(), range.to_inclusive()));
        }
        rows.push((y, spans));
    }
    rows
}

fn block(from: i16, to: i16, min_y: i16, height: usize) -> Area {
    let mut lines = Vec::new();
    for _ in 0..height {
        lines.push(row(&[(from, to)]));
    }
    Area::new(lines, min_y)
}

fn petal(tag: i16, area: Area) -> Petal {
    Petal::new(vec![Point::new(tag, tag)], area)
}

fn tags(layers: &[Vec<Petal>]) -> Vec<Vec<i16>> {
    layers
        .iter()
        .map(|layer| layer.iter().map(|petal| petal.skeleton[0].x).collect())
        .collect()
}

#[test]
fn nothing_in_front_leaves_the_whole_area() {
    let back = block(0, 3, 0, 2);
    assert!(matches!(cull_back_area(&back, &vec![]), CullingResult::WholeAreaVisible));
    let apart = vec![block(10, 12, 0, 2), block(0, 3, 5, 1)];
    assert!(matches!(cull_back_area(&back, &apart), CullingResult::WholeAreaVisible));
}

#[test]
fn fronts_are_taken_off_one_after_the_other() {
    let back = block(0, 9, 0, 2);
    let fronts = vec![block(0, 2, 0, 1), block(20, 22, 0, 1), block(8, 12, 0, 2), block(2, 4, 1, 3)];
    match cull_back_area(&back, &fronts) {
        CullingResult::Culled(area) => {
            assert_eq!(rows(&area), vec![(0, vec![(3, 7)]), (1, vec![(0, 1), (5, 7)])]);
        },
        _ => panic!("part of the area stays visible"),
    }
}

#[test]
fn fronts_that_touch_no_cell_still_count_as_culling() {
    let back = Area::new(vec![row(&[(0, 1), (8, 9)])], 0);
    let fronts = vec![block(4, 5, 0, 1)];
    match cull_back_area(&back, &fronts) {
        CullingResult::Culled(area) => assert_eq!(rows(&area), rows(&back)),
        _ => panic!("the extents overlap"),
    }
}

#[test]
fn fronts_that_cover_everything_leave_nothing() {
    let back = block(0, 9, 0, 2);
    let fronts = vec![block(0, 4, 0, 2), block(5, 9, 0, 2), block(0, 9, 0, 2)];
    assert!(matches!(cull_back_area(&back, &fronts), CullingResult::NoAreaVisible));
}

#[test]
fn later_layers_hide_earlier_ones() {
    let mut layers = vec![vec![petal(1, block(0, 3, 0, 2))], vec![petal(2, block(2, 5, 0, 2))]];
    optimize_layers(&mut layers);
    assert_eq!(tags(&layers), vec![vec![1], vec![2]]);
    assert_eq!(rows(&layers[0][0].area), vec![(0, vec![(0, 1)]), (1, vec![(0, 1)])]);
    assert_eq!(rows(&layers[1][0].area), vec![(0, vec![(2, 5)]), (1, vec![(2, 5)])]);
}

#[test]
fn later_shapes_of_a_layer_hide_earlier_ones() {
    let mut layers = vec![vec![
        petal(1, block(0, 3, 0, 1)),
        petal(2, block(2, 5, 0, 1)),
        petal(3, block(5, 6, 0, 1)),
    ]];
    optimize_layers(&mut layers);
    assert_eq!(tags(&layers), vec![vec![1, 2, 3]]);
    assert_eq!(rows(&layers[0][0].area), vec![(0, vec![(0, 1)])]);
    assert_eq!(rows(&layers[0][1].area), vec![(0, vec![(2, 4)])]);
    assert_eq!(rows(&layers[0][2].area), vec![(0, vec![(5, 6)])]);
}

#[test]
fn hidden_shapes_and_empty_layers_are_dropped() {
    let mut layers = vec![
        vec![petal(1, block(1, 2, 0, 1)), petal(2, block(20, 21, 0, 1))],
        vec![petal(3, block(4, 5, 0, 1))],
        vec![],
        vec![petal(4, block(0, 9, 0, 1)), petal(5, block(3, 6, 0, 1))],
    ];
    optimize_layers(&mut layers);
    assert_eq!(tags(&layers), vec![vec![2], vec![4, 5]]);
    assert_eq!(rows(&layers[0][0].area), vec![(0, vec![(20, 21)])]);
    assert_eq!(rows(&layers[1][0].area), vec![(0, vec![(0, 2), (7, 9)])]);
    assert_eq!(rows(&layers[1][1].area), vec![(0, vec![(3, 6)])]);
}

#[test]
fn a_shape_hidden_by_several_shapes_together_is_dropped() {
    let mut layers = vec![
        vec![petal(1, block(0, 9, 0, 1))],
        vec![petal(2, block(0, 4, 0, 1)), petal(3, block(3, 9, 0, 1))],
    ];
    optimize_layers(&mut layers);
    assert_eq!(tags(&layers), vec![vec![2, 3]]);
    assert_eq!(rows(&layers[0][0].area), vec![(0, vec![(0, 2)])]);
    assert_eq!(rows(&layers[0][1].area), vec![(0, vec![(3, 9)])]);
}

#[test]
fn the_frontmost_shape_always_stays() {
    let mut layers = vec![
        vec![petal(1, block(0, 9, 0, 3))],
        vec![petal(2, block(0, 9, 0, 3))],
        vec![petal(3, block(0, 9, 0, 3))],
    ];
    optimize_layers(&mut layers);
    assert_eq!(tags(&layers), vec![vec![3]]);
    assert_eq!(layers[0][0].area.coverage(), 30);
}

#[test]
fn no_layers_stay_no_layers() {
    let mut layers: Vec<Vec<Petal>> = vec![];
    optimize_layers(&mut layers);
    assert!(layers.is_empty());
    let mut layers: Vec<Vec<Petal>> = vec![vec![], vec![]];
    optimize_layers(&mut layers);
    assert!(layers.is_empty());
}

#[test]
fn skeletons_stay_with_their_shapes() {
    let outline = vec![Point::new(1, 2), Point::new(3, 4), Point::new(5, 6)];
    let mut layers = vec![
        vec![Petal::new(outline.clone(), block(0, 3, 0, 1))],
        vec![petal(9, block(3, 3, 0, 1))],
    ];
    optimize_layers(&mut layers);
    assert_eq!(layers[0][0].skeleton, outline);
    assert_eq!(rows(&layers[0][0].area), vec![(0, vec![(0, 2)])]);
}

#[test]
fn radius_to_size_doubles_up_to_the_limit() {
    assert_eq!(radius_to_size(0), 0);
    assert_eq!(radius_to_size(100), 200);
    assert_eq!(radius_to_size(32767), 65534);
    assert_eq!(radius_to_size(32768), 65535);
    assert_eq!(radius_to_size(u16::MAX), 65535);
}

#[test]
fn image_center_is_the_middle_pixel() {
    assert_eq!(image_center(5, 5), (2, 2));
    assert_eq!(image_center(4, 6), (1, 2));
    assert_eq!(image_center(1, 1), (0, 0));
}

#[test]
fn centralize_moves_the_origin_to_the_center() {
    assert_eq!(centralize(Point::new(0, 0), 5, 5), Some((2, 2)));
    assert_eq!(centralize(Point::new(1, 1), 5, 5), Some((3, 1)));
    assert_eq!(centralize(Point::new(-2, -2), 5, 5), Some((0, 4)));
    assert_eq!(centralize(Point::new(2, 2), 5, 5), Some((4, 0)));
    assert_eq!(centralize(Point::new(1, 0), 4, 6), Some((2, 3)));
}

#[test]
fn centralize_rejects_points_out_of_reach() {
    assert_eq!(centralize(Point::new(3, 0), 5, 5), None);
    assert_eq!(centralize(Point::new(-3, 0), 5, 5), None);
    assert_eq!(centralize(Point::new(0, 3), 5, 5), None);
    assert_eq!(centralize(Point::new(0, -3), 5, 5), None);
    assert_eq!(centralize(Point::new(2, 0), 4, 6), None);
    assert_eq!(centralize(Point::new(i16::MIN, i16::MIN), 1, 1), None);
}
