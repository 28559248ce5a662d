//! Occlusion between regions: what of a region stays visible behind another.

use crate::area::{rows_of, spans_of, Area, Line, Range};
use crate::model::{
    area_cells, area_coverage, area_extent_within, area_extents_overlap, area_has, area_ok,
    area_trim, area_trimmed, is_cull, lemma_area_canonical, lemma_area_cells_finite,
    lemma_area_extents_apart, lemma_area_trim, lemma_extents_apart, lemma_leading_empty_is,
    lemma_row_extent, lemma_row_gap, lemma_row_push, lemma_trailing_empty_is, rest_coverage,
    row_cells, row_has, row_ok, span_has, span_ok, AreaView,
};
use vstd::set_lib::lemma_len_subset;
use vstd::prelude::*;

verus! {

/// The columns of `back` that `front` does not cover, as a row.
///
/// One sweep over both rows: `cur` is the first column of the current range
/// of `back` that is not yet decided.
pub fn cull_line(back: &Line, front: &Line) -> (rest: Line)
    requires
        back.wf(),
        front.wf(),
    ensures
        rest.wf(),
        row_cells(rest@) == row_cells(back@).difference(row_cells(front@)),
{
    let nb = back.len();
    let nf = front.len();
    let mut ranges: Vec<Range> = Vec::new();
    let mut i: usize = 0;
    let mut j: usize = 0;
    let mut cur: i32 = 0;
    if nb > 0 {
        cur = back.get(0).from() as i32;
        assert(span_ok(back@[0]));
    }
    assert(spans_of(ranges@) =~= Seq::empty());
    proof {
        if nb > 0 {
            assert forall|x: int| x < cur implies !row_has(back@, x) by {
                lemma_row_gap(back@, 0, x);
            }
        }
    }
    while i < nb
        invariant
            nb == back@.len(),
            nf == front@.len(),
            row_ok(back@),
            row_ok(front@),
            i <= nb,
            j <= nf,
            i < nb ==> back@[i as int].0 <= cur <= back@[i as int].1,
            row_ok(spans_of(ranges@)),
            i < nb && ranges@.len() > 0 ==> spans_of(ranges@).last().1 + 1 < cur,
            i < nb && j > 0 ==> front@[j - 1].1 < cur,
            i < nb ==> forall|x: int|
                row_has(spans_of(ranges@), x) <==> (x < cur && row_has(back@, x) && !row_has(
                    front@,
                    x,
                )),
            i == nb ==> forall|x: int|
                row_has(spans_of(ranges@), x) <==> (row_has(back@, x) && !row_has(front@, x)),
        decreases (nb - i) + (nf - j),
    {
        let b = back.get(i);
        let back_to: i32 = b.to_inclusive() as i32;
        let ghost out = spans_of(ranges@);
        let ghost old_cur = cur as int;
        assert(span_ok(back@[i as int]));
        if i + 1 < nb {
            assert(span_ok(back@[i + 1]));
            assert(back@[i as int].1 + 1 < back@[i + 1].0);
        }
        if j < nf {
            assert(span_ok(front@[j as int]));
        }
        if j == nf || back_to < front.get(j).from() as i32 {
            // nothing of `front` reaches the rest of this range
            let piece = Range::new(cur as i16, b.to_inclusive());
            ranges.push(piece);
            i += 1;
            if i < nb {
                cur = back.get(i).from() as i32;
            }
            proof {
                let s = (old_cur, back_to as int);
                assert(spans_of(ranges@) =~= out.push(s));
                lemma_row_push(out, s);
                assert forall|x: int|
                    row_has(out.push(s), x) <==> ((i < nb ==> x < cur) && row_has(back@, x)
                        && !row_has(front@, x)) by {
                    if x < old_cur {
                    } else if x <= back_to {
                        assert(span_has(back@[i - 1], x));
                        lemma_row_gap(front@, j as int, x);
                    } else {
                        if i < nb ==> x < cur {
                            lemma_row_gap(back@, i as int, x);
                        }
                    }
                }
            }
        } else {
            let f = front.get(j);
            let front_from: i32 = f.from() as i32;
            let front_to: i32 = f.to_inclusive() as i32;
            if front_to < cur {
                // this range of `front` lies before what is left
                j += 1;
            } else {
                let ghost mut mid = out;
                if cur < front_from {
                    let piece = Range::new(cur as i16, (front_from - 1) as i16);
                    ranges.push(piece);
                    proof {
                        let s = (old_cur, front_from - 1);
                        mid = out.push(s);
                        assert(spans_of(ranges@) =~= mid);
                        lemma_row_push(out, s);
                    }
                }
                assert(spans_of(ranges@) == mid);
                assert(forall|x: int|
                    row_has(mid, x) <==> (row_has(out, x) || old_cur <= x < front_from)) by {
                    if old_cur < front_from {
                        assert forall|x: int|
                            row_has(mid, x) <==> (row_has(out, x) || old_cur <= x
                                < front_from) by {
                            assert(span_has((old_cur, front_from - 1), x) <==> old_cur <= x
                                < front_from);
                        }
                    }
                }
                if front_to < back_to {
                    // the range of `back` goes on behind this range of `front`
                    cur = front_to + 1;
                    j += 1;
                    proof {
                        assert forall|x: int|
                            row_has(mid, x) <==> (x < cur && row_has(back@, x) && !row_has(
                                front@,
                                x,
                            )) by {
                            if x < old_cur {
                            } else if x < front_from {
                                assert(span_has(back@[i as int], x));
                                lemma_row_gap(front@, j - 1, x);
                            } else if x <= front_to {
                                assert(span_has(front@[j - 1], x));
                            } else {
                            }
                        }
                    }
                } else {
                    // this range of `front` hides the rest of the range of `back`
                    i += 1;
                    if i < nb {
                        cur = back.get(i).from() as i32;
                    }
                    proof {
                        assert forall|x: int|
                            row_has(mid, x) <==> ((i < nb ==> x < cur) && row_has(back@, x)
                                && !row_has(front@, x)) by {
                            if x < old_cur {
                            } else if x < front_from {
                                assert(span_has(back@[i - 1], x));
                                lemma_row_gap(front@, j as int, x);
                            } else if x <= back_to {
                                assert(span_has(front@[j as int], x));
                            } else {
                                if i < nb ==> x < cur {
                                    lemma_row_gap(back@, i as int, x);
                                }
                            }
                        }
                    }
                }
            }
        }
    }
    let rest = Line::new(ranges);
    assert(row_cells(rest@) =~= row_cells(back@).difference(row_cells(front@)));
    rest
}

/// What remains visible of `back_area` behind `front_area`.
///
/// Rows of `back_area` that `front_area` lacks stay as they are; on a shared
/// row the columns of `front_area` are taken out. The result is trimmed, and
/// there is none when nothing remains.
#[must_use]
pub fn cull(back_area: &Area, front_area: &Area) -> (rest: Option<Area>)
    requires
        back_area.wf(),
        front_area.wf(),
    ensures
        match rest {
            Some(a) => is_cull(back_area@, front_area@, Some(a@)) && a.wf() && a.is_trimmed(),
            None => is_cull(back_area@, front_area@, None),
        },
{
    let min_y = back_area.min_y();
    let max_y = back_area.max_y();
    let mut visible_lines: Vec<Line> = Vec::new();
    let mut y: i32 = min_y as i32;
    assert(rows_of(visible_lines@) =~= Seq::empty());
    while y <= max_y as i32
        invariant
            back_area.wf(),
            front_area.wf(),
            min_y == back_area@.min_y,
            max_y == min_y + back_area@.rows.len() - 1,
            min_y <= y <= max_y + 1,
            rows_of(visible_lines@).len() == y - min_y,
            forall|k: int|
                0 <= k < y - min_y ==> row_ok(#[trigger] rows_of(visible_lines@)[k]),
            forall|k: int, x: int|
                0 <= k < y - min_y ==> (#[trigger] row_has(rows_of(visible_lines@)[k], x) <==> (
                area_has(back_area@, x, min_y + k) && !area_has(front_area@, x, min_y + k))),
        decreases max_y + 1 - y,
    {
        let ghost rows = rows_of(visible_lines@);
        let back_line = back_area.line(y as i16).unwrap();
        assert(row_ok(back_area@.rows[y - min_y]));
        let line = match front_area.line(y as i16) {
            Some(front_line) => {
                assert(row_ok(front_area@.rows[y - front_area@.min_y]));
                if back_line.intersects(front_line) {
                    let rest = cull_line(back_line, front_line);
                    assert forall|x: int|
                        row_has(rest@, x) <==> (row_has(back_line@, x) && !row_has(
                            front_line@,
                            x,
                        )) by {
                        assert(row_cells(rest@).contains(x) <==> row_has(rest@, x));
                        assert(row_cells(back_line@).contains(x) <==> row_has(back_line@, x));
                        assert(row_cells(front_line@).contains(x) <==> row_has(front_line@, x));
                    }
                    rest
                } else {
                    proof {
                        lemma_extents_apart(back_line@, front_line@);
                    }
                    back_line.clone()
                }
            },
            None => back_line.clone(),
        };
        visible_lines.push(line);
        proof {
            assert(rows_of(visible_lines@) =~= rows.push(line@));
            assert forall|k: int, x: int| 0 <= k < y + 1 - min_y implies (#[trigger] row_has(
                rows_of(visible_lines@)[k],
                x,
            ) <==> (area_has(back_area@, x, min_y + k) && !area_has(
                front_area@,
                x,
                min_y + k,
            ))) by {
                if k < y - min_y {
                    assert(rows_of(visible_lines@)[k] == rows[k]);
                    assert(row_has(rows[k], x) <==> (area_has(back_area@, x, min_y + k)
                        && !area_has(front_area@, x, min_y + k)));
                }
            }
            assert forall|k: int| 0 <= k < y + 1 - min_y implies row_ok(
                #[trigger] rows_of(visible_lines@)[k],
            ) by {
                if k < y - min_y {
                    assert(rows_of(visible_lines@)[k] == rows[k]);
                }
            }
        }
        y += 1;
    }
    let ghost whole = AreaView { min_y: min_y as int, rows: rows_of(visible_lines@) };
    proof {
        assert(area_cells(whole) =~= area_cells(back_area@).difference(area_cells(front_area@)))
            by {
            assert forall|c: (int, int)|
                area_has(whole, c.0, c.1) <==> (area_has(back_area@, c.0, c.1) && !area_has(
                    front_area@,
                    c.0,
                    c.1,
                )) by {
                if min_y <= c.1 <= max_y {
                    assert(row_has(whole.rows[c.1 - min_y], c.0) <==> (area_has(
                        back_area@,
                        c.0,
                        min_y + (c.1 - min_y),
                    ) && !area_has(front_area@, c.0, min_y + (c.1 - min_y))));
                }
            }
        }
        lemma_area_trim(whole);
    }
    let rest = Area::new(visible_lines, min_y).optimize();
    proof {
        if rest is None {
            assert forall|c: (int, int)| area_cells(back_area@).contains(c) implies area_cells(
                front_area@,
            ).contains(c) by {
                assert(!area_cells(whole).contains(c));
            }
        }
    }
    rest
}

/// What remains is determined: two answers that both meet the contract of
/// [`cull`] are the same.
pub proof fn lemma_cull_unique(
    back: AreaView,
    front: AreaView,
    first: Option<AreaView>,
    second: Option<AreaView>,
)
    requires
        area_ok(back),
        is_cull(back, front, first),
        is_cull(back, front, second),
    ensures
        first == second,
{
    lemma_area_cells_finite(back);
    let rest = area_cells(back).difference(area_cells(front));
    match (first, second) {
        (Some(a), Some(b)) => {
            lemma_area_canonical(a, b);
        },
        (Some(a), None) => {
            lemma_area_trim_of_trimmed(a);
            assert(rest =~= Set::empty());
        },
        (None, Some(b)) => {
            lemma_area_trim_of_trimmed(b);
            assert(rest =~= Set::empty());
        },
        (None, None) => {},
    }
}

/// A valid, trimmed region covers at least one cell.
pub proof fn lemma_area_trim_of_trimmed(a: AreaView)
    requires
        area_ok(a),
        area_trimmed(a),
    ensures
        area_cells(a).len() > 0,
        area_cells(a) != Set::<(int, int)>::empty(),
        area_trim(a) == Some(a),
{
    lemma_leading_empty_is(a.rows, 0);
    lemma_trailing_empty_is(a.rows, 0);
    assert(a.rows.subrange(0, a.rows.len() as int) =~= a.rows);
    lemma_area_trim(a);
}

/// Culling never adds cells: what remains covers no more cells than the
/// region did, exactly as many when the two regions share no cell, and fewer
/// when they share one. Regions that do not intersect share no cell.
pub proof fn lemma_cull_coverage(back: AreaView, front: AreaView, rest: Option<AreaView>)
    requires
        area_ok(back),
        area_ok(front),
        is_cull(back, front, rest),
    ensures
        rest_coverage(rest) <= area_coverage(back),
        rest_coverage(rest) == area_coverage(back) <==> area_cells(back).disjoint(
            area_cells(front),
        ),
        !area_extents_overlap(back, front) ==> rest_coverage(rest) == area_coverage(back),
{
    let b = area_cells(back);
    let f = area_cells(front);
    let d = b.difference(f);
    lemma_area_cells_finite(back);
    lemma_len_subset(d, b);
    assert(rest_coverage(rest) == d.len()) by {
        match rest {
            Some(v) => {
                lemma_area_cells_finite(v);
            },
            None => {
                assert(d =~= Set::empty());
            },
        }
    }
    if b.disjoint(f) {
        assert(d =~= b);
    } else {
        let c = choose|c: (int, int)| b.contains(c) && f.contains(c);
        assert(d.subset_of(b.remove(c)));
        lemma_len_subset(d, b.remove(c));
    }
    if !area_extents_overlap(back, front) {
        lemma_area_extents_apart(back, front);
    }
}

/// For regions that share a cell whenever they intersect, what remains
/// covers as many cells as the region did exactly when the two do not
/// intersect.
pub proof fn lemma_cull_coverage_equal(back: AreaView, front: AreaView, rest: Option<AreaView>)
    requires
        area_ok(back),
        area_ok(front),
        is_cull(back, front, rest),
        area_extents_overlap(back, front) ==> !area_cells(back).disjoint(area_cells(front)),
    ensures
        rest_coverage(rest) == area_coverage(back) <==> !area_extents_overlap(back, front),
{
    lemma_cull_coverage(back, front, rest);
}

/// Behind a region that covers no cell, a trimmed region remains as it is.
pub proof fn lemma_cull_behind_nothing(back: AreaView, front: AreaView, rest: Option<AreaView>)
    requires
        area_ok(back),
        area_trimmed(back),
        area_ok(front),
        area_coverage(front) == 0,
        is_cull(back, front, rest),
    ensures
        rest == Some(back),
{
    lemma_area_cells_finite(front);
    area_cells(front).lemma_len0_is_empty();
    assert(area_cells(back).difference(area_cells(front)) =~= area_cells(back));
    assert(is_cull(back, front, Some(back)));
    lemma_cull_unique(back, front, rest, Some(back));
}

/// Behind a region that covers, on every non-empty row of `back`, all
/// columns from the first to the last of that row, nothing of `back`
/// remains.
pub proof fn lemma_cull_fully_hidden(back: AreaView, front: AreaView, rest: Option<AreaView>)
    requires
        area_ok(back),
        area_ok(front),
        area_extent_within(back, front),
        is_cull(back, front, rest),
    ensures
        rest is None,
{
    assert forall|c: (int, int)| area_has(back, c.0, c.1) implies area_has(front, c.0, c.1) by {
        let y = c.1;
        let row = back.rows[y - back.min_y];
        assert(row_ok(row));
        lemma_row_extent(row, c.0);
    }
    assert(area_cells(back).subset_of(area_cells(front)));
    assert(is_cull(back, front, None));
    lemma_cull_unique(back, front, rest, None);
}

/// What remains of what remained: `next` is what remains of `rest` behind
/// `front`, and nothing when `rest` is nothing.
pub open spec fn is_cull_of_rest(
    rest: Option<AreaView>,
    front: AreaView,
    next: Option<AreaView>,
) -> bool {
    match rest {
        Some(r) => is_cull(r, front, next),
        None => next is None,
    }
}

/// Behind two regions, taken off one after the other, remain the cells of
/// neither.
proof fn lemma_cull_twice(
    back: AreaView,
    front: AreaView,
    other: AreaView,
    rest: Option<AreaView>,
    next: Option<AreaView>,
)
    requires
        is_cull(back, front, rest),
        is_cull_of_rest(rest, other, next),
    ensures
        match next {
            Some(v) => area_ok(v) && area_trimmed(v) && area_cells(v) == area_cells(
                back,
            ).difference(area_cells(front).union(area_cells(other))),
            None => area_cells(back).difference(area_cells(front).union(area_cells(other)))
                == Set::<(int, int)>::empty(),
        },
{
    let left = area_cells(back).difference(area_cells(front).union(area_cells(other)));
    match rest {
        Some(r) => {
            assert(area_cells(r).difference(area_cells(other)) =~= left);
            if next is None {
                assert(left =~= Set::empty());
            }
        },
        None => {
            assert(left =~= Set::empty());
        },
    }
}

/// The order of the regions in front does not matter: behind two regions
/// the same remains, whichever of them is taken off first.
pub proof fn lemma_cull_order(
    back: AreaView,
    first: AreaView,
    second: AreaView,
    behind_first: Option<AreaView>,
    behind_second: Option<AreaView>,
    first_then_second: Option<AreaView>,
    second_then_first: Option<AreaView>,
)
    requires
        is_cull(back, first, behind_first),
        is_cull(back, second, behind_second),
        is_cull_of_rest(behind_first, second, first_then_second),
        is_cull_of_rest(behind_second, first, second_then_first),
    ensures
        first_then_second == second_then_first,
{
    lemma_cull_twice(back, first, second, behind_first, first_then_second);
    lemma_cull_twice(back, second, first, behind_second, second_then_first);
    assert(area_cells(first).union(area_cells(second)) =~= area_cells(second).union(
        area_cells(first),
    ));
    match (first_then_second, second_then_first) {
        (Some(x), Some(y)) => {
            lemma_area_canonical(x, y);
        },
        (Some(x), None) => {
            lemma_area_trim_of_trimmed(x);
        },
        (None, Some(y)) => {
            lemma_area_trim_of_trimmed(y);
        },
        (None, None) => {},
    }
}

} // verus!
