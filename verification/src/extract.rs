//! From a closed outline to the region inside it.

use crate::area::{rows_of, spans_of, Area, Line, Range};
use crate::model::{area_ok, area_trim, lemma_row_push, row_ok, span_ok, AreaView};
use crate::point::Point;
use crate::sorting::{arranged, ascending, lemma_arranged, lemma_arranged_member, sort};
use vstd::prelude::*;

verus! {

/// The lowest row an outline touches.
pub open spec fn lowest_y(curve: Seq<Point>) -> int
    decreases curve.len(),
{
    if curve.len() <= 1 {
        curve[0].y as int
    } else if curve.last().y < lowest_y(curve.drop_last()) {
        curve.last().y as int
    } else {
        lowest_y(curve.drop_last())
    }
}

/// The highest row an outline touches.
pub open spec fn highest_y(curve: Seq<Point>) -> int
    decreases curve.len(),
{
    if curve.len() <= 1 {
        curve[0].y as int
    } else if curve.last().y > highest_y(curve.drop_last()) {
        curve.last().y as int
    } else {
        highest_y(curve.drop_last())
    }
}

/// Every point of an outline lies between its lowest and its highest row.
pub proof fn lemma_y_bounds(curve: Seq<Point>)
    requires
        curve.len() > 0,
    ensures
        i16::MIN <= lowest_y(curve) <= highest_y(curve) <= i16::MAX,
        forall|i: int| 0 <= i < curve.len() ==> lowest_y(curve) <= (#[trigger] curve[i]).y <= highest_y(curve),
    decreases curve.len(),
{
    if curve.len() > 1 {
        let head = curve.drop_last();
        lemma_y_bounds(head);
        assert forall|i: int| 0 <= i < curve.len() implies lowest_y(curve) <= (#[trigger] curve[i]).y <= highest_y(curve) by {
            if i < head.len() {
                assert(head[i] == curve[i]);
            }
        }
    }
}

/// The lowest and the highest row of an outline.
fn y_bounds(curve: &[Point]) -> (bounds: (i16, i16))
    requires
        curve@.len() > 0,
    ensures
        bounds.0 == lowest_y(curve@),
        bounds.1 == highest_y(curve@),
{
    let mut lo = curve[0].y;
    let mut hi = curve[0].y;
    let mut i: usize = 1;
    while i < curve.len()
        invariant
            1 <= i <= curve@.len(),
            lo == lowest_y(curve@.take(i as int)),
            hi == highest_y(curve@.take(i as int)),
        decreases curve@.len() - i,
    {
        let y = curve[i].y;
        proof {
            let next = curve@.take(i + 1);
            assert(next.drop_last() =~= curve@.take(i as int));
            assert(next.last() == curve@[i as int]);
        }
        if y < lo {
            lo = y;
        }
        if y > hi {
            hi = y;
        }
        i += 1;
    }
    assert(curve@.take(i as int) =~= curve@);
    (lo, hi)
}

/// The coordinate lists of a sequence of vectors.
pub open spec fn rows_view(rows: Seq<Vec<i16>>) -> Seq<Seq<i16>> {
    rows.map_values(|r: Vec<i16>| r@)
}

/// `height` rows without coordinates.
pub open spec fn empty_rows(height: nat) -> Seq<Seq<i16>> {
    Seq::new(height, |i: int| Seq::<i16>::empty())
}

/// The rows with `x` added at the end of row `i`.
pub open spec fn push_at(rows: Seq<Seq<i16>>, i: int, x: i16) -> Seq<Seq<i16>> {
    rows.update(i, rows[i].push(x))
}

/// The rows with the last coordinate of row `i` added once more, if row `i`
/// has one.
pub open spec fn repeat_last(rows: Seq<Seq<i16>>, i: int) -> Seq<Seq<i16>> {
    if rows[i].len() > 0 {
        push_at(rows, i, rows[i].last())
    } else {
        rows
    }
}

/// Row by row, the columns of the points of an outline, in the order of the
/// outline. Row 0 is row `lo` of the grid.
pub open spec fn coordinate_rows(curve: Seq<Point>, lo: int, height: nat) -> Seq<Seq<i16>>
    decreases curve.len(),
{
    if curve.len() == 0 {
        empty_rows(height)
    } else {
        push_at(coordinate_rows(curve.drop_last(), lo, height), curve.last().y - lo, curve.last().x)
    }
}

/// 1 for a positive number, -1 for a negative one, 0 for zero.
pub open spec fn sign(v: int) -> int {
    if v > 0 {
        1
    } else if v < 0 {
        -1
    } else {
        0
    }
}

/// The vertical direction of the last step of an outline that changed rows:
/// 1 upwards, -1 downwards, 0 when no step did.
pub open spec fn direction(curve: Seq<Point>) -> int
    decreases curve.len(),
{
    if curve.len() <= 1 {
        0
    } else if curve[curve.len() - 1].y == curve[curve.len() - 2].y {
        direction(curve.drop_last())
    } else {
        sign(curve[curve.len() - 1].y - curve[curve.len() - 2].y)
    }
}

/// Row by row, the anchors of an outline: every step that changes rows
/// leaves the column it arrives at on the row it arrives at, and a step that
/// turns the vertical direction first repeats the last anchor of the row it
/// leaves.
pub open spec fn anchor_rows(curve: Seq<Point>, lo: int, height: nat) -> Seq<Seq<i16>>
    decreases curve.len(),
{
    if curve.len() <= 1 {
        empty_rows(height)
    } else {
        let rows = anchor_rows(curve.drop_last(), lo, height);
        let from = curve[curve.len() - 2];
        let to = curve[curve.len() - 1];
        if to.y == from.y {
            rows
        } else if direction(curve.drop_last()) != sign(to.y - from.y) {
            push_at(repeat_last(rows, from.y - lo), to.y - lo, to.x)
        } else {
            push_at(rows, to.y - lo, to.x)
        }
    }
}

/// The anchors with column 0 added on row 0 of the grid, if the rows reach
/// that row and it holds an odd number of anchors.
pub open spec fn close_origin_row(rows: Seq<Seq<i16>>, lo: int) -> Seq<Seq<i16>> {
    if 0 <= -lo < rows.len() && rows[-lo].len() % 2 != 0 {
        push_at(rows, -lo, 0)
    } else {
        rows
    }
}

/// Every row in ascending order.
pub open spec fn arranged_rows(rows: Seq<Seq<i16>>) -> Seq<Seq<i16>> {
    rows.map_values(|r: Seq<i16>| arranged(r))
}

/// `height` empty rows.
fn new_rows(height: usize) -> (rows: Vec<Vec<i16>>)
    ensures
        rows_view(rows@) == empty_rows(height as nat),
        rows@.len() == height,
{
    let mut rows: Vec<Vec<i16>> = Vec::with_capacity(height);
    let mut i: usize = 0;
    while i < height
        invariant
            i <= height,
            rows@.len() == i,
            forall|k: int| 0 <= k < i ==> (#[trigger] rows@[k])@.len() == 0,
        decreases height - i,
    {
        rows.push(Vec::new());
        i += 1;
    }
    assert(rows_view(rows@) =~= empty_rows(height as nat)) by {
        assert forall|k: int| 0 <= k < height implies rows_view(rows@)[k] == empty_rows(
            height as nat,
        )[k] by {
            assert(rows@[k]@ =~= Seq::<i16>::empty());
        }
    }
    rows
}

/// Adds `x` at the end of row `i`.
fn push_to_row(rows: &mut Vec<Vec<i16>>, i: usize, x: i16)
    requires
        i < old(rows)@.len(),
    ensures
        rows_view(final(rows)@) == push_at(rows_view(old(rows)@), i as int, x),
        final(rows)@.len() == old(rows)@.len(),
{
    let ghost before = rows_view(rows@);
    rows[i].push(x);
    assert(rows_view(rows@) =~= push_at(before, i as int, x));
}

/// Adds the last coordinate of row `i` once more, if the row has one.
fn repeat_last_of_row(rows: &mut Vec<Vec<i16>>, i: usize)
    requires
        i < old(rows)@.len(),
    ensures
        rows_view(final(rows)@) == repeat_last(rows_view(old(rows)@), i as int),
        final(rows)@.len() == old(rows)@.len(),
{
    let n = rows[i].len();
    if n > 0 {
        let last = rows[i][n - 1];
        push_to_row(rows, i, last);
    }
}

/// Puts every row in ascending order.
fn sort_rows(rows: &mut Vec<Vec<i16>>)
    ensures
        rows_view(final(rows)@) == arranged_rows(rows_view(old(rows)@)),
        final(rows)@.len() == old(rows)@.len(),
{
    let ghost before = rows_view(rows@);
    let n = rows.len();
    let mut i: usize = 0;
    while i < n
        invariant
            i <= n,
            n == rows@.len(),
            before.len() == n,
            forall|k: int| 0 <= k < i ==> (#[trigger] rows@[k])@ == arranged(before[k]),
            forall|k: int| i <= k < n ==> (#[trigger] rows@[k])@ == before[k],
        decreases n - i,
    {
        sort(&mut rows[i]);
        i += 1;
    }
    assert(rows_view(rows@) =~= arranged_rows(before));
}

/// The columns of the points of an outline, row by row.
fn collect_coordinates(curve: &[Point], lo: i16, height: usize) -> (rows: Vec<Vec<i16>>)
    requires
        forall|i: int| 0 <= i < curve@.len() ==> lo <= (#[trigger] curve@[i]).y < lo + height,
    ensures
        rows_view(rows@) == coordinate_rows(curve@, lo as int, height as nat),
        rows@.len() == height,
{
    let mut rows = new_rows(height);
    let mut i: usize = 0;
    while i < curve.len()
        invariant
            i <= curve@.len(),
            rows@.len() == height,
            forall|i: int| 0 <= i < curve@.len() ==> lo <= (#[trigger] curve@[i]).y < lo + height,
            rows_view(rows@) == coordinate_rows(curve@.take(i as int), lo as int, height as nat),
        decreases curve@.len() - i,
    {
        let point = curve[i];
        proof {
            let next = curve@.take(i + 1);
            assert(next.drop_last() =~= curve@.take(i as int));
            assert(next.last() == point);
        }
        let index: i32 = point.y as i32 - lo as i32;
        push_to_row(&mut rows, index as usize, point.x);
        i += 1;
    }
    assert(curve@.take(i as int) =~= curve@);
    rows
}

/// The anchors of an outline, row by row.
fn collect_anchors(curve: &[Point], lo: i16, height: usize) -> (rows: Vec<Vec<i16>>)
    requires
        curve@.len() > 0,
        forall|i: int| 0 <= i < curve@.len() ==> lo <= (#[trigger] curve@[i]).y < lo + height,
    ensures
        rows_view(rows@) == anchor_rows(curve@, lo as int, height as nat),
        rows@.len() == height,
{
    let mut rows = new_rows(height);
    let mut turn: i8 = 0;
    let mut i: usize = 1;
    while i < curve.len()
        invariant
            1 <= i <= curve@.len(),
            rows@.len() == height,
            forall|i: int| 0 <= i < curve@.len() ==> lo <= (#[trigger] curve@[i]).y < lo + height,
            rows_view(rows@) == anchor_rows(curve@.take(i as int), lo as int, height as nat),
            turn == direction(curve@.take(i as int)),
        decreases curve@.len() - i,
    {
        let from = curve[i - 1];
        let to = curve[i];
        proof {
            let next = curve@.take(i + 1);
            assert(next.drop_last() =~= curve@.take(i as int));
            assert(next[next.len() - 1] == to);
            assert(next[next.len() - 2] == from);
        }
        if to.y != from.y {
            let going: i8 = if to.y > from.y {
                1
            } else {
                -1
            };
            if turn != going {
                let index: i32 = from.y as i32 - lo as i32;
                repeat_last_of_row(&mut rows, index as usize);
                turn = going;
            }
            let index: i32 = to.y as i32 - lo as i32;
            push_to_row(&mut rows, index as usize, to.x);
        }
        i += 1;
    }
    assert(curve@.take(i as int) =~= curve@);
    rows
}

/// The first index from `start` on at which `line` holds `x`; the length of
/// `line` when there is none.
pub open spec fn find_from(line: Seq<i16>, start: int, x: int) -> int
    decreases line.len() - start,
{
    if start >= line.len() {
        line.len() as int
    } else if line[start] == x {
        start
    } else {
        find_from(line, start + 1, x)
    }
}

/// Where the boundary that starts at index `p` ends: the index reached from
/// `p` by steps to the next index, below `limit`, as long as the column
/// there is the same or the next one.
pub open spec fn trim_left(line: Seq<i16>, p: int, limit: int) -> int
    decreases limit - p,
{
    if p + 1 < limit && line[p + 1] - line[p] <= 1 {
        trim_left(line, p + 1, limit)
    } else {
        p
    }
}

/// Where the boundary that ends at index `q` starts: the index reached from
/// `q` by steps to the index before, above `p`, as long as the column there
/// is the same or the one before.
pub open spec fn trim_right(line: Seq<i16>, p: int, q: int) -> int
    decreases q - p,
{
    if q - 1 > p && line[q] - line[q - 1] <= 1 {
        trim_right(line, p, q - 1)
    } else {
        q
    }
}

/// The span to fill between the anchors `x1` and `x2` of a row whose
/// columns, ascending, are `line`, and the index from which the next pair of
/// anchors is looked up.
///
/// Anchors less than two columns apart enclose nothing. Otherwise `x1` is
/// looked up in `line` from index `offset` on and `x2` from there on; when
/// either is missing, nothing is filled. The boundary is as thick as the
/// columns that follow `x1`, and precede `x2`, without a gap; what lies
/// strictly between the two boundaries is filled, if anything does.
pub open spec fn fill_between(line: Seq<i16>, x1: int, x2: int, offset: int) -> (
    Option<(int, int)>,
    int,
) {
    if x2 - x1 <= 1 {
        (None, offset)
    } else {
        let i1 = find_from(line, offset, x1);
        let i2 = find_from(line, i1, x2);
        if i1 >= line.len() || i2 >= line.len() {
            (None, offset)
        } else {
            let p = trim_left(line, i1, i2);
            let q = trim_right(line, p, i2);
            if line[q] - line[p] > 1 {
                (Some((line[p] + 1, line[q] - 1)), i2)
            } else {
                (None, i2)
            }
        }
    }
}

/// A span as a sequence of at most one span.
pub open spec fn span_seq(span: Option<(int, int)>) -> Seq<(int, int)> {
    match span {
        Some(s) => seq![s],
        None => Seq::empty(),
    }
}

/// The spans between the anchors `k` and `k + 1`, `k + 2` and `k + 3`, and
/// so on.
pub open spec fn fill_pairs(line: Seq<i16>, anchors: Seq<i16>, k: int, offset: int) -> Seq<
    (int, int),
>
    decreases anchors.len() - k,
{
    if k + 1 >= anchors.len() {
        Seq::empty()
    } else {
        let (span, next) = fill_between(line, anchors[k] as int, anchors[k + 1] as int, offset);
        span_seq(span) + fill_pairs(line, anchors, k + 2, next)
    }
}

/// The spans of one row: those between its anchors taken in pairs, and,
/// when an anchor is left over, the span between the last two anchors.
pub open spec fn fill_row(line: Seq<i16>, anchors: Seq<i16>) -> Seq<(int, int)> {
    let n = anchors.len() as int;
    if n > 1 && n % 2 != 0 {
        fill_pairs(line, anchors, 0, 0) + span_seq(
            fill_between(line, anchors[n - 2] as int, anchors[n - 1] as int, 0).0,
        )
    } else {
        fill_pairs(line, anchors, 0, 0)
    }
}

/// The rows inside an outline, from its lowest row to its highest.
pub open spec fn inner_rows(curve: Seq<Point>) -> Seq<Seq<(int, int)>> {
    let lo = lowest_y(curve);
    let height = (highest_y(curve) - lo + 1) as nat;
    let anchors = arranged_rows(close_origin_row(anchor_rows(curve, lo, height), lo));
    let lines = arranged_rows(coordinate_rows(curve, lo, height));
    Seq::new(height, |i: int| fill_row(lines[i], anchors[i]))
}

/// The region inside an outline: its inner rows without the empty rows at
/// either end. An outline of fewer than two points encloses nothing.
pub open spec fn inner_area(curve: Seq<Point>) -> Option<AreaView> {
    if curve.len() <= 1 {
        None
    } else {
        area_trim(AreaView { min_y: lowest_y(curve), rows: inner_rows(curve) })
    }
}

/// The view of a range that may be missing.
pub open spec fn span_of(range: Option<Range>) -> Option<(int, int)> {
    match range {
        Some(r) => Some(r@),
        None => None,
    }
}

/// The left boundary ends at or after the index it starts at, below `limit`.
proof fn lemma_trim_left(line: Seq<i16>, p: int, limit: int)
    requires
        0 <= p < limit,
    ensures
        p <= trim_left(line, p, limit) < limit,
    decreases limit - p,
{
    if p + 1 < limit && line[p + 1] - line[p] <= 1 {
        lemma_trim_left(line, p + 1, limit);
    }
}

/// The right boundary starts above `p`, at or before the index it ends at.
proof fn lemma_trim_right(line: Seq<i16>, p: int, q: int)
    requires
        p < q,
    ensures
        p < trim_right(line, p, q) <= q,
    decreases q - p,
{
    if q - 1 > p && line[q] - line[q - 1] <= 1 {
        lemma_trim_right(line, p, q - 1);
    }
}

/// The first index from `start` on at which `line` holds `x`.
fn find_column(line: &Vec<i16>, start: usize, x: i16) -> (i: usize)
    requires
        start <= line@.len(),
    ensures
        i == find_from(line@, start as int, x as int),
        start <= i <= line@.len(),
        i < line@.len() ==> line@[i as int] == x,
{
    let mut i = start;
    while i < line.len() && line[i] != x
        invariant
            start <= i <= line@.len(),
            find_from(line@, start as int, x as int) == find_from(line@, i as int, x as int),
        decreases line@.len() - i,
    {
        i += 1;
    }
    i
}

/// The span to fill between two anchors, and the index from which to look
/// the next pair of anchors up. A span lies strictly between its anchors.
fn fill_span(line: &Vec<i16>, x1: i16, x2: i16, offset: usize) -> (found: (Option<Range>, usize))
    requires
        ascending(line@),
        offset <= line@.len(),
    ensures
        (span_of(found.0), found.1 as int) == fill_between(
            line@,
            x1 as int,
            x2 as int,
            offset as int,
        ),
        found.1 <= line@.len(),
        match found.0 {
            Some(range) => x1 < range@.0 <= range@.1 < x2 && span_ok(range@),
            None => true,
        },
{
    if x2 as i32 - x1 as i32 <= 1 {
        return (None, offset);
    }
    let i1 = find_column(line, offset, x1);
    if i1 >= line.len() {
        return (None, offset);
    }
    let i2 = find_column(line, i1, x2);
    if i2 >= line.len() {
        return (None, offset);
    }
    let mut p = i1;
    while p + 1 < i2 && line[p + 1] as i32 - line[p] as i32 <= 1
        invariant
            i1 <= p < i2 < line@.len(),
            trim_left(line@, i1 as int, i2 as int) == trim_left(line@, p as int, i2 as int),
        decreases i2 - p,
    {
        p += 1;
    }
    let mut q = i2;
    while q - 1 > p && line[q] as i32 - line[q - 1] as i32 <= 1
        invariant
            p < q <= i2 < line@.len(),
            trim_right(line@, p as int, i2 as int) == trim_right(line@, p as int, q as int),
        decreases q,
    {
        q -= 1;
    }
    let left = line[p];
    let right = line[q];
    assert(line@[i1 as int] <= left);
    assert(right <= line@[i2 as int]);
    if right as i32 - left as i32 > 1 {
        (Some(Range::new((left as i32 + 1) as i16, (right as i32 - 1) as i16)), i2)
    } else {
        (None, i2)
    }
}

/// The spans of one row, from its columns and its anchors, both ascending.
fn fill_line(line: &Vec<i16>, anchors: &Vec<i16>) -> (row: Line)
    requires
        ascending(line@),
        ascending(anchors@),
    ensures
        row@ == fill_row(line@, anchors@),
        row.wf(),
{
    let n = anchors.len();
    let mut ranges: Vec<Range> = Vec::new();
    let mut k: usize = 0;
    let mut offset: usize = 0;
    assert(spans_of(ranges@) =~= Seq::empty());
    while k + 1 < n
        invariant
            n == anchors@.len(),
            ascending(line@),
            ascending(anchors@),
            k % 2 == 0,
            k <= n,
            offset <= line@.len(),
            spans_of(ranges@) + fill_pairs(line@, anchors@, k as int, offset as int) == fill_pairs(
                line@,
                anchors@,
                0,
                0,
            ),
            row_ok(spans_of(ranges@)),
            ranges@.len() > 0 ==> k >= 2 && spans_of(ranges@).last().1 < anchors@[k - 1],
        decreases n - k,
    {
        let ghost out = spans_of(ranges@);
        let found = fill_span(line, anchors[k], anchors[k + 1], offset);
        let ghost rest = fill_pairs(line@, anchors@, k + 2, found.1 as int);
        match found.0 {
            Some(range) => {
                ranges.push(range);
                proof {
                    assert(spans_of(ranges@) =~= out.push(range@));
                    if out.len() > 0 {
                        assert(anchors@[k - 1] <= anchors@[k as int]);
                    }
                    lemma_row_push(out, range@);
                    assert(out.push(range@) + rest =~= out + (seq![range@] + rest));
                }
            },
            None => {
                proof {
                    assert(out + rest =~= out + (Seq::<(int, int)>::empty() + rest));
                    if out.len() > 0 {
                        assert(anchors@[k - 1] <= anchors@[k + 1]);
                    }
                }
            },
        }
        offset = found.1;
        k += 2;
    }
    assert(spans_of(ranges@) =~= fill_pairs(line@, anchors@, 0, 0));
    if n > 1 && n % 2 != 0 {
        let ghost out = spans_of(ranges@);
        let found = fill_span(line, anchors[n - 2], anchors[n - 1], 0);
        match found.0 {
            Some(range) => {
                ranges.push(range);
                proof {
                    assert(spans_of(ranges@) =~= out.push(range@));
                    lemma_row_push(out, range@);
                    assert(out.push(range@) =~= out + seq![range@]);
                }
            },
            None => {
                assert(out =~= out + Seq::<(int, int)>::empty());
            },
        }
    }
    Line::new(ranges)
}

/// The region inside a closed outline.
///
/// Row by row, the outline leaves anchors where it changes rows; the
/// anchors of a row, in ascending order and taken in pairs, enclose the
/// spans that are filled, less the thickness of the outline itself. There is
/// no region when the outline has fewer than two points or encloses no cell.
#[must_use]
pub fn find_inner_area(curve: &[Point]) -> (area: Option<Area>)
    ensures
        match area {
            Some(a) => inner_area(curve@) == Some(a@) && a.wf() && a.is_trimmed(),
            None => inner_area(curve@) is None,
        },
{
    if curve.len() <= 1 {
        return None;
    }
    let (lo, hi) = y_bounds(curve);
    proof {
        lemma_y_bounds(curve@);
    }
    let height: usize = (hi as i32 - lo as i32) as usize + 1;
    let mut anchors = collect_anchors(curve, lo, height);
    if lo <= 0 && 0 <= hi {
        let index: usize = (0 - lo as i32) as usize;
        if anchors[index].len() % 2 != 0 {
            push_to_row(&mut anchors, index, 0);
        }
    }
    sort_rows(&mut anchors);
    let mut lines = collect_coordinates(curve, lo, height);
    sort_rows(&mut lines);
    let ghost inner = inner_rows(curve@);
    let mut area_lines: Vec<Line> = Vec::with_capacity(height);
    let mut i: usize = 0;
    assert(rows_of(area_lines@) =~= inner.take(0));
    while i < height
        invariant
            i <= height,
            inner == inner_rows(curve@),
            inner.len() == height,
            height == highest_y(curve@) - lowest_y(curve@) + 1,
            lo == lowest_y(curve@),
            anchors@.len() == height,
            lines@.len() == height,
            rows_view(anchors@) == arranged_rows(
                close_origin_row(anchor_rows(curve@, lo as int, height as nat), lo as int),
            ),
            rows_view(lines@) == arranged_rows(coordinate_rows(curve@, lo as int, height as nat)),
            rows_of(area_lines@) == inner.take(i as int),
            forall|k: int| 0 <= k < i ==> row_ok(#[trigger] inner[k]),
        decreases height - i,
    {
        let ghost before = rows_of(area_lines@);
        proof {
            let raw_anchors = close_origin_row(
                anchor_rows(curve@, lo as int, height as nat),
                lo as int,
            );
            let raw_lines = coordinate_rows(curve@, lo as int, height as nat);
            assert(rows_view(anchors@).len() == height);
            assert(rows_view(lines@).len() == height);
            assert(arranged_rows(raw_anchors).len() == raw_anchors.len());
            assert(arranged_rows(raw_lines).len() == raw_lines.len());
            assert(rows_view(anchors@)[i as int] == arranged(raw_anchors[i as int]));
            assert(rows_view(lines@)[i as int] == arranged(raw_lines[i as int]));
            lemma_arranged(raw_anchors[i as int]);
            lemma_arranged(raw_lines[i as int]);
        }
        let row = fill_line(&lines[i], &anchors[i]);
        area_lines.push(row);
        proof {
            assert(row@ == inner[i as int]);
            assert(rows_of(area_lines@) =~= before.push(row@));
            assert(inner.take(i + 1) =~= inner.take(i as int).push(inner[i as int]));
        }
        i += 1;
    }
    proof {
        assert(inner.take(i as int) =~= inner);
        assert(area_ok(AreaView { min_y: lo as int, rows: inner }));
    }
    Area::new(area_lines, lo).optimize()
}

/// Whether the outline passes through column `x` of row `y`.
pub open spec fn on_outline(curve: Seq<Point>, x: int, y: int) -> bool {
    exists|n: int| 0 <= n < curve.len() && (#[trigger] curve[n]).x == x && curve[n].y == y
}

/// Whether the columns right before and right after a span are among the
/// columns of `line`.
pub open spec fn bounded_by(line: Seq<i16>, span: (int, int)) -> bool {
    exists|p: int, q: int|
        0 <= p < line.len() && 0 <= q < line.len() && #[trigger] line[p] == span.0 - 1
            && #[trigger] line[q] == span.1 + 1
}

/// A lookup ends at or after the index it starts at, on the column looked
/// for if on any.
proof fn lemma_find_from(line: Seq<i16>, start: int, x: int)
    requires
        0 <= start,
    ensures
        start <= find_from(line, start, x) || find_from(line, start, x) == line.len(),
        0 <= find_from(line, start, x),
        find_from(line, start, x) < line.len() ==> line[find_from(line, start, x)] == x,
    decreases line.len() - start,
{
    if start < line.len() && line[start] != x {
        lemma_find_from(line, start + 1, x);
    }
}

/// The span between two anchors is bounded by columns of the row.
proof fn lemma_fill_between_bounded(line: Seq<i16>, x1: int, x2: int, offset: int)
    requires
        0 <= offset,
    ensures
        0 <= fill_between(line, x1, x2, offset).1,
        match fill_between(line, x1, x2, offset).0 {
            Some(span) => bounded_by(line, span),
            None => true,
        },
{
    if x2 - x1 > 1 {
        lemma_find_from(line, offset, x1);
        let i1 = find_from(line, offset, x1);
        lemma_find_from(line, i1, x2);
        let i2 = find_from(line, i1, x2);
        if i1 < line.len() && i2 < line.len() {
            assert(i1 < i2);
            lemma_trim_left(line, i1, i2);
            let p = trim_left(line, i1, i2);
            lemma_trim_right(line, p, i2);
            let q = trim_right(line, p, i2);
            if line[q] - line[p] > 1 {
                let span = (line[p] + 1, line[q] - 1);
                assert(line[p] == span.0 - 1 && line[q] == span.1 + 1);
            }
        }
    }
}

/// The spans between anchors taken in pairs are bounded by columns of the
/// row.
proof fn lemma_fill_pairs_bounded(line: Seq<i16>, anchors: Seq<i16>, k: int, offset: int)
    requires
        0 <= k,
        0 <= offset,
    ensures
        forall|j: int|
            0 <= j < fill_pairs(line, anchors, k, offset).len() ==> bounded_by(
                line,
                #[trigger] fill_pairs(line, anchors, k, offset)[j],
            ),
    decreases anchors.len() - k,
{
    if k + 1 < anchors.len() {
        let found = fill_between(line, anchors[k] as int, anchors[k + 1] as int, offset);
        lemma_fill_between_bounded(line, anchors[k] as int, anchors[k + 1] as int, offset);
        lemma_fill_pairs_bounded(line, anchors, k + 2, found.1);
        let head = span_seq(found.0);
        let tail = fill_pairs(line, anchors, k + 2, found.1);
        let all = fill_pairs(line, anchors, k, offset);
        assert(all == head + tail);
        assert forall|j: int| 0 <= j < all.len() implies bounded_by(line, #[trigger] all[j]) by {
            if j < head.len() {
                assert(all[j] == head[j]);
            } else {
                assert(all[j] == tail[j - head.len()]);
            }
        }
    }
}

/// The columns right before and right after every span of a filled row are
/// columns of that row of the outline.
pub proof fn lemma_fill_row_bounded(line: Seq<i16>, anchors: Seq<i16>)
    ensures
        forall|j: int|
            0 <= j < fill_row(line, anchors).len() ==> bounded_by(
                line,
                #[trigger] fill_row(line, anchors)[j],
            ),
{
    let n = anchors.len() as int;
    let main = fill_pairs(line, anchors, 0, 0);
    lemma_fill_pairs_bounded(line, anchors, 0, 0);
    if n > 1 && n % 2 != 0 {
        lemma_fill_between_bounded(line, anchors[n - 2] as int, anchors[n - 1] as int, 0);
        let extra = span_seq(fill_between(line, anchors[n - 2] as int, anchors[n - 1] as int, 0).0);
        let all = fill_row(line, anchors);
        assert forall|j: int| 0 <= j < all.len() implies bounded_by(line, #[trigger] all[j]) by {
            if j < main.len() {
                assert(all[j] == main[j]);
            } else {
                assert(all[j] == extra[j - main.len()]);
            }
        }
    }
}

/// The rows of columns are as many as asked for, and hold the columns of
/// points of the outline only.
pub proof fn lemma_coordinate_rows(curve: Seq<Point>, lo: int, height: nat)
    requires
        forall|n: int| 0 <= n < curve.len() ==> lo <= (#[trigger] curve[n]).y < lo + height,
    ensures
        coordinate_rows(curve, lo, height).len() == height,
        forall|i: int, t: int|
            0 <= i < height && 0 <= t < coordinate_rows(curve, lo, height)[i].len() ==> on_outline(
                curve,
                #[trigger] coordinate_rows(curve, lo, height)[i][t] as int,
                lo + i,
            ),
    decreases curve.len(),
{
    if curve.len() > 0 {
        let head = curve.drop_last();
        let last = curve.last();
        let before = coordinate_rows(head, lo, height);
        let rows = coordinate_rows(curve, lo, height);
        assert forall|n: int| 0 <= n < head.len() implies lo <= (#[trigger] head[n]).y < lo
            + height by {
            assert(head[n] == curve[n]);
        }
        lemma_coordinate_rows(head, lo, height);
        let at = last.y - lo;
        assert(rows == before.update(at, before[at].push(last.x)));
        assert forall|i: int, t: int| 0 <= i < height && 0 <= t < rows[i].len() implies on_outline(
            curve,
            #[trigger] rows[i][t] as int,
            lo + i,
        ) by {
            if i == at && t == before[at].len() {
                assert(curve[curve.len() - 1].x == rows[i][t] && curve[curve.len() - 1].y == lo
                    + i);
            } else {
                assert(rows[i][t] == before[i][t]);
                assert(on_outline(head, before[i][t] as int, lo + i));
                let n = choose|n: int|
                    0 <= n < head.len() && (#[trigger] head[n]).x == before[i][t] && head[n].y
                        == lo + i;
                assert(curve[n] == head[n]);
            }
        }
    }
}

/// The region inside an outline is bounded by the outline: on every row, the
/// columns right before and right after a span of the region are columns of
/// points of the outline on that row.
pub proof fn lemma_inner_rows_bounded(curve: Seq<Point>, i: int, j: int)
    requires
        curve.len() > 1,
        0 <= i < inner_rows(curve).len(),
        0 <= j < inner_rows(curve)[i].len(),
    ensures
        on_outline(curve, inner_rows(curve)[i][j].0 - 1, lowest_y(curve) + i),
        on_outline(curve, inner_rows(curve)[i][j].1 + 1, lowest_y(curve) + i),
{
    let lo = lowest_y(curve);
    let height = (highest_y(curve) - lo + 1) as nat;
    lemma_y_bounds(curve);
    lemma_coordinate_rows(curve, lo, height);
    let raw = coordinate_rows(curve, lo, height);
    let lines = arranged_rows(raw);
    let anchors = arranged_rows(close_origin_row(anchor_rows(curve, lo, height), lo));
    let line = lines[i];
    assert(line == arranged(raw[i]));
    lemma_fill_row_bounded(line, anchors[i]);
    let span = inner_rows(curve)[i][j];
    assert(span == fill_row(line, anchors[i])[j]);
    assert(bounded_by(line, span));
    let (p, q) = choose|p: int, q: int|
        0 <= p < line.len() && 0 <= q < line.len() && #[trigger] line[p] == span.0 - 1
            && #[trigger] line[q] == span.1 + 1;
    lemma_arranged_member(raw[i], p);
    lemma_arranged_member(raw[i], q);
    let u = choose|u: int| 0 <= u < raw[i].len() && raw[i][u] == line[p];
    let v = choose|v: int| 0 <= v < raw[i].len() && raw[i][v] == line[q];
    assert(on_outline(curve, raw[i][u] as int, lo + i));
    assert(on_outline(curve, raw[i][v] as int, lo + i));
}

} // verus!
