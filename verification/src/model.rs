//! Mathematical models of rows and regions, and the facts about them that the
//! contracts of the executable code rest on.

use vstd::prelude::*;
use vstd::relations::injective_on;
use vstd::set_lib::*;

verus! {

/// A span `(from, to)` covers the columns `from..=to`.
pub open spec fn span_ok(s: (int, int)) -> bool {
    i16::MIN <= s.0 <= s.1 <= i16::MAX
}

/// Whether a span covers column `x`.
pub open spec fn span_has(s: (int, int), x: int) -> bool {
    s.0 <= x <= s.1
}

/// A row is valid when its spans are valid, ascending, and any two of them
/// leave at least one free column in between.
pub open spec fn row_ok(r: Seq<(int, int)>) -> bool {
    &&& forall|i: int| 0 <= i < r.len() ==> span_ok(#[trigger] r[i])
    &&& forall|i: int, j: int| 0 <= i < j < r.len() ==> (#[trigger] r[i]).1 + 1 < (#[trigger] r[j]).0
}

/// The same condition stated for neighbours only.
pub open spec fn row_ok_adjacent(r: Seq<(int, int)>) -> bool {
    &&& forall|i: int| 0 <= i < r.len() ==> span_ok(#[trigger] r[i])
    &&& forall|i: int| 0 < i < r.len() ==> r[i - 1].1 + 1 < (#[trigger] r[i]).0
}

/// Whether a row covers column `x`.
pub open spec fn row_has(r: Seq<(int, int)>, x: int) -> bool {
    exists|i: int| 0 <= i < r.len() && span_has(#[trigger] r[i], x)
}

/// The columns a row covers.
pub open spec fn row_cells(r: Seq<(int, int)>) -> Set<int> {
    Set::new(|x: int| row_has(r, x))
}

/// The number of columns a row covers, summed span by span.
pub open spec fn row_coverage(r: Seq<(int, int)>) -> nat
    decreases r.len(),
{
    if r.len() == 0 {
        0
    } else {
        row_coverage(r.drop_last()) + (r.last().1 - r.last().0 + 1) as nat
    }
}

/// Neighbour-wise separation implies separation of every pair.
pub proof fn lemma_row_ok_from_adjacent(r: Seq<(int, int)>)
    requires
        row_ok_adjacent(r),
    ensures
        row_ok(r),
{
    assert forall|i: int, j: int| 0 <= i < j < r.len() implies (#[trigger] r[i]).1 + 1 < (
    #[trigger] r[j]).0 by {
        lemma_adjacent_gap(r, i, j);
    }
}

/// Under neighbour-wise separation, a later span starts beyond any earlier
/// one.
proof fn lemma_adjacent_gap(r: Seq<(int, int)>, i: int, j: int)
    requires
        row_ok_adjacent(r),
        0 <= i < j < r.len(),
    ensures
        r[i].1 + 1 < r[j].0,
    decreases j - i,
{
    if j > i + 1 {
        lemma_adjacent_gap(r, i, j - 1);
        assert(span_ok(r[j - 1]));
        assert(r[j - 1].1 + 1 < r[j].0);
    } else {
        assert(r[j - 1].1 + 1 < r[j].0);
    }
}

/// Appending a span that starts beyond the last one keeps a row valid and
/// adds exactly its columns.
pub proof fn lemma_row_push(r: Seq<(int, int)>, s: (int, int))
    requires
        row_ok(r),
        span_ok(s),
        r.len() > 0 ==> r.last().1 + 1 < s.0,
    ensures
        row_ok(r.push(s)),
        row_cells(r.push(s)) == row_cells(r).union(set_int_range(s.0, s.1 + 1)),
        row_cells(r).disjoint(set_int_range(s.0, s.1 + 1)),
        row_coverage(r.push(s)) == row_coverage(r) + (s.1 - s.0 + 1),
        forall|x: int| #[trigger] row_has(r.push(s), x) <==> (row_has(r, x) || span_has(s, x)),
{
    let q = r.push(s);
    assert forall|i: int, j: int| 0 <= i < j < q.len() implies (#[trigger] q[i]).1 + 1 < (
    #[trigger] q[j]).0 by {
        if j == r.len() {
            if i < r.len() - 1 {
                assert(r[i].1 + 1 < r[r.len() - 1].0);
            }
        } else {
            assert(q[i] == r[i] && q[j] == r[j]);
        }
    }
    assert forall|i: int| 0 <= i < q.len() implies span_ok(#[trigger] q[i]) by {
        if i < r.len() {
            assert(q[i] == r[i]);
        }
    }
    assert forall|x: int| row_has(q, x) <==> (row_has(r, x) || s.0 <= x <= s.1) by {
        if row_has(q, x) {
            let i = choose|i: int| 0 <= i < q.len() && span_has(#[trigger] q[i], x);
            if i < r.len() {
                assert(span_has(r[i], x));
            }
        }
        if row_has(r, x) {
            let i = choose|i: int| 0 <= i < r.len() && span_has(#[trigger] r[i], x);
            assert(span_has(q[i], x));
        }
        if s.0 <= x <= s.1 {
            assert(span_has(q[r.len() as int], x));
        }
    }
    assert(row_cells(q) =~= row_cells(r).union(set_int_range(s.0, s.1 + 1)));
    assert forall|x: int| !(row_has(r, x) && s.0 <= x <= s.1) by {
        if row_has(r, x) {
            let i = choose|i: int| 0 <= i < r.len() && span_has(#[trigger] r[i], x);
            if i < r.len() - 1 {
                assert(r[i].1 + 1 < r[r.len() - 1].0);
            }
        }
    }
    assert(q.drop_last() =~= r);
}

/// A valid row covers finitely many columns, as many as its spans add up to.
pub proof fn lemma_row_cells_len(r: Seq<(int, int)>)
    requires
        row_ok(r),
    ensures
        row_cells(r).finite(),
        row_cells(r).len() == row_coverage(r),
    decreases r.len(),
{
    if r.len() == 0 {
        assert(row_cells(r) =~= Set::<int>::empty());
    } else {
        let p = r.drop_last();
        let s = r.last();
        assert(row_ok(p)) by {
            assert forall|i: int| 0 <= i < p.len() implies span_ok(#[trigger] p[i]) by {
                assert(p[i] == r[i]);
            }
            assert forall|i: int, j: int| 0 <= i < j < p.len() implies (#[trigger] p[i]).1 + 1 < (
            #[trigger] p[j]).0 by {
                assert(p[i] == r[i] && p[j] == r[j]);
            }
        }
        lemma_row_cells_len(p);
        assert(span_ok(r[r.len() - 1]));
        if p.len() > 0 {
            assert(p.last() == r[r.len() - 2]);
            assert(r[r.len() - 2].1 + 1 < r[r.len() - 1].0);
        }
        lemma_row_push(p, s);
        assert(p.push(s) =~= r);
        lemma_int_range(s.0, s.1 + 1);
        lemma_set_disjoint_lens(row_cells(p), set_int_range(s.0, s.1 + 1));
    }
}

/// Any stretch of a valid row is a valid row.
pub proof fn lemma_row_ok_subrange(r: Seq<(int, int)>, a: int, b: int)
    requires
        row_ok(r),
        0 <= a <= b <= r.len(),
    ensures
        row_ok(r.subrange(a, b)),
{
    let p = r.subrange(a, b);
    assert forall|i: int| 0 <= i < p.len() implies span_ok(#[trigger] p[i]) by {
        assert(p[i] == r[a + i]);
    }
    assert forall|i: int, j: int| 0 <= i < j < p.len() implies (#[trigger] p[i]).1 + 1 < (
    #[trigger] p[j]).0 by {
        assert(p[i] == r[a + i] && p[j] == r[a + j]);
    }
}

/// Two valid rows that cover the same columns are the same sequence of
/// spans: a valid row is the list of the maximal runs of its columns.
pub proof fn lemma_row_canonical(a: Seq<(int, int)>, b: Seq<(int, int)>)
    requires
        row_ok(a),
        row_ok(b),
        row_cells(a) == row_cells(b),
    ensures
        a == b,
    decreases a.len(),
{
    if a.len() == 0 {
        if b.len() > 0 {
            assert(span_ok(b[0]));
            assert(span_has(b[0], b[0].0));
            assert(row_cells(b).contains(b[0].0));
            assert(row_has(a, b[0].0));
        }
        assert(a =~= b);
    } else {
        assert(span_ok(a[0]));
        assert(span_has(a[0], a[0].0));
        assert(row_cells(a).contains(a[0].0));
        assert(row_has(b, a[0].0));
        assert(b.len() > 0);
        lemma_first_span(a, b);
        lemma_first_span(b, a);
        assert(a[0] == b[0]);
        let ta = a.subrange(1, a.len() as int);
        let tb = b.subrange(1, b.len() as int);
        lemma_row_ok_subrange(a, 1, a.len() as int);
        lemma_row_ok_subrange(b, 1, b.len() as int);
        lemma_tail_cells(a);
        lemma_tail_cells(b);
        assert(row_cells(ta) =~= row_cells(tb)) by {
            assert forall|x: int| row_has(ta, x) <==> row_has(tb, x) by {
                assert(row_cells(a).contains(x) <==> row_has(a, x));
                assert(row_cells(b).contains(x) <==> row_has(b, x));
                assert(a[0].1 == b[0].1);
            }
        }
        lemma_row_canonical(ta, tb);
        assert(a =~= b) by {
            assert forall|i: int| 0 <= i < a.len() implies a[i] == b[i] by {
                if i > 0 {
                    assert(ta[i - 1] == a[i]);
                    assert(tb[i - 1] == b[i]);
                }
            }
            assert(a.len() == ta.len() + 1);
            assert(b.len() == tb.len() + 1);
        }
    }
}

/// Among valid rows with the same columns, the first span of one starts no
/// later and ends no earlier than the first span of the other.
proof fn lemma_first_span(a: Seq<(int, int)>, b: Seq<(int, int)>)
    requires
        row_ok(a),
        row_ok(b),
        row_cells(a) == row_cells(b),
        a.len() > 0,
        b.len() > 0,
    ensures
        a[0].0 <= b[0].0,
        a[0].0 == b[0].0 ==> a[0].1 >= b[0].1,
{
    assert(span_ok(a[0]) && span_ok(b[0]));
    // the first column of `b` lies in some span of `a`, none of which starts before `a[0]`
    assert(span_has(b[0], b[0].0));
    assert(row_cells(b).contains(b[0].0));
    assert(row_has(a, b[0].0));
    let i = choose|i: int| 0 <= i < a.len() && span_has(#[trigger] a[i], b[0].0);
    if i > 0 {
        assert(a[0].1 + 1 < a[i].0);
    }
    if a[0].0 == b[0].0 && a[0].1 < b[0].1 {
        // the column right after `a[0]` is covered by `b[0]` but by no span of `a`
        let x = a[0].1 + 1;
        assert(span_has(b[0], x));
        assert(row_cells(b).contains(x));
        assert(row_has(a, x));
        let k = choose|k: int| 0 <= k < a.len() && span_has(#[trigger] a[k], x);
        if k > 0 {
            assert(a[0].1 + 1 < a[k].0);
        }
    }
}

/// The columns of a row without its first span are the columns beyond that
/// span.
proof fn lemma_tail_cells(a: Seq<(int, int)>)
    requires
        row_ok(a),
        a.len() > 0,
    ensures
        forall|x: int|
            row_has(a.subrange(1, a.len() as int), x) <==> (row_has(a, x) && x > a[0].1),
{
    let t = a.subrange(1, a.len() as int);
    assert forall|x: int| row_has(t, x) <==> (row_has(a, x) && x > a[0].1) by {
        if row_has(t, x) {
            let i = choose|i: int| 0 <= i < t.len() && span_has(#[trigger] t[i], x);
            assert(t[i] == a[i + 1]);
            assert(span_has(a[i + 1], x));
            assert(a[0].1 + 1 < a[i + 1].0);
        }
        if row_has(a, x) && x > a[0].1 {
            let i = choose|i: int| 0 <= i < a.len() && span_has(#[trigger] a[i], x);
            assert(i > 0);
            assert(t[i - 1] == a[i]);
            assert(span_has(t[i - 1], x));
        }
    }
}

/// A region as a value: the row number of its first row, and its rows from
/// that row upwards.
pub struct AreaView {
    pub min_y: int,
    pub rows: Seq<Seq<(int, int)>>,
}

/// A region is valid when it has at least one row, its rows fit the grid and
/// each row is valid.
pub open spec fn area_ok(a: AreaView) -> bool {
    &&& a.rows.len() >= 1
    &&& i16::MIN <= a.min_y
    &&& a.min_y + a.rows.len() - 1 <= i16::MAX
    &&& forall|i: int| 0 <= i < a.rows.len() ==> row_ok(#[trigger] a.rows[i])
}

/// A region is trimmed when neither its first nor its last row is empty.
pub open spec fn area_trimmed(a: AreaView) -> bool {
    &&& a.rows.len() >= 1
    &&& a.rows.first().len() > 0
    &&& a.rows.last().len() > 0
}

/// The row number of the last row.
pub open spec fn area_max_y(a: AreaView) -> int {
    a.min_y + a.rows.len() - 1
}

/// Whether the region covers column `x` of row `y`.
pub open spec fn area_has(a: AreaView, x: int, y: int) -> bool {
    a.min_y <= y < a.min_y + a.rows.len() && row_has(a.rows[y - a.min_y], x)
}

/// The cells `(x, y)` a region covers.
pub open spec fn area_cells(a: AreaView) -> Set<(int, int)> {
    Set::new(|c: (int, int)| area_has(a, c.0, c.1))
}

/// The number of columns that the rows cover, summed row by row.
pub open spec fn rows_coverage(rows: Seq<Seq<(int, int)>>) -> nat
    decreases rows.len(),
{
    if rows.len() == 0 {
        0
    } else {
        rows_coverage(rows.drop_last()) + row_coverage(rows.last())
    }
}

/// The number of cells a region covers, summed row by row.
pub open spec fn area_coverage(a: AreaView) -> nat {
    rows_coverage(a.rows)
}

/// Whether the column extents of two rows overlap: both rows are non-empty
/// and neither ends before the other starts.
pub open spec fn row_extents_overlap(a: Seq<(int, int)>, b: Seq<(int, int)>) -> bool {
    &&& a.len() > 0
    &&& b.len() > 0
    &&& a.last().1 >= b.first().0
    &&& b.last().1 >= a.first().0
}

/// Whether two regions share a row on which their column extents overlap.
pub open spec fn area_extents_overlap(a: AreaView, b: AreaView) -> bool {
    exists|y: int|
        a.min_y <= y <= area_max_y(a) && b.min_y <= y <= area_max_y(b) && #[trigger] row_extents_overlap(
            a.rows[y - a.min_y],
            b.rows[y - b.min_y],
        )
}

/// The columns of a span in ascending order.
pub open spec fn span_columns(s: (int, int)) -> Seq<int> {
    Seq::new((s.1 - s.0 + 1) as nat, |k: int| s.0 + k)
}

/// The columns of a row in ascending order.
pub open spec fn row_columns(r: Seq<(int, int)>) -> Seq<int>
    decreases r.len(),
{
    if r.len() == 0 {
        Seq::empty()
    } else {
        row_columns(r.drop_last()) + span_columns(r.last())
    }
}

/// The number of empty rows at the start.
pub open spec fn leading_empty(rows: Seq<Seq<(int, int)>>) -> nat
    decreases rows.len(),
{
    if rows.len() == 0 || rows.first().len() > 0 {
        0
    } else {
        1 + leading_empty(rows.drop_first())
    }
}

/// The number of empty rows at the end.
pub open spec fn trailing_empty(rows: Seq<Seq<(int, int)>>) -> nat
    decreases rows.len(),
{
    if rows.len() == 0 || rows.last().len() > 0 {
        0
    } else {
        1 + trailing_empty(rows.drop_last())
    }
}

/// A region without its empty rows at either end; nothing when all of its
/// rows are empty.
pub open spec fn area_trim(a: AreaView) -> Option<AreaView> {
    let lead = leading_empty(a.rows) as int;
    let trail = trailing_empty(a.rows) as int;
    if lead == a.rows.len() {
        None
    } else {
        Some(AreaView { min_y: a.min_y + lead, rows: a.rows.subrange(lead, a.rows.len() - trail) })
    }
}

/// A valid row spans no more columns than lie between its first and its last
/// column.
pub proof fn lemma_row_coverage_bound(r: Seq<(int, int)>)
    requires
        row_ok(r),
    ensures
        r.len() > 0 ==> row_coverage(r) <= r.last().1 - r.first().0 + 1,
        row_coverage(r) <= 0x1_0000,
    decreases r.len(),
{
    if r.len() > 0 {
        let p = r.drop_last();
        lemma_row_ok_subrange(r, 0, r.len() - 1);
        assert(p =~= r.subrange(0, r.len() - 1));
        lemma_row_coverage_bound(p);
        assert(span_ok(r[r.len() - 1]));
        assert(span_ok(r[0]));
        if p.len() > 0 {
            assert(p.last() == r[r.len() - 2]);
            assert(p.first() == r[0]);
            assert(r[r.len() - 2].1 + 1 < r[r.len() - 1].0);
        }
    }
}

/// The coverage of the rows before `i` is part of the coverage of all rows.
pub proof fn lemma_rows_coverage_prefix(rows: Seq<Seq<(int, int)>>, i: int)
    requires
        0 <= i <= rows.len(),
    ensures
        rows_coverage(rows.take(i)) <= rows_coverage(rows),
    decreases rows.len() - i,
{
    if i < rows.len() {
        lemma_rows_coverage_prefix(rows, i + 1);
        assert(rows.take(i + 1).drop_last() =~= rows.take(i));
    } else {
        assert(rows.take(i) =~= rows);
    }
}

/// What `leading_empty` counts: the rows before it are empty and the row at
/// it, if there is one, is not.
pub proof fn lemma_leading_empty(rows: Seq<Seq<(int, int)>>)
    ensures
        leading_empty(rows) <= rows.len(),
        forall|k: int| 0 <= k < leading_empty(rows) ==> (#[trigger] rows[k]).len() == 0,
        leading_empty(rows) < rows.len() ==> rows[leading_empty(rows) as int].len() > 0,
    decreases rows.len(),
{
    if !(rows.len() == 0 || rows.first().len() > 0) {
        let t = rows.drop_first();
        lemma_leading_empty(t);
        assert forall|k: int| 0 <= k < leading_empty(rows) implies (#[trigger] rows[k]).len()
            == 0 by {
            if k > 0 {
                assert(t[k - 1] == rows[k]);
            }
        }
        if leading_empty(rows) < rows.len() {
            assert(t[leading_empty(t) as int] == rows[leading_empty(rows) as int]);
        }
    }
}

/// The count is the only index with that property.
pub proof fn lemma_leading_empty_is(rows: Seq<Seq<(int, int)>>, n: int)
    requires
        0 <= n <= rows.len(),
        forall|k: int| 0 <= k < n ==> (#[trigger] rows[k]).len() == 0,
        n < rows.len() ==> rows[n].len() > 0,
    ensures
        leading_empty(rows) == n,
{
    lemma_leading_empty(rows);
    let m = leading_empty(rows) as int;
    if m < n {
        assert(rows[m].len() == 0);
    } else if n < m {
        assert(rows[n].len() == 0);
    }
}

/// What `trailing_empty` counts, from the other end.
pub proof fn lemma_trailing_empty(rows: Seq<Seq<(int, int)>>)
    ensures
        trailing_empty(rows) <= rows.len(),
        forall|k: int|
            rows.len() - trailing_empty(rows) <= k < rows.len() ==> (#[trigger] rows[k]).len()
                == 0,
        trailing_empty(rows) < rows.len() ==> rows[rows.len() - trailing_empty(rows) - 1].len()
            > 0,
    decreases rows.len(),
{
    if !(rows.len() == 0 || rows.last().len() > 0) {
        let t = rows.drop_last();
        lemma_trailing_empty(t);
        assert forall|k: int|
            rows.len() - trailing_empty(rows) <= k < rows.len() implies (#[trigger] rows[k]).len()
            == 0 by {
            if k < rows.len() - 1 {
                assert(t[k] == rows[k]);
            }
        }
        if trailing_empty(rows) < rows.len() {
            assert(t[t.len() - trailing_empty(t) - 1] == rows[rows.len() - trailing_empty(rows)
                - 1]);
        }
    }
}

/// The count is the only number with that property.
pub proof fn lemma_trailing_empty_is(rows: Seq<Seq<(int, int)>>, n: int)
    requires
        0 <= n <= rows.len(),
        forall|k: int| rows.len() - n <= k < rows.len() ==> (#[trigger] rows[k]).len() == 0,
        n < rows.len() ==> rows[rows.len() - n - 1].len() > 0,
    ensures
        trailing_empty(rows) == n,
{
    lemma_trailing_empty(rows);
    let m = trailing_empty(rows) as int;
    if m < n {
        assert(rows[rows.len() - m - 1].len() == 0);
    } else if n < m {
        assert(rows[rows.len() - n - 1].len() == 0);
    }
}

/// Trimming a valid region gives nothing exactly when the region covers no
/// cell, and otherwise a valid, trimmed region with the same cells.
pub proof fn lemma_area_trim(a: AreaView)
    requires
        area_ok(a),
    ensures
        match area_trim(a) {
            Some(t) => area_ok(t) && area_trimmed(t) && area_cells(t) == area_cells(a)
                && area_cells(a).len() > 0 && a.min_y <= t.min_y && area_max_y(t) <= area_max_y(a),
            None => area_cells(a) == Set::<(int, int)>::empty(),
        },
{
    lemma_leading_empty(a.rows);
    lemma_trailing_empty(a.rows);
    let lead = leading_empty(a.rows) as int;
    let trail = trailing_empty(a.rows) as int;
    let n = a.rows.len() as int;
    match area_trim(a) {
        Some(t) => {
            assert(a.rows[lead].len() > 0);
            if n - trail <= lead {
                assert(a.rows[lead].len() == 0);
            }
            assert(t.rows.len() == n - trail - lead);
            assert forall|i: int| 0 <= i < t.rows.len() implies row_ok(#[trigger] t.rows[i]) by {
                assert(t.rows[i] == a.rows[lead + i]);
            }
            assert(t.rows.first() == a.rows[lead]);
            assert(t.rows.last() == a.rows[n - trail - 1]);
            assert forall|c: (int, int)| area_has(t, c.0, c.1) <==> area_has(a, c.0, c.1) by {
                let y = c.1;
                if t.min_y <= y < t.min_y + t.rows.len() {
                    assert(t.rows[y - t.min_y] == a.rows[y - a.min_y]);
                } else if a.min_y <= y < a.min_y + n {
                    assert(a.rows[y - a.min_y].len() == 0);
                }
            }
            assert(area_cells(t) =~= area_cells(a));
            let first = a.rows[lead];
            assert(row_ok(first));
            assert(span_ok(first[0]));
            assert(span_has(first[0], first[0].0));
            assert(area_has(a, first[0].0, a.min_y + lead));
            lemma_area_cells_finite(a);
            assert(area_cells(a).contains((first[0].0, a.min_y + lead)));
            if area_cells(a).len() == 0 {
                assert(area_cells(a) =~= Set::empty()) by {
                    area_cells(a).lemma_len0_is_empty();
                }
            }
        },
        None => {
            assert forall|c: (int, int)| !area_has(a, c.0, c.1) by {
                let y = c.1;
                if a.min_y <= y < a.min_y + n {
                    assert(a.rows[y - a.min_y].len() == 0);
                }
            }
            assert(area_cells(a) =~= Set::empty());
        },
    }
}

/// The cells of one row of a region, as pairs.
pub open spec fn row_cells_at(r: Seq<(int, int)>, y: int) -> Set<(int, int)> {
    Set::new(|c: (int, int)| c.1 == y && row_has(r, c.0))
}

/// The cells of the rows `rows`, the first of which is row `min_y`.
pub open spec fn rows_cells(min_y: int, rows: Seq<Seq<(int, int)>>) -> Set<(int, int)> {
    Set::new(|c: (int, int)| min_y <= c.1 < min_y + rows.len() && row_has(rows[c.1 - min_y], c.0))
}

/// A row covers as many cells as columns.
proof fn lemma_row_cells_at_len(r: Seq<(int, int)>, y: int)
    requires
        row_ok(r),
    ensures
        row_cells_at(r, y).finite(),
        row_cells_at(r, y).len() == row_coverage(r),
{
    lemma_row_cells_len(r);
    let f = |x: int| (x, y);
    assert(injective_on(f, row_cells(r)));
    assert(row_cells(r).map(f) =~= row_cells_at(r, y)) by {
        assert forall|c: (int, int)| row_cells(r).map(f).contains(c) <==> row_cells_at(
            r,
            y,
        ).contains(c) by {
            if row_cells_at(r, y).contains(c) {
                assert(row_cells(r).contains(c.0));
                assert(f(c.0) == c);
            }
        }
    }
    lemma_map_size(row_cells(r), row_cells_at(r, y), f);
}

/// Valid rows cover finitely many cells, as many as they add up to.
proof fn lemma_rows_cells_len(min_y: int, rows: Seq<Seq<(int, int)>>)
    requires
        forall|i: int| 0 <= i < rows.len() ==> row_ok(#[trigger] rows[i]),
    ensures
        rows_cells(min_y, rows).finite(),
        rows_cells(min_y, rows).len() == rows_coverage(rows),
    decreases rows.len(),
{
    if rows.len() == 0 {
        assert(rows_cells(min_y, rows) =~= Set::empty());
    } else {
        let p = rows.drop_last();
        let y = min_y + rows.len() - 1;
        assert forall|i: int| 0 <= i < p.len() implies row_ok(#[trigger] p[i]) by {
            assert(p[i] == rows[i]);
        }
        lemma_rows_cells_len(min_y, p);
        assert(row_ok(rows[rows.len() - 1]));
        lemma_row_cells_at_len(rows.last(), y);
        assert(rows_cells(min_y, rows) =~= rows_cells(min_y, p).union(
            row_cells_at(rows.last(), y),
        )) by {
            assert forall|c: (int, int)|
                rows_cells(min_y, rows).contains(c) <==> (rows_cells(min_y, p).contains(c)
                    || row_cells_at(rows.last(), y).contains(c)) by {
                if min_y <= c.1 < min_y + p.len() {
                    assert(p[c.1 - min_y] == rows[c.1 - min_y]);
                }
            }
        }
        assert(rows_cells(min_y, p).disjoint(row_cells_at(rows.last(), y)));
        lemma_set_disjoint_lens(rows_cells(min_y, p), row_cells_at(rows.last(), y));
    }
}

/// A valid region covers finitely many cells, as many as its rows add up to.
pub proof fn lemma_area_cells_finite(a: AreaView)
    requires
        area_ok(a),
    ensures
        area_cells(a).finite(),
        area_cells(a).len() == area_coverage(a),
{
    lemma_rows_cells_len(a.min_y, a.rows);
    assert(area_cells(a) =~= rows_cells(a.min_y, a.rows));
}

/// A column that lies strictly between the span before index `j` and the
/// span at index `j` is not covered.
pub proof fn lemma_row_gap(r: Seq<(int, int)>, j: int, x: int)
    requires
        row_ok(r),
        0 <= j <= r.len(),
        j > 0 ==> r[j - 1].1 < x,
        j < r.len() ==> x < r[j].0,
    ensures
        !row_has(r, x),
{
    if row_has(r, x) {
        let k = choose|k: int| 0 <= k < r.len() && span_has(#[trigger] r[k], x);
        assert(span_ok(r[k]));
        if k < j {
            if k < j - 1 {
                assert(r[k].1 + 1 < r[j - 1].0);
                assert(span_ok(r[j - 1]));
            }
        } else {
            if k > j {
                assert(r[j].1 + 1 < r[k].0);
                assert(span_ok(r[j]));
            }
        }
    }
}

/// Rows whose column extents do not overlap share no column.
pub proof fn lemma_extents_apart(a: Seq<(int, int)>, b: Seq<(int, int)>)
    requires
        row_ok(a),
        row_ok(b),
        !row_extents_overlap(a, b),
    ensures
        forall|x: int| row_has(a, x) ==> !row_has(b, x),
{
    assert forall|x: int| row_has(a, x) implies !row_has(b, x) by {
        if row_has(b, x) {
            let i = choose|i: int| 0 <= i < a.len() && span_has(#[trigger] a[i], x);
            let k = choose|k: int| 0 <= k < b.len() && span_has(#[trigger] b[k], x);
            assert(span_ok(a[i]) && span_ok(b[k]));
            assert(span_ok(a[0]) && span_ok(b[0]));
            assert(span_ok(a[a.len() - 1]) && span_ok(b[b.len() - 1]));
            if i > 0 {
                assert(a[0].1 + 1 < a[i].0);
            }
            if i < a.len() - 1 {
                assert(a[i].1 + 1 < a[a.len() - 1].0);
            }
            if k > 0 {
                assert(b[0].1 + 1 < b[k].0);
            }
            if k < b.len() - 1 {
                assert(b[k].1 + 1 < b[b.len() - 1].0);
            }
        }
    }
}

/// What remains of `back` once `front` hides part of it: nothing when every
/// cell of `back` is a cell of `front`, and otherwise the valid, trimmed
/// region whose cells are those of `back` that are not cells of `front`.
pub open spec fn is_cull(back: AreaView, front: AreaView, rest: Option<AreaView>) -> bool {
    match rest {
        Some(v) => area_ok(v) && area_trimmed(v) && area_cells(v) == area_cells(back).difference(
            area_cells(front),
        ),
        None => area_cells(back).subset_of(area_cells(front)),
    }
}

/// In a valid row, no span starts before the first or ends after the last.
pub proof fn lemma_row_extent(r: Seq<(int, int)>, x: int)
    requires
        row_ok(r),
        row_has(r, x),
    ensures
        r.len() > 0,
        r.first().0 <= x <= r.last().1,
{
    let i = choose|i: int| 0 <= i < r.len() && span_has(#[trigger] r[i], x);
    assert(span_ok(r[i]) && span_ok(r[0]) && span_ok(r[r.len() - 1]));
    if i > 0 {
        assert(r[0].1 + 1 < r[i].0);
    }
    if i < r.len() - 1 {
        assert(r[i].1 + 1 < r[r.len() - 1].0);
    }
}

/// A non-empty valid row covers its first column.
pub proof fn lemma_row_nonempty(r: Seq<(int, int)>)
    requires
        row_ok(r),
        r.len() > 0,
    ensures
        row_has(r, r.first().0),
        row_has(r, r.last().1),
{
    assert(span_ok(r[0]));
    assert(span_has(r[0], r[0].0));
    assert(span_ok(r[r.len() - 1]));
    assert(span_has(r[r.len() - 1], r[r.len() - 1].1));
}

/// Two valid, trimmed regions that cover the same cells are the same region:
/// same first row, same rows.
pub proof fn lemma_area_canonical(a: AreaView, b: AreaView)
    requires
        area_ok(a),
        area_trimmed(a),
        area_ok(b),
        area_trimmed(b),
        area_cells(a) == area_cells(b),
    ensures
        a == b,
{
    lemma_area_rows_within(a, b);
    lemma_area_rows_within(b, a);
    assert(a.min_y == b.min_y);
    assert(a.rows.len() == b.rows.len());
    assert forall|i: int| 0 <= i < a.rows.len() implies a.rows[i] == b.rows[i] by {
        let y = a.min_y + i;
        assert(row_ok(a.rows[i]) && row_ok(b.rows[i]));
        assert forall|x: int| row_has(a.rows[i], x) <==> row_has(b.rows[i], x) by {
            assert(area_cells(a).contains((x, y)) <==> area_has(a, x, y));
            assert(area_cells(b).contains((x, y)) <==> area_has(b, x, y));
        }
        assert(row_cells(a.rows[i]) =~= row_cells(b.rows[i]));
        lemma_row_canonical(a.rows[i], b.rows[i]);
    }
    assert(a.rows =~= b.rows);
}

/// The rows of a valid, trimmed region lie among the rows of any region
/// that covers the same cells.
proof fn lemma_area_rows_within(a: AreaView, b: AreaView)
    requires
        area_ok(a),
        area_trimmed(a),
        area_cells(a) == area_cells(b),
    ensures
        b.min_y <= a.min_y,
        area_max_y(a) <= area_max_y(b),
{
    let first = a.rows[0];
    let last = a.rows[a.rows.len() - 1];
    assert(row_ok(first) && row_ok(last));
    lemma_row_nonempty(first);
    lemma_row_nonempty(last);
    assert(area_has(a, first.first().0, a.min_y));
    assert(area_cells(a).contains((first.first().0, a.min_y)));
    assert(area_has(b, first.first().0, a.min_y));
    assert(area_has(a, last.first().0, area_max_y(a)));
    assert(area_cells(a).contains((last.first().0, area_max_y(a))));
    assert(area_has(b, last.first().0, area_max_y(a)));
}

/// Regions whose column extents overlap on no shared row share no cell.
pub proof fn lemma_area_extents_apart(a: AreaView, b: AreaView)
    requires
        area_ok(a),
        area_ok(b),
        !area_extents_overlap(a, b),
    ensures
        area_cells(a).disjoint(area_cells(b)),
{
    assert forall|c: (int, int)| !(area_has(a, c.0, c.1) && area_has(b, c.0, c.1)) by {
        let y = c.1;
        if area_has(a, c.0, c.1) && area_has(b, c.0, c.1) {
            assert(!row_extents_overlap(a.rows[y - a.min_y], b.rows[y - b.min_y]));
            assert(row_ok(a.rows[y - a.min_y]) && row_ok(b.rows[y - b.min_y]));
            lemma_extents_apart(a.rows[y - a.min_y], b.rows[y - b.min_y]);
        }
    }
}

/// The number of cells of what may remain of a region.
pub open spec fn rest_coverage(rest: Option<AreaView>) -> nat {
    match rest {
        Some(v) => area_coverage(v),
        None => 0,
    }
}

/// Whether row `front` covers every column from the first to the last column
/// of row `back`.
pub open spec fn row_extent_within(back: Seq<(int, int)>, front: Seq<(int, int)>) -> bool {
    forall|x: int| back.first().0 <= x <= back.last().1 ==> #[trigger] row_has(front, x)
}

/// Whether every non-empty row of `back` is a row of `front` on which
/// `front` covers every column from the first to the last column of `back`.
pub open spec fn area_extent_within(back: AreaView, front: AreaView) -> bool {
    forall|y: int|
        back.min_y <= y <= area_max_y(back) && (#[trigger] back.rows[y - back.min_y]).len() > 0 ==> {
            &&& front.min_y <= y <= area_max_y(front)
            &&& row_extent_within(back.rows[y - back.min_y], front.rows[y - front.min_y])
        }
}

} // verus!
