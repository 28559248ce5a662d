//! Scanline regions: [`Range`], [`Line`] and [`Area`].

use crate::model::{
    area_coverage, area_extents_overlap, area_max_y, area_ok, area_trim, area_trimmed,
    lemma_area_trim, lemma_leading_empty_is, lemma_row_coverage_bound, lemma_row_ok_from_adjacent,
    lemma_row_ok_subrange,
    lemma_rows_coverage_prefix, lemma_trailing_empty_is, row_columns, row_coverage,
    row_extents_overlap, row_ok, row_ok_adjacent, rows_coverage, span_columns, span_ok, AreaView,
};
use vstd::prelude::*;

verus! {

/// A closed interval of columns on one row.
#[derive(Debug, Clone, Copy)]
pub struct Range {
    from: i16,
    to_inclusive: i16,
}

impl View for Range {
    type V = (int, int);

    /// The span from the first to the last column.
    closed spec fn view(&self) -> (int, int) {
        (self.from as int, self.to_inclusive as int)
    }
}

impl Range {
    /// The interval from `from` to `to_inclusive`, both included.
    #[must_use]
    pub fn new(from: i16, to_inclusive: i16) -> (r: Self)
        requires
            from <= to_inclusive,
        ensures
            r@ == (from as int, to_inclusive as int),
            span_ok(r@),
    {
        Self { from, to_inclusive }
    }

    /// The first column.
    #[must_use]
    pub fn from(self) -> (x: i16)
        ensures
            x == self@.0,
    {
        self.from
    }

    /// The last column.
    #[must_use]
    pub fn to_inclusive(self) -> (x: i16)
        ensures
            x == self@.1,
    {
        self.to_inclusive
    }
}

/// The spans of a sequence of ranges.
pub open spec fn spans_of(v: Seq<Range>) -> Seq<(int, int)> {
    v.map_values(|r: Range| r@)
}

/// The covered intervals of one row, in ascending order.
#[derive(Debug)]
pub struct Line {
    ranges: Vec<Range>,
}

impl View for Line {
    type V = Seq<(int, int)>;

    /// The spans of the ranges, from left to right.
    closed spec fn view(&self) -> Seq<(int, int)> {
        spans_of(self.ranges@)
    }
}

impl Clone for Line {
    /// A row with the same ranges.
    fn clone(&self) -> (r: Self)
        ensures
            r@ == self@,
    {
        let mut ranges: Vec<Range> = Vec::with_capacity(self.ranges.len());
        let mut i: usize = 0;
        while i < self.ranges.len()
            invariant
                i <= self.ranges.len(),
                ranges@ == self.ranges@.take(i as int),
            decreases self.ranges.len() - i,
        {
            ranges.push(self.ranges[i]);
            assert(self.ranges@.take(i + 1) =~= self.ranges@.take(i as int).push(
                self.ranges@[i as int],
            ));
            i += 1;
        }
        assert(self.ranges@.take(i as int) =~= self.ranges@);
        Line { ranges }
    }
}

impl Line {
    /// A row is well formed when its view is a valid row.
    pub open spec fn wf(&self) -> bool {
        row_ok(self@)
    }

    /// A row of the given ranges: ascending, and each at least two columns
    /// beyond the end of the one before it.
    #[must_use]
    pub fn new(ranges: Vec<Range>) -> (r: Self)
        requires
            row_ok_adjacent(spans_of(ranges@)),
        ensures
            r@ == spans_of(ranges@),
            r.wf(),
    {
        proof {
            lemma_row_ok_from_adjacent(spans_of(ranges@));
        }
        Self { ranges }
    }

    /// The number of ranges.
    #[must_use]
    pub fn len(&self) -> (n: usize)
        ensures
            n == self@.len(),
    {
        self.ranges.len()
    }

    /// Whether the row covers no column.
    #[must_use]
    pub fn is_empty(&self) -> (e: bool)
        ensures
            e == (self@.len() == 0),
    {
        self.ranges.len() == 0
    }

    /// The `i`-th range from the left.
    #[must_use]
    pub fn get(&self, i: usize) -> (r: Range)
        requires
            i < self@.len(),
        ensures
            r@ == self@[i as int],
    {
        self.ranges[i]
    }

    /// Every covered column, ascending.
    #[must_use]
    pub fn iter_x(&self) -> (xs: Vec<i16>)
        requires
            self.wf(),
        ensures
            xs@.map_values(|x: i16| x as int) == row_columns(self@),
    {
        let mut xs: Vec<i16> = Vec::new();
        let mut i: usize = 0;
        while i < self.ranges.len()
            invariant
                i <= self.ranges.len(),
                self.wf(),
                xs@.map_values(|x: i16| x as int) == row_columns(self@.take(i as int)),
            decreases self.ranges.len() - i,
        {
            let range = self.ranges[i];
            assert(span_ok(self@[i as int]));
            let ghost before = xs@.map_values(|x: i16| x as int);
            let ghost span = self@[i as int];
            let mut x: i32 = range.from as i32;
            while x <= range.to_inclusive as i32
                invariant
                    range.from <= x <= range.to_inclusive + 1,
                    span == (range.from as int, range.to_inclusive as int),
                    xs@.map_values(|x: i16| x as int) == before + span_columns(span).take(
                        x - range.from,
                    ),
                decreases range.to_inclusive + 1 - x,
            {
                let ghost prev = xs@;
                xs.push(x as i16);
                assert(xs@.map_values(|x: i16| x as int) =~= prev.map_values(|x: i16| x as int).push(
                    x as int,
                ));
                assert(span_columns(span).take(x + 1 - range.from) =~= span_columns(span).take(
                    x - range.from,
                ).push(x as int));
                assert(before + span_columns(span).take(x + 1 - range.from) =~= (before
                    + span_columns(span).take(x - range.from)).push(x as int));
                x += 1;
            }
            assert(span_columns(span).take(x - range.from) =~= span_columns(span));
            assert(self@.take(i + 1).drop_last() =~= self@.take(i as int));
            assert(self@.take(i + 1).last() == span);
            i += 1;
        }
        assert(self@.take(i as int) =~= self@);
        xs
    }

    /// Whether the column extents of the two rows overlap. Rows may pass this
    /// test and yet share no column.
    #[must_use]
    pub fn intersects(&self, other: &Line) -> (b: bool)
        ensures
            b == row_extents_overlap(self@, other@),
    {
        match (self.min_x(), self.max_x(), other.min_x(), other.max_x()) {
            (Some(min_x), Some(max_x), Some(other_min_x), Some(other_max_x)) => {
                max_x >= other_min_x && other_max_x >= min_x
            },
            _ => false,
        }
    }

    /// The number of covered columns.
    #[must_use]
    pub fn coverage(&self) -> (n: Option<usize>)
        requires
            self.wf(),
        ensures
            n == Some(row_coverage(self@) as usize),
            row_coverage(self@) <= 0x1_0000,
    {
        let mut total: usize = 0;
        let mut i: usize = 0;
        while i < self.ranges.len()
            invariant
                i <= self.ranges.len(),
                self.wf(),
                total == row_coverage(self@.take(i as int)),
                total <= 0x1_0000,
            decreases self.ranges.len() - i,
        {
            let range = self.ranges[i];
            proof {
                let next = self@.take(i + 1);
                assert(next.drop_last() =~= self@.take(i as int));
                assert(next.last() == self@[i as int]);
                lemma_row_ok_subrange(self@, 0, i + 1);
                assert(next =~= self@.subrange(0, i + 1));
                lemma_row_coverage_bound(next);
                assert(span_ok(self@[i as int]));
            }
            let width: i32 = range.to_inclusive as i32 - range.from as i32 + 1;
            total = total + width as usize;
            i += 1;
        }
        assert(self@.take(i as int) =~= self@);
        Some(total)
    }

    /// The leftmost covered column.
    #[must_use]
    pub fn min_x(&self) -> (x: Option<i16>)
        ensures
            match x {
                Some(x) => self@.len() > 0 && x == self@.first().0,
                None => self@.len() == 0,
            },
    {
        if self.ranges.len() == 0 {
            None
        } else {
            Some(self.ranges[0].from())
        }
    }

    /// The rightmost covered column.
    #[must_use]
    pub fn max_x(&self) -> (x: Option<i16>)
        ensures
            match x {
                Some(x) => self@.len() > 0 && x == self@.last().1,
                None => self@.len() == 0,
            },
    {
        if self.ranges.len() == 0 {
            None
        } else {
            Some(self.ranges[self.ranges.len() - 1].to_inclusive())
        }
    }
}

/// The rows of a sequence of lines.
pub open spec fn rows_of(v: Seq<Line>) -> Seq<Seq<(int, int)>> {
    v.map_values(|l: Line| l@)
}

/// A filled region: one [`Line`] for every row from `min_y` to `max_y`.
#[derive(Debug)]
pub struct Area {
    lines: Vec<Line>,
    min_y: i16,
}

impl View for Area {
    type V = AreaView;

    /// The number of the first row, and the rows from that row upwards.
    closed spec fn view(&self) -> AreaView {
        AreaView { min_y: self.min_y as int, rows: rows_of(self.lines@) }
    }
}

impl Clone for Area {
    /// A region with the same rows.
    fn clone(&self) -> (r: Self)
        ensures
            r@ == self@,
    {
        let mut lines: Vec<Line> = Vec::with_capacity(self.lines.len());
        let mut i: usize = 0;
        while i < self.lines.len()
            invariant
                i <= self.lines.len(),
                rows_of(lines@) == rows_of(self.lines@).take(i as int),
            decreases self.lines.len() - i,
        {
            let ghost prev = lines@;
            let line = self.lines[i].clone();
            lines.push(line);
            assert(rows_of(lines@) =~= rows_of(prev).push(line@));
            assert(rows_of(self.lines@).take(i + 1) =~= rows_of(self.lines@).take(i as int).push(
                self.lines@[i as int]@,
            ));
            i += 1;
        }
        assert(rows_of(self.lines@).take(i as int) =~= rows_of(self.lines@));
        Area { lines, min_y: self.min_y }
    }
}

impl Area {
    /// A region is well formed when its view is a valid region.
    pub open spec fn wf(&self) -> bool {
        area_ok(self@)
    }

    /// A region of the given rows, the first of which is row `min_y`.
    #[must_use]
    pub fn new(lines: Vec<Line>, min_y: i16) -> (a: Self)
        requires
            area_ok(AreaView { min_y: min_y as int, rows: rows_of(lines@) }),
        ensures
            a@ == (AreaView { min_y: min_y as int, rows: rows_of(lines@) }),
            a.wf(),
    {
        Self { lines, min_y }
    }

    /// Every row with its row number, ascending.
    #[must_use]
    pub fn iter(&self) -> (rows: Vec<(i16, &Line)>)
        requires
            self.wf(),
        ensures
            rows@.len() == self@.rows.len(),
            forall|i: int|
                0 <= i < rows@.len() ==> (#[trigger] rows@[i]).0 == self@.min_y + i
                    && rows@[i].1@ == self@.rows[i],
    {
        let mut rows: Vec<(i16, &Line)> = Vec::with_capacity(self.lines.len());
        let mut i: usize = 0;
        while i < self.lines.len()
            invariant
                i <= self.lines.len(),
                self.wf(),
                rows@.len() == i,
                forall|k: int|
                    0 <= k < i ==> (#[trigger] rows@[k]).0 == self@.min_y + k && rows@[k].1@
                        == self@.rows[k],
            decreases self.lines.len() - i,
        {
            let y: i32 = self.min_y as i32 + i as i32;
            rows.push((y as i16, &self.lines[i]));
            i += 1;
        }
        rows
    }

    /// The row numbered `y`, if the region has one.
    #[must_use]
    pub fn line(&self, y: i16) -> (l: Option<&Line>)
        requires
            self.wf(),
        ensures
            match l {
                Some(l) => self@.min_y <= y <= area_max_y(self@) && l@ == self@.rows[y
                    - self@.min_y],
                None => y < self@.min_y || y > area_max_y(self@),
            },
    {
        if y < self.min_y || y > self.max_y() {
            return None;
        }
        let index: i32 = y as i32 - self.min_y as i32;
        Some(&self.lines[index as usize])
    }

    /// Whether the regions share a row on which their column extents
    /// overlap. Regions may pass this test and yet share no cell.
    #[must_use]
    pub fn intersects(&self, other: &Area) -> (b: bool)
        requires
            self.wf(),
            other.wf(),
        ensures
            b == area_extents_overlap(self@, other@),
    {
        let self_max = self.max_y();
        let other_max = other.max_y();
        if self.min_y > other_max || other.min_y > self_max {
            return false;
        }
        let from_y: i16 = if self.min_y > other.min_y {
            self.min_y
        } else {
            other.min_y
        };
        let to_y: i16 = if self_max < other_max {
            self_max
        } else {
            other_max
        };
        let mut y: i32 = from_y as i32;
        while y <= to_y as i32
            invariant
                self.wf(),
                other.wf(),
                from_y <= y <= to_y + 1,
                from_y == if self@.min_y > other@.min_y {
                    self@.min_y
                } else {
                    other@.min_y
                },
                to_y == if area_max_y(self@) < area_max_y(other@) {
                    area_max_y(self@)
                } else {
                    area_max_y(other@)
                },
                forall|z: int|
                    from_y <= z < y ==> !#[trigger] row_extents_overlap(
                        self@.rows[z - self@.min_y],
                        other@.rows[z - other@.min_y],
                    ),
            decreases to_y + 1 - y,
        {
            let mine = &self.lines[(y - self.min_y as i32) as usize];
            let theirs = &other.lines[(y - other.min_y as i32) as usize];
            if mine.intersects(theirs) {
                assert(row_extents_overlap(
                    self@.rows[y - self@.min_y],
                    other@.rows[y - other@.min_y],
                ));
                return true;
            }
            y += 1;
        }
        false
    }

    /// The number of covered cells.
    #[must_use]
    pub fn coverage(&self) -> (n: usize)
        requires
            self.wf(),
            area_coverage(self@) <= usize::MAX,
        ensures
            n == area_coverage(self@),
    {
        let mut total: usize = 0;
        let mut i: usize = 0;
        while i < self.lines.len()
            invariant
                i <= self.lines.len(),
                self.wf(),
                area_coverage(self@) <= usize::MAX,
                total == rows_coverage(self@.rows.take(i as int)),
            decreases self.lines.len() - i,
        {
            proof {
                let next = self@.rows.take(i + 1);
                assert(next.drop_last() =~= self@.rows.take(i as int));
                assert(next.last() == self@.rows[i as int]);
                lemma_rows_coverage_prefix(self@.rows, i + 1);
                assert(row_ok(self@.rows[i as int]));
            }
            match self.lines[i].coverage() {
                Some(n) => {
                    total = total + n;
                },
                None => {},
            }
            i += 1;
        }
        assert(self@.rows.take(i as int) =~= self@.rows);
        total
    }

    /// The number of the first row.
    #[must_use]
    pub fn min_y(&self) -> (y: i16)
        ensures
            y == self@.min_y,
    {
        self.min_y
    }

    /// The number of the last row.
    #[must_use]
    pub fn max_y(&self) -> (y: i16)
        requires
            self.wf(),
        ensures
            y == area_max_y(self@),
    {
        let y: i32 = self.min_y as i32 + (self.lines.len() as i32 - 1);
        y as i16
    }

    /// The leftmost covered column of all rows.
    #[must_use]
    pub fn min_x(&self) -> (x: Option<i16>)
        ensures
            match x {
                Some(x) => {
                    &&& exists|i: int|
                        0 <= i < self@.rows.len() && (#[trigger] self@.rows[i]).len() > 0
                            && self@.rows[i].first().0 == x
                    &&& forall|i: int|
                        0 <= i < self@.rows.len() && (#[trigger] self@.rows[i]).len() > 0 ==> x
                            <= self@.rows[i].first().0
                },
                None => forall|i: int|
                    0 <= i < self@.rows.len() ==> (#[trigger] self@.rows[i]).len() == 0,
            },
    {
        let mut best: Option<i16> = None;
        let mut i: usize = 0;
        while i < self.lines.len()
            invariant
                i <= self.lines.len(),
                match best {
                    Some(x) => {
                        &&& exists|k: int|
                            0 <= k < i && (#[trigger] self@.rows[k]).len() > 0
                                && self@.rows[k].first().0 == x
                        &&& forall|k: int|
                            0 <= k < i && (#[trigger] self@.rows[k]).len() > 0 ==> x
                                <= self@.rows[k].first().0
                    },
                    None => forall|k: int| 0 <= k < i ==> (#[trigger] self@.rows[k]).len() == 0,
                },
            decreases self.lines.len() - i,
        {
            match self.lines[i].min_x() {
                Some(x) => {
                    assert(self@.rows[i as int].len() > 0);
                    match best {
                        Some(b) => {
                            if x < b {
                                best = Some(x);
                            }
                        },
                        None => {
                            best = Some(x);
                        },
                    }
                },
                None => {},
            }
            i += 1;
        }
        best
    }

    /// The rightmost covered column of all rows.
    #[must_use]
    pub fn max_x(&self) -> (x: Option<i16>)
        ensures
            match x {
                Some(x) => {
                    &&& exists|i: int|
                        0 <= i < self@.rows.len() && (#[trigger] self@.rows[i]).len() > 0
                            && self@.rows[i].last().1 == x
                    &&& forall|i: int|
                        0 <= i < self@.rows.len() && (#[trigger] self@.rows[i]).len() > 0 ==> x
                            >= self@.rows[i].last().1
                },
                None => forall|i: int|
                    0 <= i < self@.rows.len() ==> (#[trigger] self@.rows[i]).len() == 0,
            },
    {
        let mut best: Option<i16> = None;
        let mut i: usize = 0;
        while i < self.lines.len()
            invariant
                i <= self.lines.len(),
                match best {
                    Some(x) => {
                        &&& exists|k: int|
                            0 <= k < i && (#[trigger] self@.rows[k]).len() > 0
                                && self@.rows[k].last().1 == x
                        &&& forall|k: int|
                            0 <= k < i && (#[trigger] self@.rows[k]).len() > 0 ==> x
                                >= self@.rows[k].last().1
                    },
                    None => forall|k: int| 0 <= k < i ==> (#[trigger] self@.rows[k]).len() == 0,
                },
            decreases self.lines.len() - i,
        {
            match self.lines[i].max_x() {
                Some(x) => {
                    assert(self@.rows[i as int].len() > 0);
                    match best {
                        Some(b) => {
                            if x > b {
                                best = Some(x);
                            }
                        },
                        None => {
                            best = Some(x);
                        },
                    }
                },
                None => {},
            }
            i += 1;
        }
        best
    }

    /// Whether neither the first nor the last row is empty.
    pub open spec fn is_trimmed(&self) -> bool {
        area_trimmed(self@)
    }

    /// The region without its empty rows at either end; nothing when every
    /// row is empty.
    #[must_use]
    pub fn optimize(&self) -> (t: Option<Area>)
        requires
            self.wf(),
        ensures
            match t {
                Some(t) => area_trim(self@) == Some(t@) && t.wf() && t.is_trimmed(),
                None => area_trim(self@) is None,
            },
    {
        let n = self.lines.len();
        let mut start: usize = 0;
        while start < n && self.lines[start].is_empty()
            invariant
                n == self.lines.len(),
                start <= n,
                forall|k: int| 0 <= k < start ==> (#[trigger] self@.rows[k]).len() == 0,
            decreases n - start,
        {
            start += 1;
        }
        proof {
            lemma_leading_empty_is(self@.rows, start as int);
        }
        if start == n {
            return None;
        }
        let mut end: usize = n - 1;
        while end > start && self.lines[end].is_empty()
            invariant
                n == self.lines.len(),
                start <= end < n,
                self@.rows[start as int].len() > 0,
                forall|k: int| end < k < n ==> (#[trigger] self@.rows[k]).len() == 0,
            decreases end,
        {
            end -= 1;
        }
        proof {
            lemma_trailing_empty_is(self@.rows, n - 1 - end);
        }
        let mut lines: Vec<Line> = Vec::with_capacity(end - start + 1);
        let mut i: usize = start;
        while i <= end
            invariant
                start <= i <= end + 1,
                end < self.lines.len(),
                rows_of(lines@) == self@.rows.subrange(start as int, i as int),
            decreases end + 1 - i,
        {
            let ghost prev = lines@;
            let line = self.lines[i].clone();
            lines.push(line);
            assert(rows_of(lines@) =~= rows_of(prev).push(line@));
            assert(self@.rows.subrange(start as int, i + 1) =~= self@.rows.subrange(
                start as int,
                i as int,
            ).push(self@.rows[i as int]));
            i += 1;
        }
        proof {
            lemma_area_trim(self@);
        }
        let min_y: i32 = self.min_y as i32 + start as i32;
        Some(Area { lines, min_y: min_y as i16 })
    }
}

} // verus!
