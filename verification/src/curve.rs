//! Discrete outlines: joining fragments, dropping repeated points, and
//! filling the gaps between points that lie further than one step apart.

use crate::point::Point;
use vstd::arithmetic::div_mod::{lemma_fundamental_div_mod, lemma_mod_pos_bound};
use vstd::prelude::*;

verus! {

/// How fragments are joined into one outline.
#[derive(Debug, Clone, Copy)]
pub enum MergeMode {
    /// The fragments follow one another, every second one reversed.
    ZigZag,
    /// Every fragment is followed by the given point.
    Origin(Point),
}

/// The views of a sequence of slices.
pub open spec fn fragments_of(curves: Seq<&[Point]>) -> Seq<Seq<Point>> {
    curves.map_values(|c: &[Point]| c@)
}

/// The fragments one after another, those at odd positions reversed.
pub open spec fn zigzag(curves: Seq<Seq<Point>>) -> Seq<Point>
    decreases curves.len(),
{
    if curves.len() == 0 {
        Seq::empty()
    } else if (curves.len() - 1) % 2 == 0 {
        zigzag(curves.drop_last()) + curves.last()
    } else {
        zigzag(curves.drop_last()) + curves.last().reverse()
    }
}

/// The fragments one after another, each followed by `origin`.
pub open spec fn anchored(curves: Seq<Seq<Point>>, origin: Point) -> Seq<Point>
    decreases curves.len(),
{
    if curves.len() == 0 {
        Seq::empty()
    } else {
        anchored(curves.drop_last(), origin) + curves.last().push(origin)
    }
}

/// The outline that `mode` makes of the fragments.
pub open spec fn merged(curves: Seq<Seq<Point>>, mode: MergeMode) -> Seq<Point> {
    match mode {
        MergeMode::ZigZag => zigzag(curves),
        MergeMode::Origin(origin) => anchored(curves, origin),
    }
}

/// Joins the fragments into one outline.
#[must_use]
pub fn merge(curves: &[&[Point]], mode: MergeMode) -> (outline: Vec<Point>)
    ensures
        outline@ == merged(fragments_of(curves@), mode),
{
    let ghost all = fragments_of(curves@);
    let mut outline: Vec<Point> = Vec::new();
    let mut i: usize = 0;
    while i < curves.len()
        invariant
            i <= curves@.len(),
            all == fragments_of(curves@),
            outline@ == merged(all.take(i as int), mode),
        decreases curves@.len() - i,
    {
        let curve = curves[i];
        let ghost before = outline@;
        proof {
            assert(all.take(i + 1).drop_last() =~= all.take(i as int));
            assert(all.take(i + 1).last() == curve@);
        }
        match mode {
            MergeMode::ZigZag => {
                if i % 2 == 0 {
                    let mut k: usize = 0;
                    while k < curve.len()
                        invariant
                            k <= curve@.len(),
                            outline@ == before + curve@.take(k as int),
                        decreases curve@.len() - k,
                    {
                        outline.push(curve[k]);
                        assert(curve@.take(k + 1) =~= curve@.take(k as int).push(curve@[k as int]));
                        assert(before + curve@.take(k + 1) =~= (before + curve@.take(
                            k as int,
                        )).push(curve@[k as int]));
                        k += 1;
                    }
                    assert(curve@.take(k as int) =~= curve@);
                } else {
                    let mut k: usize = curve.len();
                    while k > 0
                        invariant
                            k <= curve@.len(),
                            outline@ == before + curve@.reverse().take(curve@.len() - k),
                        decreases k,
                    {
                        k -= 1;
                        outline.push(curve[k]);
                        assert(curve@.reverse().take(curve@.len() - k) =~= curve@.reverse().take(
                            curve@.len() - k - 1,
                        ).push(curve@[k as int]));
                        assert(before + curve@.reverse().take(curve@.len() - k) =~= (before
                            + curve@.reverse().take(curve@.len() - k - 1)).push(curve@[k as int]));
                    }
                    assert(curve@.reverse().take(curve@.len() as int) =~= curve@.reverse());
                }
            },
            MergeMode::Origin(origin) => {
                let mut k: usize = 0;
                while k < curve.len()
                    invariant
                        k <= curve@.len(),
                        outline@ == before + curve@.take(k as int),
                    decreases curve@.len() - k,
                {
                    outline.push(curve[k]);
                    assert(curve@.take(k + 1) =~= curve@.take(k as int).push(curve@[k as int]));
                    assert(before + curve@.take(k + 1) =~= (before + curve@.take(k as int)).push(
                        curve@[k as int],
                    ));
                    k += 1;
                }
                assert(curve@.take(k as int) =~= curve@);
                outline.push(origin);
                assert(outline@ =~= before + curve@.push(origin));
            },
        }
        i += 1;
    }
    assert(all.take(i as int) =~= all);
    outline
}

/// The points of `s` without those that repeat the point before them.
pub open spec fn without_repeats(s: Seq<Point>) -> Seq<Point>
    decreases s.len(),
{
    if s.len() <= 1 {
        s
    } else if s[s.len() - 1] == s[s.len() - 2] {
        without_repeats(s.drop_last())
    } else {
        without_repeats(s.drop_last()).push(s.last())
    }
}

/// Whether no point equals the point before it.
pub open spec fn repeat_free(s: Seq<Point>) -> bool {
    forall|i: int| 0 < i < s.len() ==> #[trigger] s[i] != s[i - 1]
}

/// Dropping repeats leaves no repeat, and keeps the first and the last
/// point.
pub proof fn lemma_without_repeats(s: Seq<Point>)
    ensures
        repeat_free(without_repeats(s)),
        without_repeats(s).len() <= s.len(),
        s.len() > 0 ==> without_repeats(s).len() > 0 && without_repeats(s).first() == s.first()
            && without_repeats(s).last() == s.last(),
    decreases s.len(),
{
    if s.len() > 1 {
        lemma_without_repeats(s.drop_last());
    }
}

/// Drops every point that repeats the point before it.
#[must_use]
pub fn drop_repeats(points: &[Point]) -> (kept: Vec<Point>)
    ensures
        kept@ == without_repeats(points@),
        repeat_free(kept@),
{
    let mut kept: Vec<Point> = Vec::new();
    let mut i: usize = 0;
    while i < points.len()
        invariant
            i <= points@.len(),
            kept@ == without_repeats(points@.take(i as int)),
        decreases points@.len() - i,
    {
        let point = points[i];
        proof {
            let next = points@.take(i + 1);
            assert(next.drop_last() =~= points@.take(i as int));
            assert(next.last() == point);
            if i > 0 {
                assert(next[next.len() - 2] == points@[i - 1]);
            }
        }
        if i == 0 || !(points[i - 1].x == point.x && points[i - 1].y == point.y) {
            kept.push(point);
        }
        i += 1;
    }
    proof {
        assert(points@.take(i as int) =~= points@);
        lemma_without_repeats(points@);
    }
    kept
}

/// `m / d` rounded to the nearest integer, halves upwards, for `m >= 0` and
/// `d > 0`.
pub open spec fn half_up(m: int, d: int) -> int {
    (2 * m + d) / (2 * d)
}

/// How far along one axis step `s` of `n` lies, for a total distance `v`
/// along that axis: `v * s / n` rounded to the nearest integer, halves away
/// from zero.
pub open spec fn offset(v: int, s: int, n: int) -> int {
    if v >= 0 {
        half_up(v * s, n)
    } else {
        -half_up((-v) * s, n)
    }
}

/// The distance of `v` from zero.
pub open spec fn abs(v: int) -> int {
    if v >= 0 {
        v
    } else {
        -v
    }
}

/// The number of unit steps from `a` to `b`: the larger of the two
/// distances along the axes.
pub open spec fn step_count(a: Point, b: Point) -> int {
    if abs(b.x - a.x) >= abs(b.y - a.y) {
        abs(b.x - a.x)
    } else {
        abs(b.y - a.y)
    }
}

/// The point at step `s` on the way from `a` to `b`.
pub open spec fn step_point(a: Point, b: Point, s: int) -> Point {
    Point {
        x: (a.x + offset(b.x - a.x, s, step_count(a, b))) as i16,
        y: (a.y + offset(b.y - a.y, s, step_count(a, b))) as i16,
    }
}

/// The points after `a` on the way to `b`, `b` included.
pub open spec fn segment(a: Point, b: Point) -> Seq<Point> {
    Seq::new(step_count(a, b) as nat, |k: int| step_point(a, b, k + 1))
}

/// The outline through `points` with every gap filled.
pub open spec fn interpolated(points: Seq<Point>) -> Seq<Point>
    decreases points.len(),
{
    if points.len() == 0 {
        Seq::empty()
    } else if points.len() == 1 {
        points
    } else {
        interpolated(points.drop_last()) + segment(
            points[points.len() - 2],
            points[points.len() - 1],
        )
    }
}

/// Whether two points are neighbours on the grid, or the same point.
pub open spec fn adjacent(a: Point, b: Point) -> bool {
    abs(b.x - a.x) <= 1 && abs(b.y - a.y) <= 1
}

/// Whether every point is a neighbour of the point before it.
pub open spec fn gap_free(s: Seq<Point>) -> bool {
    forall|i: int| 0 < i < s.len() ==> adjacent(s[i - 1], #[trigger] s[i])
}

/// Rounding `w * s / n` for `0 <= w <= n`: it starts at 0, ends at `w`, and
/// grows by at most one from one step to the next.
proof fn lemma_half_up(w: int, s: int, n: int)
    requires
        0 <= w <= n,
        0 <= s < n,
    ensures
        half_up(w * 0, n) == 0,
        half_up(w * n, n) == w,
        half_up(w * s, n) <= half_up(w * (s + 1), n) <= half_up(w * s, n) + 1,
        0 <= half_up(w * s, n) <= w,
        0 <= half_up(w * (s + 1), n) <= w,
{
    let d = 2 * n;
    let m0 = w * s;
    let m1 = w * (s + 1);
    assert(m1 == m0 + w) by (nonlinear_arith)
        requires
            m0 == w * s,
            m1 == w * (s + 1),
    ;
    assert(0 <= m0 && m0 + w <= w * n) by (nonlinear_arith)
        requires
            m0 == w * s,
            0 <= w,
            0 <= s < n,
    ;
    let q0 = (2 * m0 + n) / d;
    let q1 = (2 * m1 + n) / d;
    let qz = (2 * (w * 0) + n) / d;
    let qn = (2 * (w * n) + n) / d;
    lemma_fundamental_div_mod(2 * m0 + n, d);
    lemma_mod_pos_bound(2 * m0 + n, d);
    lemma_fundamental_div_mod(2 * m1 + n, d);
    lemma_mod_pos_bound(2 * m1 + n, d);
    lemma_fundamental_div_mod(2 * (w * 0) + n, d);
    lemma_mod_pos_bound(2 * (w * 0) + n, d);
    lemma_fundamental_div_mod(2 * (w * n) + n, d);
    lemma_mod_pos_bound(2 * (w * n) + n, d);
    assert(w * 0 == 0) by (nonlinear_arith);
    assert(qz == 0) by (nonlinear_arith)
        requires
            n == d * qz + (n % d),
            0 <= n % d < d,
            d == 2 * n,
            n > 0,
    ;
    assert(qn == w) by (nonlinear_arith)
        requires
            2 * (w * n) + n == d * qn + ((2 * (w * n) + n) % d),
            0 <= (2 * (w * n) + n) % d < d,
            d == 2 * n,
            n > 0,
    ;
    assert(q0 <= q1 <= q0 + 1) by (nonlinear_arith)
        requires
            2 * m0 + n == d * q0 + ((2 * m0 + n) % d),
            0 <= (2 * m0 + n) % d < d,
            2 * m1 + n == d * q1 + ((2 * m1 + n) % d),
            0 <= (2 * m1 + n) % d < d,
            m1 == m0 + w,
            0 <= w <= n,
            d == 2 * n,
            n > 0,
    ;
    assert(0 <= q0) by (nonlinear_arith)
        requires
            2 * m0 + n == d * q0 + ((2 * m0 + n) % d),
            0 <= (2 * m0 + n) % d < d,
            0 <= m0,
            d == 2 * n,
            n > 0,
    ;
    assert(q1 <= w) by (nonlinear_arith)
        requires
            2 * m1 + n == d * q1 + ((2 * m1 + n) % d),
            0 <= (2 * m1 + n) % d < d,
            m1 <= w * n,
            d == 2 * n,
            n > 0,
    ;
}

/// Along one axis the way from `a` to `b` starts at `a`, ends at `b`, stays
/// between the two and moves by at most one per step.
proof fn lemma_offset(v: int, s: int, n: int)
    requires
        abs(v) <= n,
        0 <= s < n,
    ensures
        offset(v, 0, n) == 0,
        offset(v, n, n) == v,
        abs(offset(v, s + 1, n) - offset(v, s, n)) <= 1,
        abs(offset(v, s, n)) <= abs(v),
        abs(offset(v, s + 1, n)) <= abs(v),
        v >= 0 ==> offset(v, s, n) >= 0 && offset(v, s + 1, n) >= 0,
        v <= 0 ==> offset(v, s, n) <= 0 && offset(v, s + 1, n) <= 0,
{
    lemma_half_up(abs(v), s, n);
}

/// The way from `a` to `b` starts at `a`, ends at `b`, stays on the grid and
/// consists of neighbours.
proof fn lemma_step_point(a: Point, b: Point, s: int)
    requires
        0 <= s < step_count(a, b),
    ensures
        step_point(a, b, 0) == a,
        step_point(a, b, step_count(a, b)) == b,
        adjacent(step_point(a, b, s), step_point(a, b, s + 1)),
        step_point(a, b, s + 1).x == a.x + offset(b.x - a.x, s + 1, step_count(a, b)),
        step_point(a, b, s + 1).y == a.y + offset(b.y - a.y, s + 1, step_count(a, b)),
{
    let n = step_count(a, b);
    lemma_offset(b.x - a.x, s, n);
    lemma_offset(b.y - a.y, s, n);
}

/// The filled outline starts and ends where the given outline does.
pub proof fn lemma_interpolated_ends(points: Seq<Point>)
    requires
        points.len() > 0,
    ensures
        interpolated(points).len() > 0,
        interpolated(points).first() == points.first(),
        interpolated(points).last() == points.last(),
    decreases points.len(),
{
    if points.len() > 1 {
        let a = points[points.len() - 2];
        let b = points[points.len() - 1];
        lemma_interpolated_ends(points.drop_last());
        if step_count(a, b) > 0 {
            lemma_step_point(a, b, step_count(a, b) - 1);
        }
    }
}

/// The filled outline has no gaps.
pub proof fn lemma_interpolated_gap_free(points: Seq<Point>)
    ensures
        gap_free(interpolated(points)),
    decreases points.len(),
{
    if points.len() > 1 {
        let a = points[points.len() - 2];
        let b = points[points.len() - 1];
        let head = interpolated(points.drop_last());
        let tail = segment(a, b);
        let all = interpolated(points);
        lemma_interpolated_gap_free(points.drop_last());
        lemma_interpolated_ends(points.drop_last());
        assert(head.last() == a);
        assert forall|i: int| 0 < i < all.len() implies adjacent(all[i - 1], #[trigger] all[i]) by {
            if i < head.len() {
                assert(all[i] == head[i] && all[i - 1] == head[i - 1]);
            } else {
                let k = i - head.len();
                lemma_step_point(a, b, k);
                assert(all[i] == step_point(a, b, k + 1));
                if k == 0 {
                    assert(all[i - 1] == a);
                } else {
                    assert(all[i - 1] == tail[k - 1]);
                }
            }
        }
    }
}

/// `m / d` rounded to the nearest integer, halves upwards.
fn round_half_up(m: i64, d: i64) -> (q: i64)
    requires
        0 <= m <= 0x1_0000_0000,
        0 < d <= 0x1_0000,
    ensures
        q == half_up(m as int, d as int),
{
    (2 * m + d) / (2 * d)
}

/// Fills the gaps of an outline: between two points that are not neighbours,
/// the grid points along the straight line from one to the other are put in,
/// one for every unit step along the longer axis. A point that repeats the
/// point before it is dropped.
#[must_use]
pub fn interpolate(points: &[Point]) -> (outline: Vec<Point>)
    ensures
        outline@ == interpolated(points@),
        gap_free(outline@),
{
    let mut outline: Vec<Point> = Vec::new();
    if points.len() == 0 {
        proof {
            lemma_interpolated_gap_free(points@);
        }
        return outline;
    }
    outline.push(points[0]);
    assert(points@.take(1) =~= seq![points@[0]]);
    let mut i: usize = 1;
    while i < points.len()
        invariant
            1 <= i <= points@.len(),
            outline@ == interpolated(points@.take(i as int)),
        decreases points@.len() - i,
    {
        let a = points[i - 1];
        let b = points[i];
        let dx: i64 = b.x as i64 - a.x as i64;
        let dy: i64 = b.y as i64 - a.y as i64;
        let wx: i64 = if dx >= 0 {
            dx
        } else {
            -dx
        };
        let wy: i64 = if dy >= 0 {
            dy
        } else {
            -dy
        };
        let steps: i64 = if wx >= wy {
            wx
        } else {
            wy
        };
        let ghost before = outline@;
        proof {
            let next = points@.take(i + 1);
            assert(next.drop_last() =~= points@.take(i as int));
            assert(next[next.len() - 2] == a && next[next.len() - 1] == b);
            assert(steps == step_count(a, b));
        }
        let mut step: i64 = 1;
        while step <= steps
            invariant
                1 <= step <= steps + 1,
                steps == step_count(a, b),
                0 <= steps <= 0xffff,
                dx == b.x - a.x,
                dy == b.y - a.y,
                wx == abs(dx as int),
                wy == abs(dy as int),
                outline@ == before + segment(a, b).take(step - 1),
            decreases steps + 1 - step,
        {
            proof {
                lemma_step_point(a, b, step - 1);
                lemma_offset(dx as int, step - 1, steps as int);
                lemma_offset(dy as int, step - 1, steps as int);
                assert(0 <= wx * step <= 0xffff * 0xffff) by (nonlinear_arith)
                    requires
                        0 <= wx <= steps,
                        1 <= step <= steps,
                        steps <= 0xffff,
                ;
                assert(0 <= wy * step <= 0xffff * 0xffff) by (nonlinear_arith)
                    requires
                        0 <= wy <= steps,
                        1 <= step <= steps,
                        steps <= 0xffff,
                ;
                assert(dx >= 0 ==> wx * step == (dx as int) * (step as int));
                assert(dx < 0 ==> wx * step == (-(dx as int)) * (step as int));
                assert(dy >= 0 ==> wy * step == (dy as int) * (step as int));
                assert(dy < 0 ==> wy * step == (-(dy as int)) * (step as int));
            }
            let hx = round_half_up(wx * step, steps);
            let hy = round_half_up(wy * step, steps);
            let ox: i64 = if dx >= 0 {
                hx
            } else {
                -hx
            };
            let oy: i64 = if dy >= 0 {
                hy
            } else {
                -hy
            };
            assert(ox == offset(dx as int, step as int, steps as int));
            assert(oy == offset(dy as int, step as int, steps as int));
            let point = Point { x: (a.x as i64 + ox) as i16, y: (a.y as i64 + oy) as i16 };
            assert(point == step_point(a, b, step as int));
            outline.push(point);
            proof {
                assert(segment(a, b).take(step as int) =~= segment(a, b).take(step - 1).push(
                    point,
                ));
                assert(before + segment(a, b).take(step as int) =~= (before + segment(
                    a,
                    b,
                ).take(step - 1)).push(point));
            }
            step += 1;
        }
        assert(segment(a, b).take(steps as int) =~= segment(a, b));
        i += 1;
    }
    proof {
        assert(points@.take(i as int) =~= points@);
        lemma_interpolated_gap_free(points@);
    }
    outline
}

} // verus!
