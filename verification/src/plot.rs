//! The line of sight of a manipulator: the cells between the body and the tip of an arm.
//!
//! The line is drawn in the octant where `0 <= dy <= dx` by a stepper that walks the major
//! axis and carries an error term, and is then turned into the octant of the offset.

use crate::geometry::PosDiff;
use vstd::prelude::*;

verus! {

/// The absolute value.
pub open spec fn magnitude(v: int) -> int {
    if v < 0 {
        -v
    } else {
        v
    }
}

/// The points that the stepper emits from column `x` on, standing at height `y` with error
/// term `d`. When the error term is positive the stepper climbs inside the column and emits
/// both cells; when it is zero it climbs with the step to the next column.
#[verifier::opaque]
pub open spec fn octant_from(dx: int, dy: int, x: int, y: int, d: int) -> Seq<(int, int)>
    decreases dx - x + 1,
{
    if x > dx {
        Seq::empty()
    } else if d > 0 {
        seq![(x, y), (x, y + 1)] + octant_from(dx, dy, x + 1, y + 1, d - 2 * dx + 2 * dy)
    } else if d == 0 {
        seq![(x, y)] + octant_from(dx, dy, x + 1, y + 1, d - 2 * dx + 2 * dy)
    } else {
        seq![(x, y)] + octant_from(dx, dy, x + 1, y, d + 2 * dy)
    }
}

/// The line from the origin to `(dx, dy)`, for `0 <= dy <= dx`.
pub open spec fn octant_line(dx: int, dy: int) -> Seq<(int, int)> {
    octant_from(dx, dy, 0, 0, dy - dx)
}

/// The point `p` of the first octant, turned into the octant of `o`: the axes are swapped
/// where `o` is steeper than the diagonal, and each coordinate takes the sign of `o`'s.
pub open spec fn oriented(o: PosDiff, p: (int, int)) -> (int, int) {
    let q = if magnitude(o.dx as int) < magnitude(o.dy as int) {
        (p.1, p.0)
    } else {
        p
    };
    (
        if o.dx < 0 {
            -q.0
        } else {
            q.0
        },
        if o.dy < 0 {
            -q.1
        } else {
            q.1
        },
    )
}

/// The cells on the line from the origin to `o`, in order.
pub open spec fn plot_points(o: PosDiff) -> Seq<(int, int)> {
    let ax = magnitude(o.dx as int);
    let ay = magnitude(o.dy as int);
    let line = if ax < ay {
        octant_line(ay, ax)
    } else {
        octant_line(ax, ay)
    };
    line.map_values(|p: (int, int)| oriented(o, p))
}

/// Offsets as mathematical points.
pub open spec fn offsets(v: Seq<PosDiff>) -> Seq<(int, int)> {
    v.map_values(|p: PosDiff| (p.dx as int, p.dy as int))
}

/// Two points are one orthogonal or diagonal step apart.
pub open spec fn king_step(a: (int, int), b: (int, int)) -> bool {
    &&& a != b
    &&& -1 <= b.0 - a.0 <= 1
    &&& -1 <= b.1 - a.1 <= 1
}

/// One step of the stepper.
proof fn lemma_octant_unfold(dx: int, dy: int, x: int, y: int, d: int)
    ensures
        octant_from(dx, dy, x, y, d) == if x > dx {
            Seq::<(int, int)>::empty()
        } else if d > 0 {
            seq![(x, y), (x, y + 1)] + octant_from(dx, dy, x + 1, y + 1, d - 2 * dx + 2 * dy)
        } else if d == 0 {
            seq![(x, y)] + octant_from(dx, dy, x + 1, y + 1, d - 2 * dx + 2 * dy)
        } else {
            seq![(x, y)] + octant_from(dx, dy, x + 1, y, d + 2 * dy)
        },
{
    reveal(octant_from);
}

/// The stepper is on the line: its error term is that of the points emitted so far.
spec fn on_line(dx: int, dy: int, x: int, y: int, d: int) -> bool {
    &&& 0 < dx
    &&& 0 <= dy <= dx
    &&& 0 <= x <= dx + 1
    &&& 0 <= y
    &&& d == dy * (2 * x + 1) - dx * (2 * y + 1)
    &&& 2 * dy - 2 * dx <= d < 2 * dy
}

proof fn lemma_stepper_bounds(dx: int, dy: int, x: int, y: int, d: int)
    requires
        on_line(dx, dy, x, y, d),
        x <= dx,
    ensures
        y <= dy,
        d > 0 ==> y + 1 <= dy,
        d == 0 && x < dx ==> y + 1 <= dy,
        x == dx ==> y == dy && d <= 0,
        d >= 0 ==> on_line(dx, dy, x + 1, y + 1, d - 2 * dx + 2 * dy),
        d < 0 ==> on_line(dx, dy, x + 1, y, d + 2 * dy),
{
    let a = dy * x;
    let b = dx * y;
    let c = dx * dy;
    assert(dy * (2 * x + 1) == 2 * a + dy) by (nonlinear_arith)
        requires
            a == dy * x,
    ;
    assert(dx * (2 * y + 1) == 2 * b + dx) by (nonlinear_arith)
        requires
            b == dx * y,
    ;
    assert(d == 2 * a + dy - 2 * b - dx);
    assert(a <= c) by (nonlinear_arith)
        requires
            a == dy * x,
            c == dx * dy,
            0 <= x <= dx,
            0 <= dy,
    ;
    assert(x < dx ==> a <= c - dy) by (nonlinear_arith)
        requires
            a == dy * x,
            c == dx * dy,
            0 <= x,
            0 <= dy,
    ;
    assert(x == dx ==> a == c) by (nonlinear_arith)
        requires
            a == dy * x,
            c == dx * dy,
    ;
    assert(y >= dy + 1 ==> b >= c + dx) by (nonlinear_arith)
        requires
            b == dx * y,
            c == dx * dy,
            0 < dx,
    ;
    assert(y >= dy ==> b >= c) by (nonlinear_arith)
        requires
            b == dx * y,
            c == dx * dy,
            0 < dx,
    ;
    assert(y <= dy - 1 ==> b <= c - dx) by (nonlinear_arith)
        requires
            b == dx * y,
            c == dx * dy,
            0 < dx,
    ;
    assert(dy * (2 * (x + 1) + 1) == 2 * a + 3 * dy) by (nonlinear_arith)
        requires
            a == dy * x,
    ;
    assert(dx * (2 * (y + 1) + 1) == 2 * b + 3 * dx) by (nonlinear_arith)
        requires
            b == dx * y,
    ;
}

/// The shape of the line from a state on it: it starts at the stepper's cell, ends at
/// `(dx, dy)`, stays in the rectangle between the origin and `(dx, dy)`, and moves by single
/// orthogonal or diagonal steps.
proof fn lemma_octant_shape(dx: int, dy: int, x: int, y: int, d: int)
    requires
        on_line(dx, dy, x, y, d),
        x <= dx,
    ensures
        octant_from(dx, dy, x, y, d).len() >= 1,
        octant_from(dx, dy, x, y, d)[0] == (x, y),
        octant_from(dx, dy, x, y, d).last() == (dx, dy),
        forall|i: int|
            0 <= i < octant_from(dx, dy, x, y, d).len() ==> {
                &&& x <= (#[trigger] octant_from(dx, dy, x, y, d)[i]).0 <= dx
                &&& y <= octant_from(dx, dy, x, y, d)[i].1 <= dy
            },
        forall|i: int|
            0 < i < octant_from(dx, dy, x, y, d).len() ==> king_step(
                octant_from(dx, dy, x, y, d)[i - 1],
                #[trigger] octant_from(dx, dy, x, y, d)[i],
            ),
    decreases dx - x,
{
    lemma_stepper_bounds(dx, dy, x, y, d);
    lemma_octant_unfold(dx, dy, x, y, d);
    let s = octant_from(dx, dy, x, y, d);
    let (head, y2, d2) = if d > 0 {
        (seq![(x, y), (x, y + 1)], y + 1, d - 2 * dx + 2 * dy)
    } else if d == 0 {
        (seq![(x, y)], y + 1, d - 2 * dx + 2 * dy)
    } else {
        (seq![(x, y)], y, d + 2 * dy)
    };
    let tail = octant_from(dx, dy, x + 1, y2, d2);
    assert(s == head + tail);
    if x == dx {
        lemma_octant_unfold(dx, dy, x + 1, y2, d2);
        assert(tail =~= Seq::<(int, int)>::empty());
        assert(s =~= head);
    } else {
        lemma_octant_shape(dx, dy, x + 1, y2, d2);
        assert forall|i: int| 0 <= i < s.len() implies {
            &&& x <= (#[trigger] s[i]).0 <= dx
            &&& y <= s[i].1 <= dy
        } by {
            if i >= head.len() {
                assert(s[i] == tail[i - head.len()]);
            }
        }
        assert forall|i: int| 0 < i < s.len() implies king_step(s[i - 1], #[trigger] s[i]) by {
            if i > head.len() {
                assert(s[i] == tail[i - head.len()]);
                assert(s[i - 1] == tail[i - 1 - head.len()]);
            } else if i == head.len() {
                assert(s[i] == tail[0]);
            }
        }
        assert(s.last() == tail.last());
    }
}

/// The shape of the whole line in the first octant.
pub proof fn lemma_octant_line(dx: int, dy: int)
    requires
        0 <= dy <= dx,
    ensures
        octant_line(dx, dy).len() >= 1,
        octant_line(dx, dy)[0] == (0int, 0int),
        octant_line(dx, dy).last() == (dx, dy),
        forall|i: int|
            0 <= i < octant_line(dx, dy).len() ==> {
                &&& 0 <= (#[trigger] octant_line(dx, dy)[i]).0 <= dx
                &&& 0 <= octant_line(dx, dy)[i].1 <= dy
            },
        forall|i: int|
            0 < i < octant_line(dx, dy).len() ==> king_step(
                octant_line(dx, dy)[i - 1],
                #[trigger] octant_line(dx, dy)[i],
            ),
{
    if dx == 0 {
        let s = octant_line(0, 0);
        lemma_octant_unfold(0, 0, 0, 0, 0);
        lemma_octant_unfold(0, 0, 1, 1, 0);
        assert(octant_from(0, 0, 1, 1, 0) =~= Seq::<(int, int)>::empty());
        assert(s =~= seq![(0int, 0int)]);
    } else {
        assert(dy * (2 * 0 + 1) - dx * (2 * 0 + 1) == dy - dx) by (nonlinear_arith);
        lemma_octant_shape(dx, dy, 0, 0, dy - dx);
    }
}

/// The height and the error term of the stepper before column `n`.
spec fn state_at(dx: int, dy: int, n: int) -> (int, int)
    decreases n,
{
    if n <= 0 {
        (0, dy - dx)
    } else {
        let s = state_at(dx, dy, n - 1);
        if s.1 >= 0 {
            (s.0 + 1, s.1 - 2 * dx + 2 * dy)
        } else {
            (s.0, s.1 + 2 * dy)
        }
    }
}

/// The cells that the stepper emits in column `n`.
spec fn column_at(dx: int, dy: int, n: int) -> Seq<(int, int)> {
    let s = state_at(dx, dy, n);
    if s.1 > 0 {
        seq![(n, s.0), (n, s.0 + 1)]
    } else {
        seq![(n, s.0)]
    }
}

/// The cells of the first `n` columns.
spec fn columns_before(dx: int, dy: int, n: int) -> Seq<(int, int)>
    decreases n,
{
    if n <= 0 {
        Seq::empty()
    } else {
        columns_before(dx, dy, n - 1) + column_at(dx, dy, n - 1)
    }
}

/// The cells of the columns from `n` on.
spec fn columns_from(dx: int, dy: int, n: int) -> Seq<(int, int)> {
    octant_from(dx, dy, n, state_at(dx, dy, n).0, state_at(dx, dy, n).1)
}

/// The cells of `s`, last first, each seen from the far end of the line to `(dx, dy)`.
spec fn flipped(dx: int, dy: int, s: Seq<(int, int)>) -> Seq<(int, int)> {
    Seq::new(s.len(), |i: int| (dx - s[s.len() - 1 - i].0, dy - s[s.len() - 1 - i].1))
}

proof fn lemma_state_on_line(dx: int, dy: int, n: int)
    requires
        0 < dx,
        0 <= dy <= dx,
        0 <= n <= dx + 1,
    ensures
        on_line(dx, dy, n, state_at(dx, dy, n).0, state_at(dx, dy, n).1),
    decreases n,
{
    if n == 0 {
        assert(dy * (2 * 0 + 1) - dx * (2 * 0 + 1) == dy - dx) by (nonlinear_arith);
    } else {
        lemma_state_on_line(dx, dy, n - 1);
        let s = state_at(dx, dy, n - 1);
        lemma_stepper_bounds(dx, dy, n - 1, s.0, s.1);
    }
}

proof fn lemma_on_line_unique(dx: int, dy: int, x: int, y1: int, d1: int, y2: int, d2: int)
    requires
        on_line(dx, dy, x, y1, d1),
        on_line(dx, dy, x, y2, d2),
    ensures
        y1 == y2,
        d1 == d2,
{
    let b1 = dx * y1;
    let b2 = dx * y2;
    assert(dx * (2 * y1 + 1) == 2 * b1 + dx) by (nonlinear_arith)
        requires
            b1 == dx * y1,
    ;
    assert(dx * (2 * y2 + 1) == 2 * b2 + dx) by (nonlinear_arith)
        requires
            b2 == dx * y2,
    ;
    assert(y1 >= y2 + 1 ==> b1 >= b2 + dx) by (nonlinear_arith)
        requires
            b1 == dx * y1,
            b2 == dx * y2,
            0 < dx,
    ;
    assert(y2 >= y1 + 1 ==> b2 >= b1 + dx) by (nonlinear_arith)
        requires
            b1 == dx * y1,
            b2 == dx * y2,
            0 < dx,
    ;
}

/// The state before column `dx - x` is the state before column `x`, seen from the far end.
proof fn lemma_state_mirror(dx: int, dy: int, x: int)
    requires
        0 < dx,
        0 <= dy <= dx,
        0 <= x <= dx,
    ensures
        state_at(dx, dy, dx - x) == if state_at(dx, dy, x).1 <= 0 {
            (dy - state_at(dx, dy, x).0, 2 * dy - 2 * dx - state_at(dx, dy, x).1)
        } else {
            (dy - state_at(dx, dy, x).0 - 1, 2 * dy - state_at(dx, dy, x).1)
        },
{
    let s = state_at(dx, dy, x);
    let y = s.0;
    let d = s.1;
    lemma_state_on_line(dx, dy, x);
    lemma_stepper_bounds(dx, dy, x, y, d);
    lemma_state_on_line(dx, dy, dx - x);
    let t = state_at(dx, dy, dx - x);
    let a = dy * x;
    let b = dx * y;
    let c = dx * dy;
    assert(dy * (2 * x + 1) == 2 * a + dy) by (nonlinear_arith)
        requires
            a == dy * x,
    ;
    assert(dx * (2 * y + 1) == 2 * b + dx) by (nonlinear_arith)
        requires
            b == dx * y,
    ;
    assert(dy * (2 * (dx - x) + 1) == 2 * c - 2 * a + dy) by (nonlinear_arith)
        requires
            a == dy * x,
            c == dx * dy,
    ;
    assert(dx * (2 * (dy - y) + 1) == 2 * c - 2 * b + dx) by (nonlinear_arith)
        requires
            b == dx * y,
            c == dx * dy,
    ;
    assert(dx * (2 * (dy - y - 1) + 1) == 2 * c - 2 * b - dx) by (nonlinear_arith)
        requires
            b == dx * y,
            c == dx * dy,
    ;
    // The error term is never as low as -2 * dx: it would make dx * (2 * y - 1) zero.
    assert(d > -2 * dx) by {
        if d <= -2 * dx {
            assert(dy == 0);
            assert(a == 0) by (nonlinear_arith)
                requires
                    a == dy * x,
                    dy == 0,
            ;
            assert(2 * b == dx);
            assert(b != 0);
            assert(y >= 1 ==> b >= dx) by (nonlinear_arith)
                requires
                    b == dx * y,
                    0 < dx,
            ;
            assert(y == 0 ==> b == 0) by (nonlinear_arith)
                requires
                    b == dx * y,
            ;
        }
    }
    if d <= 0 {
        assert(on_line(dx, dy, dx - x, dy - y, 2 * dy - 2 * dx - d));
        lemma_on_line_unique(dx, dy, dx - x, t.0, t.1, dy - y, 2 * dy - 2 * dx - d);
    } else {
        assert(on_line(dx, dy, dx - x, dy - y - 1, 2 * dy - d));
        lemma_on_line_unique(dx, dy, dx - x, t.0, t.1, dy - y - 1, 2 * dy - d);
    }
}

/// The columns from `n` on are column `n` and the columns after it.
proof fn lemma_columns_unfold(dx: int, dy: int, n: int)
    requires
        0 <= n,
    ensures
        n <= dx ==> columns_from(dx, dy, n) == column_at(dx, dy, n) + columns_from(dx, dy, n + 1),
        n > dx ==> columns_from(dx, dy, n) == Seq::<(int, int)>::empty(),
{
    let s = state_at(dx, dy, n);
    lemma_octant_unfold(dx, dy, n, s.0, s.1);
    if n <= dx {
        assert(state_at(dx, dy, n + 1) == if s.1 >= 0 {
            (s.0 + 1, s.1 - 2 * dx + 2 * dy)
        } else {
            (s.0, s.1 + 2 * dy)
        });
    }
}

/// The columns before `n` and the columns from `n` on are the line.
proof fn lemma_columns_split(dx: int, dy: int, n: int)
    requires
        0 <= n <= dx + 1,
    ensures
        columns_before(dx, dy, n) + columns_from(dx, dy, n) == octant_line(dx, dy),
    decreases n,
{
    if n == 0 {
        assert(columns_before(dx, dy, 0) + columns_from(dx, dy, 0) =~= octant_line(dx, dy));
    } else {
        lemma_columns_split(dx, dy, n - 1);
        lemma_columns_unfold(dx, dy, n - 1);
        assert(columns_before(dx, dy, n) + columns_from(dx, dy, n) =~= columns_before(dx, dy, n - 1)
            + columns_from(dx, dy, n - 1));
    }
}

/// The columns before `n`, seen from the far end, are the columns from `dx + 1 - n` on.
proof fn lemma_columns_flip(dx: int, dy: int, n: int)
    requires
        0 < dx,
        0 <= dy <= dx,
        0 <= n <= dx + 1,
    ensures
        flipped(dx, dy, columns_before(dx, dy, n)) == columns_from(dx, dy, dx + 1 - n),
    decreases n,
{
    if n == 0 {
        lemma_columns_unfold(dx, dy, dx + 1);
        assert(flipped(dx, dy, columns_before(dx, dy, 0)) =~= Seq::<(int, int)>::empty());
    } else {
        lemma_columns_flip(dx, dy, n - 1);
        lemma_state_mirror(dx, dy, n - 1);
        lemma_columns_unfold(dx, dy, dx + 1 - n);
        lemma_state_on_line(dx, dy, n - 1);
        let before = columns_before(dx, dy, n - 1);
        let here = column_at(dx, dy, n - 1);
        let there = column_at(dx, dy, dx + 1 - n);
        let s = state_at(dx, dy, n - 1);
        let t = state_at(dx, dy, dx + 1 - n);
        assert(dx + 1 - n == dx - (n - 1));
        if s.1 <= 0 {
            assert(t == (dy - s.0, 2 * dy - 2 * dx - s.1));
            assert(here =~= seq![(n - 1, s.0)]);
            assert(there =~= seq![(dx + 1 - n, t.0)]);
            assert(flipped(dx, dy, here) =~= seq![(dx - (n - 1), dy - s.0)]);
        } else {
            assert(t == (dy - s.0 - 1, 2 * dy - s.1));
            assert(here =~= seq![(n - 1, s.0), (n - 1, s.0 + 1)]);
            assert(there =~= seq![(dx + 1 - n, t.0), (dx + 1 - n, t.0 + 1)]);
            assert(flipped(dx, dy, here) =~= seq![(dx - (n - 1), dy - s.0 - 1), (dx - (n - 1), dy - s.0)]);
        }
        assert(there =~= flipped(dx, dy, here));
        assert(flipped(dx, dy, before + here) =~= flipped(dx, dy, here) + flipped(dx, dy, before));
    }
}

/// The line in the first octant looks the same from both ends: its cells, last first and
/// each seen from the far end, are its cells.
pub proof fn lemma_octant_symmetric(dx: int, dy: int)
    requires
        0 <= dy <= dx,
    ensures
        forall|i: int|
            0 <= i < octant_line(dx, dy).len() ==> octant_line(dx, dy)[octant_line(dx, dy).len() - 1 - i] == (
                dx - (#[trigger] octant_line(dx, dy)[i]).0,
                dy - octant_line(dx, dy)[i].1,
            ),
{
    let line = octant_line(dx, dy);
    if dx == 0 {
        lemma_octant_unfold(0, 0, 0, 0, 0);
        lemma_octant_unfold(0, 0, 1, 1, 0);
        assert(octant_from(0, 0, 1, 1, 0) =~= Seq::<(int, int)>::empty());
        assert(line =~= seq![(0int, 0int)]);
    } else {
        lemma_columns_flip(dx, dy, dx + 1);
        lemma_columns_split(dx, dy, dx + 1);
        lemma_columns_split(dx, dy, 0);
        lemma_columns_unfold(dx, dy, dx + 1);
        let all = columns_before(dx, dy, dx + 1);
        assert(all =~= line);
        assert(columns_from(dx, dy, 0) =~= line);
        assert(flipped(dx, dy, line) == line);
        assert forall|i: int| 0 <= i < line.len() implies line[line.len() - 1 - i] == (
            dx - (#[trigger] line[i]).0,
            dy - line[i].1,
        ) by {
            let j = line.len() - 1 - i;
            assert(flipped(dx, dy, line)[j] == (dx - line[line.len() - 1 - j].0, dy - line[line.len() - 1 - j].1));
        }
    }
}

/// Turning a line of the first octant into the octant of `o` keeps its shape.
proof fn lemma_oriented_line(o: PosDiff, line: Seq<(int, int)>, dx: int, dy: int)
    requires
        line.len() >= 1,
        line[0] == (0int, 0int),
        line.last() == (dx, dy),
        forall|i: int|
            0 <= i < line.len() ==> 0 <= (#[trigger] line[i]).0 <= dx && 0 <= line[i].1 <= dy,
        forall|i: int| 0 < i < line.len() ==> king_step(line[i - 1], #[trigger] line[i]),
        dx == if magnitude(o.dx as int) < magnitude(o.dy as int) {
            magnitude(o.dy as int)
        } else {
            magnitude(o.dx as int)
        },
        dy == if magnitude(o.dx as int) < magnitude(o.dy as int) {
            magnitude(o.dx as int)
        } else {
            magnitude(o.dy as int)
        },
    ensures
        oriented(o, line[0]) == (0int, 0int),
        oriented(o, line.last()) == (o.dx as int, o.dy as int),
        forall|i: int|
            0 <= i < line.len() ==> {
                &&& magnitude(oriented(o, #[trigger] line[i]).0) <= magnitude(o.dx as int)
                &&& magnitude(oriented(o, line[i]).1) <= magnitude(o.dy as int)
            },
        forall|i: int|
            0 < i < line.len() ==> king_step(oriented(o, line[i - 1]), oriented(o, #[trigger] line[i])),
{
    assert forall|i: int| 0 < i < line.len() implies king_step(
        oriented(o, line[i - 1]),
        oriented(o, #[trigger] line[i]),
    ) by {
        assert(king_step(line[i - 1], line[i]));
    }
}

/// The line to an offset starts at the origin, ends at the offset, stays in the rectangle
/// between the two and moves by single orthogonal or diagonal steps.
pub proof fn lemma_plot_shape(o: PosDiff)
    ensures
        plot_points(o).len() >= 1,
        plot_points(o)[0] == (0int, 0int),
        plot_points(o).last() == (o.dx as int, o.dy as int),
        forall|i: int|
            0 <= i < plot_points(o).len() ==> {
                &&& magnitude((#[trigger] plot_points(o)[i]).0) <= magnitude(o.dx as int)
                &&& magnitude(plot_points(o)[i].1) <= magnitude(o.dy as int)
            },
        forall|i: int|
            0 < i < plot_points(o).len() ==> king_step(
                plot_points(o)[i - 1],
                #[trigger] plot_points(o)[i],
            ),
{
    let ax = magnitude(o.dx as int);
    let ay = magnitude(o.dy as int);
    let (dx, dy) = if ax < ay {
        (ay, ax)
    } else {
        (ax, ay)
    };
    let line = octant_line(dx, dy);
    lemma_octant_line(dx, dy);
    lemma_oriented_line(o, line, dx, dy);
    let s = plot_points(o);
    assert(s == line.map_values(|p: (int, int)| oriented(o, p)));
    assert(s.len() == line.len());
    assert forall|i: int| 0 <= i < s.len() implies #[trigger] s[i] == oriented(o, line[i]) by {}
    assert forall|i: int| 0 < i < s.len() implies king_step(s[i - 1], #[trigger] s[i]) by {
        assert(s[i] == oriented(o, line[i]));
        assert(s[i - 1] == oriented(o, line[i - 1]));
    }
}

/// The line to the opposite offset is the line to the offset with every point negated: seen
/// from the far end, the walk is the same.
pub proof fn lemma_plot_negated(o: PosDiff)
    requires
        o.can_turn(),
    ensures
        plot_points(PosDiff { dx: (-o.dx) as i32, dy: (-o.dy) as i32 }) == plot_points(o).map_values(
            |p: (int, int)| (-p.0, -p.1),
        ),
{
    let m = PosDiff { dx: (-o.dx) as i32, dy: (-o.dy) as i32 };
    let ax = magnitude(o.dx as int);
    let ay = magnitude(o.dy as int);
    let line = if ax < ay {
        octant_line(ay, ax)
    } else {
        octant_line(ax, ay)
    };
    if ax < ay {
        lemma_octant_line(ay, ax);
    } else {
        lemma_octant_line(ax, ay);
    }
    let a = plot_points(m);
    let b = plot_points(o).map_values(|p: (int, int)| (-p.0, -p.1));
    assert(a.len() == b.len());
    assert forall|i: int| 0 <= i < a.len() implies a[i] == b[i] by {
        assert(a[i] == oriented(m, line[i]));
        assert(plot_points(o)[i] == oriented(o, line[i]));
        let p = line[i];
        assert(0 <= p.0 && 0 <= p.1);
    }
    assert(a =~= b);
}

/// Turning a cell of the first octant into the octant of `o` commutes with seeing it from
/// the far end.
proof fn lemma_oriented_flip(o: PosDiff, p: (int, int), dx: int, dy: int)
    requires
        o.can_turn(),
        dx == if magnitude(o.dx as int) < magnitude(o.dy as int) {
            magnitude(o.dy as int)
        } else {
            magnitude(o.dx as int)
        },
        dy == if magnitude(o.dx as int) < magnitude(o.dy as int) {
            magnitude(o.dx as int)
        } else {
            magnitude(o.dy as int)
        },
    ensures
        oriented(o, (dx - p.0, dy - p.1)) == (o.dx - oriented(o, p).0, o.dy - oriented(o, p).1),
{
}

/// The line to an offset looks the same from both ends: its cells, last first and each seen
/// from the tip, are its cells.
pub proof fn lemma_plot_symmetric(o: PosDiff)
    requires
        o.can_turn(),
    ensures
        forall|i: int|
            0 <= i < plot_points(o).len() ==> plot_points(o)[plot_points(o).len() - 1 - i] == (
                o.dx - (#[trigger] plot_points(o)[i]).0,
                o.dy - plot_points(o)[i].1,
            ),
{
    let ax = magnitude(o.dx as int);
    let ay = magnitude(o.dy as int);
    let (dx, dy) = if ax < ay {
        (ay, ax)
    } else {
        (ax, ay)
    };
    let line = octant_line(dx, dy);
    lemma_octant_symmetric(dx, dy);
    let s = plot_points(o);
    assert(s == line.map_values(|p: (int, int)| oriented(o, p)));
    assert(s.len() == line.len());
    assert forall|i: int| 0 <= i < s.len() implies s[s.len() - 1 - i] == (o.dx - (#[trigger] s[i]).0, o.dy - s[i].1) by {
        let j = line.len() - 1 - i;
        assert(s[i] == oriented(o, line[i]));
        assert(s[j] == oriented(o, line[j]));
        assert(line[j] == (dx - line[i].0, dy - line[i].1));
        lemma_oriented_flip(o, line[i], dx, dy);
    }
}

/// The line to the opposite offset is the line to the offset, walked from the far end: its
/// cells are the cells of that line, last first, each seen from the tip.
pub proof fn lemma_plot_from_far_end(o: PosDiff)
    requires
        o.can_turn(),
    ensures
        plot_points(PosDiff { dx: (-o.dx) as i32, dy: (-o.dy) as i32 }) == Seq::new(
            plot_points(o).len(),
            |i: int|
                (
                    plot_points(o)[plot_points(o).len() - 1 - i].0 - o.dx,
                    plot_points(o)[plot_points(o).len() - 1 - i].1 - o.dy,
                ),
        ),
{
    lemma_plot_symmetric(o);
    lemma_plot_negated(o);
    let s = plot_points(o);
    let m = PosDiff { dx: (-o.dx) as i32, dy: (-o.dy) as i32 };
    let back = plot_points(m);
    let far = Seq::new(s.len(), |i: int| (s[s.len() - 1 - i].0 - o.dx, s[s.len() - 1 - i].1 - o.dy));
    assert(back == s.map_values(|p: (int, int)| (-p.0, -p.1)));
    assert(back.len() == far.len());
    assert forall|i: int| 0 <= i < far.len() implies back[i] == far[i] by {
        assert(back[i] == (-s[i].0, -s[i].1));
        assert(s[s.len() - 1 - i] == (o.dx - s[i].0, o.dy - s[i].1));
    }
    assert(back =~= far);
}

/// The cells on the line from the body to the tip of an arm at `posdiff`, both ends
/// included.
pub fn plot(posdiff: PosDiff) -> (r: Vec<PosDiff>)
    requires
        posdiff.can_turn(),
    ensures
        offsets(r@) == plot_points(posdiff),
        r@.len() >= 1,
        r@[0] == (PosDiff { dx: 0, dy: 0 }),
        r@.last() == posdiff,
{
    let swap = abs_wide(posdiff.dx) < abs_wide(posdiff.dy);
    let (dx, dy): (i64, i64) = if swap {
        (abs_wide(posdiff.dy), abs_wide(posdiff.dx))
    } else {
        (abs_wide(posdiff.dx), abs_wide(posdiff.dy))
    };
    let ghost line = octant_line(dx as int, dy as int);
    let ghost mut done: Seq<(int, int)> = Seq::empty();
    proof {
        lemma_octant_line(dx as int, dy as int);
        lemma_plot_shape(posdiff);
        assert(done + octant_from(dx as int, dy as int, 0, 0, dy - dx) =~= line);
    }
    let mut plot: Vec<PosDiff> = Vec::new();
    let mut d: i64 = dy - dx;
    let mut y: i64 = 0;
    let mut x: i64 = 0;
    while x <= dx
        invariant
            posdiff.can_turn(),
            0 <= dy <= dx <= 0x7fff_ffff,
            swap == (magnitude(posdiff.dx as int) < magnitude(posdiff.dy as int)),
            dx == if swap { magnitude(posdiff.dy as int) } else { magnitude(posdiff.dx as int) },
            dy == if swap { magnitude(posdiff.dx as int) } else { magnitude(posdiff.dy as int) },
            0 <= x <= dx + 1,
            0 <= y <= x,
            -4 * dx <= d <= 4 * dx,
            line == octant_line(dx as int, dy as int),
            forall|i: int|
                0 <= i < line.len() ==> {
                    &&& 0 <= (#[trigger] line[i]).0 <= dx
                    &&& 0 <= line[i].1 <= dy
                },
            done + octant_from(dx as int, dy as int, x as int, y as int, d as int) == line,
            plot@.len() == done.len(),
            forall|i: int|
                0 <= i < done.len() ==> ((#[trigger] plot@[i]).dx as int, plot@[i].dy as int)
                    == oriented(posdiff, done[i]),
        decreases dx + 1 - x,
    {
        let ghost rest = octant_from(dx as int, dy as int, x as int, y as int, d as int);
        let ghost before = done;
        proof {
            lemma_octant_unfold(dx as int, dy as int, x as int, y as int, d as int);
            assert(line[before.len() as int] == rest[0]);
            done = done.push((x as int, y as int));
        }
        plot.push(turn_point(posdiff, swap, x, y));
        if d >= 0 {
            y += 1;
            if d > 0 {
                proof {
                    assert(line[before.len() as int + 1] == rest[1]);
                    done = done.push((x as int, y as int));
                }
                plot.push(turn_point(posdiff, swap, x, y));
            }
            d -= 2 * dx;
        }
        d += 2 * dy;
        x += 1;
        proof {
            assert(done + octant_from(dx as int, dy as int, x as int, y as int, d as int) =~= before
                + rest);
        }
    }
    proof {
        lemma_octant_unfold(dx as int, dy as int, x as int, y as int, d as int);
        assert(octant_from(dx as int, dy as int, x as int, y as int, d as int) =~= Seq::<
            (int, int),
        >::empty());
        assert(done =~= line);
        assert(offsets(plot@) =~= plot_points(posdiff));
        assert(offsets(plot@)[0] == (0int, 0int));
        assert(offsets(plot@).last() == (posdiff.dx as int, posdiff.dy as int));
    }
    plot
}

/// The absolute value in 64 bits.
fn abs_wide(v: i32) -> (r: i64)
    ensures
        r == magnitude(v as int),
{
    if v < 0 {
        -(v as i64)
    } else {
        v as i64
    }
}

/// The point `(x, y)` of the first octant, turned into the octant of `o`.
fn turn_point(o: PosDiff, swap: bool, x: i64, y: i64) -> (r: PosDiff)
    requires
        o.can_turn(),
        swap == (magnitude(o.dx as int) < magnitude(o.dy as int)),
        0 <= x <= if swap { magnitude(o.dy as int) } else { magnitude(o.dx as int) },
        0 <= y <= if swap { magnitude(o.dx as int) } else { magnitude(o.dy as int) },
    ensures
        (r.dx as int, r.dy as int) == oriented(o, (x as int, y as int)),
{
    let (qx, qy): (i64, i64) = if swap {
        (y, x)
    } else {
        (x, y)
    };
    let rx: i64 = if o.dx < 0 {
        -qx
    } else {
        qx
    };
    let ry: i64 = if o.dy < 0 {
        -qy
    } else {
        qy
    };
    PosDiff::new(rx as i32, ry as i32)
}

} // verus!
