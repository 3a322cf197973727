use vstd::prelude::*;

verus! {

/// Absolute value of a mathematical integer.
pub open spec fn abs(v: int) -> int {
    if v < 0 {
        -v
    } else {
        v
    }
}

/// The state of a line walk over mathematical integers: the current cell,
/// the target cell, the absolute extents `dx` and `dy` (`dy` is kept negated),
/// the step direction on each axis and the running error term.
pub struct LineState {
    pub x: int,
    pub y: int,
    pub end_x: int,
    pub end_y: int,
    pub dx: int,
    pub dy: int,
    pub sx: int,
    pub sy: int,
    pub err: int,
}

pub open spec fn fits_i32(v: int) -> bool {
    i32::MIN <= v <= i32::MAX
}

impl LineState {
    /// The state of a fresh walk from `(x0, y0)` to `(x1, y1)`.
    pub open spec fn start(x0: int, y0: int, x1: int, y1: int) -> LineState {
        LineState {
            x: x0,
            y: y0,
            end_x: x1,
            end_y: y1,
            dx: abs(x0 - x1),
            dy: -abs(y0 - y1),
            sx: if x0 < x1 { 1 } else { -1 },
            sy: if y0 < y1 { 1 } else { -1 },
            err: abs(x0 - x1) - abs(y0 - y1),
        }
    }

    pub open spec fn finished(self) -> bool {
        self.x == self.end_x && self.y == self.end_y
    }

    /// Cells still to be crossed along the x axis.
    pub open spec fn rem_x(self) -> int {
        (self.end_x - self.x) * self.sx
    }

    /// Cells still to be crossed along the y axis.
    pub open spec fn rem_y(self) -> int {
        (self.end_y - self.y) * self.sy
    }

    /// The states that a walk started by `start` passes through.
    pub open spec fn inv(self) -> bool {
        &&& fits_i32(self.x) && fits_i32(self.y) && fits_i32(self.end_x) && fits_i32(self.end_y)
        &&& 0 <= self.dx && 3 * self.dx <= i32::MAX
        &&& self.dy <= 0 && -3 * self.dy <= i32::MAX
        &&& (self.sx == 1 || self.sx == -1)
        &&& (self.sy == 1 || self.sy == -1)
        &&& 0 <= self.rem_x() <= self.dx
        &&& 0 <= self.rem_y() <= -self.dy
        &&& self.err == self.dx + self.dy - self.rem_y() * self.dx - self.rem_x() * self.dy
        &&& 3 * self.dy <= 2 * self.err <= 3 * self.dx
        &&& (self.dx + self.dy >= 0 ==> (self.dx == 0 || self.dx + 2 * self.dy < 2 * self.err) && 2
            * self.err <= 3 * self.dx + 2 * self.dy)
        &&& (self.dx + self.dy <= 0 ==> 2 * self.dx + 3 * self.dy <= 2 * self.err && (self.dy == 0 || 2
            * self.err < 2 * self.dx + self.dy))
    }

    /// One move of the walk: along x when twice the error is at least `dy`,
    /// along y when it is at most `dx`, both tests on the error before the move.
    pub open spec fn step(self) -> LineState {
        let e2 = 2 * self.err;
        let err1 = if e2 >= self.dy { self.err + self.dy } else { self.err };
        let x1 = if e2 >= self.dy { self.x + self.sx } else { self.x };
        let err2 = if e2 <= self.dx { err1 + self.dx } else { err1 };
        let y1 = if e2 <= self.dx { self.y + self.sy } else { self.y };
        LineState { x: x1, y: y1, err: err2, ..self }
    }

    /// The cells that the walk still yields, the current one first; the
    /// target cell itself is never yielded.
    pub open spec fn points(self) -> Seq<(int, int)>
        decreases self.rem_x() + self.rem_y(),
        when self.inv()
    {
        if self.finished() {
            Seq::empty()
        } else {
            proof {
                lemma_step(self);
            }
            seq![(self.x, self.y)] + self.step().points()
        }
    }
}

/// `v` lies between `a` and `b`, both included.
pub open spec fn between(a: int, b: int, v: int) -> bool {
    (a <= v <= b) || (b <= v <= a)
}

/// Going from cell `a` to cell `b` is a move to one of the eight neighbours
/// of `a` that comes no farther from `e` on either axis.
pub open spec fn advances(a: (int, int), b: (int, int), e: (int, int)) -> bool {
    &&& a != b
    &&& abs(b.0 - a.0) <= 1
    &&& abs(b.1 - a.1) <= 1
    &&& abs(e.0 - b.0) <= abs(e.0 - a.0)
    &&& abs(e.1 - b.1) <= abs(e.1 - a.1)
}

/// The cell that follows the `k`-th one of `pts` on the way to `e`: the next
/// one of `pts`, or `e` after the last.
pub open spec fn successor(pts: Seq<(int, int)>, k: int, e: (int, int)) -> (int, int) {
    if k + 1 < pts.len() {
        pts[k + 1]
    } else {
        e
    }
}

/// The cells of the line from `(x0, y0)` to `(x1, y1)`, without the last one.
pub open spec fn line_points(x0: int, y0: int, x1: int, y1: int) -> Seq<(int, int)> {
    LineState::start(x0, y0, x1, y1).points()
}

/// Whether a walk between the two cells keeps its error term within `i32`.
pub open spec fn line_fits(x0: int, y0: int, x1: int, y1: int) -> bool {
    &&& fits_i32(x0) && fits_i32(y0) && fits_i32(x1) && fits_i32(y1)
    &&& 3 * abs(x0 - x1) <= i32::MAX
    &&& 3 * abs(y0 - y1) <= i32::MAX
}

pub proof fn lemma_start_inv(x0: int, y0: int, x1: int, y1: int)
    requires
        line_fits(x0, y0, x1, y1),
    ensures
        LineState::start(x0, y0, x1, y1).inv(),
{
    let s = LineState::start(x0, y0, x1, y1);
    assert(s.rem_x() == s.dx);
    assert(s.rem_y() == -s.dy);
    let dx = s.dx;
    let dy = s.dy;
    assert(dx + dy - (-dy) * dx - dx * dy == dx + dy) by (nonlinear_arith);
}

/// A move from a state that is not finished keeps the invariant and brings
/// the walk one cell closer on at least one axis; along the longer axis it
/// always moves.
pub proof fn lemma_step(s: LineState)
    requires
        s.inv(),
        !s.finished(),
    ensures
        s.step().inv(),
        s.step().end_x == s.end_x && s.step().end_y == s.end_y,
        s.step().dx == s.dx && s.step().dy == s.dy,
        s.step().rem_x() == s.rem_x() || s.step().rem_x() == s.rem_x() - 1,
        s.step().rem_y() == s.rem_y() || s.step().rem_y() == s.rem_y() - 1,
        s.step().rem_x() + s.step().rem_y() < s.rem_x() + s.rem_y(),
        s.dx + s.dy >= 0 ==> s.step().rem_x() == s.rem_x() - 1,
        s.dx + s.dy <= 0 ==> s.step().rem_y() == s.rem_y() - 1,
        between(s.x, s.end_x, s.step().x),
        between(s.y, s.end_y, s.step().y),
        advances((s.x, s.y), (s.step().x, s.step().y), (s.end_x, s.end_y)),
{
    let dx = s.dx;
    let dy = s.dy;
    let rx = s.rem_x();
    let ry = s.rem_y();
    let err = s.err;
    let e2 = 2 * err;
    let t = s.step();
    // No move along x once x is done, none along y once y is done.
    if rx == 0 {
        assert(ry >= 1);
        assert(ry * dx >= dx) by (nonlinear_arith)
            requires
                ry >= 1,
                dx >= 0,
        ;
        assert(rx * dy == 0) by (nonlinear_arith)
            requires
                rx == 0,
        ;
        assert(e2 < dy);
    }
    if ry == 0 {
        assert(rx >= 1);
        assert(rx * dy <= dy) by (nonlinear_arith)
            requires
                rx >= 1,
                dy <= 0,
        ;
        assert(ry * dx == 0) by (nonlinear_arith)
            requires
                ry == 0,
        ;
        assert(e2 > dx);
    }
    // Remaining distances after the move.
    assert(s.sx * s.sx == 1 && s.sy * s.sy == 1) by (nonlinear_arith)
        requires
            s.sx == 1 || s.sx == -1,
            s.sy == 1 || s.sy == -1,
    ;
    if e2 >= dy {
        assert(t.rem_x() == rx - 1) by (nonlinear_arith)
            requires
                t.x == s.x + s.sx,
                t.end_x == s.end_x,
                t.sx == s.sx,
                s.sx * s.sx == 1,
                rx == (s.end_x - s.x) * s.sx,
        ;
        assert((rx - 1) * dy == rx * dy - dy) by (nonlinear_arith);
    } else {
        assert(t.rem_x() == rx);
    }
    if e2 <= dx {
        assert(t.rem_y() == ry - 1) by (nonlinear_arith)
            requires
                t.y == s.y + s.sy,
                t.end_y == s.end_y,
                t.sy == s.sy,
                s.sy * s.sy == 1,
                ry == (s.end_y - s.y) * s.sy,
        ;
        assert((ry - 1) * dx == ry * dx - dx) by (nonlinear_arith);
    } else {
        assert(t.rem_y() == ry);
    }
    // The cell coordinates stay between the current cell and the target.
    if s.sx == 1 {
        assert(s.x <= t.x <= s.end_x);
    } else {
        assert(s.end_x <= t.x <= s.x);
    }
    if s.sy == 1 {
        assert(s.y <= t.y <= s.end_y);
    } else {
        assert(s.end_y <= t.y <= s.y);
    }
}

/// The number of cells still to come is the remaining distance along the
/// longer axis.
pub proof fn lemma_points_len(s: LineState)
    requires
        s.inv(),
    ensures
        s.points().len() == if s.dx + s.dy >= 0 {
            s.rem_x()
        } else {
            s.rem_y()
        },
    decreases s.rem_x() + s.rem_y(),
{
    if s.finished() {
        assert(s.rem_x() == 0 && s.rem_y() == 0) by (nonlinear_arith)
            requires
                s.x == s.end_x,
                s.y == s.end_y,
        ;
    } else {
        lemma_step(s);
        lemma_points_len(s.step());
    }
}

/// Every cell still to come lies in the box spanned by the current cell and
/// the end cell, and none of them is the end cell.
pub proof fn lemma_points_in_box(s: LineState)
    requires
        s.inv(),
    ensures
        forall|k: int|
            0 <= k < s.points().len() ==> between(s.x, s.end_x, #[trigger] s.points()[k].0)
                && between(s.y, s.end_y, s.points()[k].1) && s.points()[k] != (s.end_x, s.end_y),
    decreases s.rem_x() + s.rem_y(),
{
    if !s.finished() {
        let t = s.step();
        lemma_step(s);
        lemma_points_in_box(t);
        assert forall|k: int| 0 <= k < s.points().len() implies between(
            s.x,
            s.end_x,
            #[trigger] s.points()[k].0,
        ) && between(s.y, s.end_y, s.points()[k].1) && s.points()[k] != (s.end_x, s.end_y) by {
            if k > 0 {
                assert(s.points()[k] == t.points()[k - 1]);
            }
        }
    }
}

/// Each cell still to come is followed by a neighbouring cell that is no
/// farther from the end, the last one by the end cell itself.
pub proof fn lemma_points_advance(s: LineState)
    requires
        s.inv(),
    ensures
        forall|k: int|
            0 <= k < s.points().len() ==> advances(
                #[trigger] s.points()[k],
                successor(s.points(), k, (s.end_x, s.end_y)),
                (s.end_x, s.end_y),
            ),
    decreases s.rem_x() + s.rem_y(),
{
    if !s.finished() {
        let t = s.step();
        let e = (s.end_x, s.end_y);
        lemma_step(s);
        lemma_points_advance(t);
        assert(s.points() == seq![(s.x, s.y)] + t.points());
        if t.finished() {
            assert(t.points().len() == 0);
        } else {
            assert(t.inv());
            lemma_step(t);
            assert(t.points() == seq![(t.x, t.y)] + t.step().points());
            assert(s.points()[1] == t.points()[0]);
        }
        assert(successor(s.points(), 0, e) == (t.x, t.y));
        assert forall|k: int| 0 <= k < s.points().len() implies advances(
            #[trigger] s.points()[k],
            successor(s.points(), k, e),
            e,
        ) by {
            if k > 0 {
                assert(s.points()[k] == t.points()[k - 1]);
                assert(successor(s.points(), k, e) == successor(t.points(), k - 1, e));
            }
        }
    }
}

/// Steps already made along x and along y by a walk in state `s`, measured
/// at cell `q`.
pub open spec fn steps_x(s: LineState, q: (int, int)) -> int {
    s.dx - (s.end_x - q.0) * s.sx
}

pub open spec fn steps_y(s: LineState, q: (int, int)) -> int {
    -s.dy - (s.end_y - q.1) * s.sy
}

/// Cell `q`, the `k`-th still to come from state `s`, lies within half a
/// cell of the ideal line along the shorter axis and `k` steps further along
/// the longer one.
pub open spec fn tracks(s: LineState, q: (int, int), k: int) -> bool {
    let i = steps_x(s, q);
    let j = steps_y(s, q);
    &&& s.dx + s.dy >= 0 ==> -s.dx < 2 * j * s.dx + 2 * i * s.dy <= s.dx && i == steps_x(
        s,
        (s.x, s.y),
    ) + k
    &&& s.dx + s.dy <= 0 ==> s.dy < -2 * i * s.dy - 2 * j * s.dx <= -s.dy && j == steps_y(
        s,
        (s.x, s.y),
    ) + k
}

/// Every cell still to come stays within half a cell of the ideal line along
/// the shorter axis (ties going towards the end), and the `k`-th of them is
/// `k` steps further along the longer axis than the current cell.
pub proof fn lemma_points_track(s: LineState)
    requires
        s.inv(),
    ensures
        forall|k: int| 0 <= k < s.points().len() ==> tracks(s, #[trigger] s.points()[k], k),
    decreases s.rem_x() + s.rem_y(),
{
    if !s.finished() {
        let t = s.step();
        lemma_step(s);
        lemma_points_track(t);
        let dx = s.dx;
        let dy = s.dy;
        let i0 = steps_x(s, (s.x, s.y));
        let j0 = steps_y(s, (s.x, s.y));
        assert(s.sx * s.sx == 1 && s.sy * s.sy == 1) by (nonlinear_arith)
            requires
                s.sx == 1 || s.sx == -1,
                s.sy == 1 || s.sy == -1,
        ;
        // A walk that is not finished has some distance left.
        if s.rem_x() == 0 && s.rem_y() == 0 {
            assert(s.x == s.end_x && s.y == s.end_y) by (nonlinear_arith)
                requires
                    (s.end_x - s.x) * s.sx == 0,
                    (s.end_y - s.y) * s.sy == 0,
                    s.sx * s.sx == 1,
                    s.sy * s.sy == 1,
            ;
        }
        assert(2 * j0 * dx + 2 * i0 * dy == 2 * s.err - 2 * dx - 2 * dy) by (nonlinear_arith)
            requires
                i0 == dx - s.rem_x(),
                j0 == -dy - s.rem_y(),
                s.err == dx + dy - s.rem_y() * dx - s.rem_x() * dy,
        ;
        assert(dx > 0 || dy < 0);
        if dx + dy >= 0 {
            assert(dx > 0);
            assert(-dx < 2 * j0 * dx + 2 * i0 * dy <= dx);
        }
        if dx + dy <= 0 {
            assert(dy < 0);
            assert(-2 * i0 * dy - 2 * j0 * dx == -(2 * j0 * dx + 2 * i0 * dy)) by (nonlinear_arith);
            assert(dy < -2 * i0 * dy - 2 * j0 * dx <= -dy);
        }
        assert(tracks(s, (s.x, s.y), 0));
        assert forall|k: int| 0 <= k < s.points().len() implies tracks(
            s,
            #[trigger] s.points()[k],
            k,
        ) by {
            if k > 0 {
                let q = s.points()[k];
                assert(q == t.points()[k - 1]);
                assert(tracks(t, q, k - 1));
                assert(steps_x(s, q) == steps_x(t, q));
                assert(steps_y(s, q) == steps_y(t, q));
                assert(steps_x(t, (t.x, t.y)) == dx - t.rem_x());
                assert(steps_y(t, (t.x, t.y)) == -dy - t.rem_y());
            }
        }
    }
}

/// A line follows the ideal line: along its longer axis its `k`-th cell is
/// `k` cells from the start, and along the shorter axis it is the cell
/// nearest the ideal line, a tie going towards the end. With `dx` and `dy`
/// the lengths of the two axes and `a`, `b` the distances of the cell from
/// the start along them: when `dx >= dy`, `a == k` and
/// `-dx < 2 * b * dx - 2 * a * dy <= dx`; otherwise `b == k` and
/// `-dy < 2 * a * dy - 2 * b * dx <= dy`.
pub proof fn lemma_line_nearest(x0: int, y0: int, x1: int, y1: int)
    requires
        line_fits(x0, y0, x1, y1),
    ensures
        forall|k: int|
            0 <= k < line_points(x0, y0, x1, y1).len() ==> {
                let q = #[trigger] line_points(x0, y0, x1, y1)[k];
                let dx = abs(x1 - x0);
                let dy = abs(y1 - y0);
                let a = abs(q.0 - x0);
                let b = abs(q.1 - y0);
                &&& dx >= dy ==> a == k && -dx < 2 * b * dx - 2 * a * dy <= dx
                &&& dx < dy ==> b == k && -dy < 2 * a * dy - 2 * b * dx <= dy
            },
{
    let s = LineState::start(x0, y0, x1, y1);
    lemma_start_inv(x0, y0, x1, y1);
    lemma_points_track(s);
    lemma_points_in_box(s);
    assert(s.rem_x() == s.dx && s.rem_y() == -s.dy);
    assert(steps_x(s, (s.x, s.y)) == 0 && steps_y(s, (s.x, s.y)) == 0);
    assert forall|k: int| 0 <= k < line_points(x0, y0, x1, y1).len() implies {
        let q = #[trigger] line_points(x0, y0, x1, y1)[k];
        let dx = abs(x1 - x0);
        let dy = abs(y1 - y0);
        let a = abs(q.0 - x0);
        let b = abs(q.1 - y0);
        &&& dx >= dy ==> a == k && -dx < 2 * b * dx - 2 * a * dy <= dx
        &&& dx < dy ==> b == k && -dy < 2 * a * dy - 2 * b * dx <= dy
    } by {
        let q = s.points()[k];
        assert(tracks(s, q, k));
        assert(between(x0, x1, q.0) && between(y0, y1, q.1));
        if x0 < x1 {
            assert((x1 - q.0) * s.sx == x1 - q.0) by (nonlinear_arith)
                requires
                    s.sx == 1,
            ;
        } else {
            assert((x1 - q.0) * s.sx == q.0 - x1) by (nonlinear_arith)
                requires
                    s.sx == -1,
            ;
        }
        if y0 < y1 {
            assert((y1 - q.1) * s.sy == y1 - q.1) by (nonlinear_arith)
                requires
                    s.sy == 1,
            ;
        } else {
            assert((y1 - q.1) * s.sy == q.1 - y1) by (nonlinear_arith)
                requires
                    s.sy == -1,
            ;
        }
        let a = abs(q.0 - x0);
        let b = abs(q.1 - y0);
        let ddx = abs(x1 - x0);
        let ddy = abs(y1 - y0);
        assert(steps_x(s, q) == a);
        assert(steps_y(s, q) == b);
        assert(s.dx == ddx && s.dy == -ddy);
        assert(2 * b * s.dx + 2 * a * s.dy == 2 * b * ddx - 2 * a * ddy) by (nonlinear_arith)
            requires
                s.dx == ddx,
                s.dy == -ddy,
        ;
        assert(-2 * a * s.dy - 2 * b * s.dx == 2 * a * ddy - 2 * b * ddx) by (nonlinear_arith)
            requires
                s.dx == ddx,
                s.dy == -ddy,
        ;
    }
}

/// A line holds as many cells as its longer axis is long.
pub proof fn lemma_line_len(x0: int, y0: int, x1: int, y1: int)
    requires
        line_fits(x0, y0, x1, y1),
    ensures
        line_points(x0, y0, x1, y1).len() == if abs(x0 - x1) >= abs(y0 - y1) {
            abs(x0 - x1)
        } else {
            abs(y0 - y1)
        },
{
    let s = LineState::start(x0, y0, x1, y1);
    lemma_start_inv(x0, y0, x1, y1);
    lemma_points_len(s);
}

/// A line between two different cells begins at its start cell.
pub proof fn lemma_line_starts_at_start(x0: int, y0: int, x1: int, y1: int)
    requires
        line_fits(x0, y0, x1, y1),
        (x0, y0) != (x1, y1),
    ensures
        line_points(x0, y0, x1, y1).len() > 0,
        line_points(x0, y0, x1, y1)[0] == (x0, y0),
{
    lemma_start_inv(x0, y0, x1, y1);
}

/// The cells of a line lie in the box spanned by its two end cells, and the
/// end cell is never among them.
pub proof fn lemma_line_in_box(x0: int, y0: int, x1: int, y1: int)
    requires
        line_fits(x0, y0, x1, y1),
    ensures
        forall|k: int|
            0 <= k < line_points(x0, y0, x1, y1).len() ==> between(
                x0,
                x1,
                #[trigger] line_points(x0, y0, x1, y1)[k].0,
            ) && between(y0, y1, line_points(x0, y0, x1, y1)[k].1) && line_points(
                x0,
                y0,
                x1,
                y1,
            )[k] != (x1, y1),
{
    lemma_start_inv(x0, y0, x1, y1);
    lemma_points_in_box(LineState::start(x0, y0, x1, y1));
}

/// A line is connected: each of its cells is followed by one of its eight
/// neighbours, coming no farther from the end cell, and the last one by the
/// end cell.
pub proof fn lemma_line_connected(x0: int, y0: int, x1: int, y1: int)
    requires
        line_fits(x0, y0, x1, y1),
    ensures
        forall|k: int|
            0 <= k < line_points(x0, y0, x1, y1).len() ==> advances(
                #[trigger] line_points(x0, y0, x1, y1)[k],
                successor(line_points(x0, y0, x1, y1), k, (x1, y1)),
                (x1, y1),
            ),
{
    lemma_start_inv(x0, y0, x1, y1);
    lemma_points_advance(LineState::start(x0, y0, x1, y1));
}

/// An iterator-like walk over the grid cells of a line, from its start cell
/// up to (but not including) its end cell.
pub struct Bresenham {
    x: i32,
    y: i32,
    end_x: i32,
    end_y: i32,
    dx: i32,
    dy: i32,
    sx: i32,
    sy: i32,
    err: i32,
}

impl View for Bresenham {
    type V = LineState;

    closed spec fn view(&self) -> LineState {
        LineState {
            x: self.x as int,
            y: self.y as int,
            end_x: self.end_x as int,
            end_y: self.end_y as int,
            dx: self.dx as int,
            dy: self.dy as int,
            sx: self.sx as int,
            sy: self.sy as int,
            err: self.err as int,
        }
    }
}

impl Clone for Bresenham {
    fn clone(&self) -> (r: Self)
        ensures
            r@ == self@,
    {
        proof {
            use_type_invariant(self);
        }
        Bresenham {
            x: self.x,
            y: self.y,
            end_x: self.end_x,
            end_y: self.end_y,
            dx: self.dx,
            dy: self.dy,
            sx: self.sx,
            sy: self.sy,
            err: self.err,
        }
    }
}

impl Bresenham {
    #[verifier::type_invariant]
    spec fn well_formed(self) -> bool {
        self@.inv()
    }

    /// Starts a walk from `(start_x, start_y)` towards `(end_x, end_y)`.
    pub fn new(start_x: i32, start_y: i32, end_x: i32, end_y: i32) -> (r: Self)
        requires
            3 * abs(start_x - end_x) <= i32::MAX,
            3 * abs(start_y - end_y) <= i32::MAX,
        ensures
            r@ == LineState::start(start_x as int, start_y as int, end_x as int, end_y as int),
            r@.inv(),
    {
        proof {
            lemma_start_inv(start_x as int, start_y as int, end_x as int, end_y as int);
        }
        let ax: i32 = if start_x < end_x { end_x - start_x } else { start_x - end_x };
        let ay: i32 = if start_y < end_y { end_y - start_y } else { start_y - end_y };
        Self {
            x: start_x,
            y: start_y,
            end_x,
            end_y,
            dx: ax,
            dy: -ay,
            sx: if start_x < end_x { 1 } else { -1 },
            sy: if start_y < end_y { 1 } else { -1 },
            err: ax - ay,
        }
    }

    /// Yields the current cell and moves on, or `None` once the end cell is
    /// reached (and on every later call).
    pub fn next(&mut self) -> (r: Option<(i32, i32)>)
        ensures
            old(self)@.inv(),
            final(self)@.inv(),
            old(self)@.finished() ==> r is None && final(self)@ == old(self)@,
            !old(self)@.finished() ==> (r matches Some(p) && p.0 == old(self)@.x && p.1
                == old(self)@.y && final(self)@ == old(self)@.step()),
    {
        proof {
            use_type_invariant(&*self);
        }
        if self.x == self.end_x && self.y == self.end_y {
            return None;
        }
        proof {
            lemma_step(self@);
        }
        let current = (self.x, self.y);
        let e2 = 2 * self.err;
        let mut err = self.err;
        let mut x = self.x;
        let mut y = self.y;
        if e2 >= self.dy {
            err = err + self.dy;
            x = x + self.sx;
        }
        if e2 <= self.dx {
            err = err + self.dx;
            y = y + self.sy;
        }
        *self = Bresenham {
            x,
            y,
            end_x: self.end_x,
            end_y: self.end_y,
            dx: self.dx,
            dy: self.dy,
            sx: self.sx,
            sy: self.sy,
            err,
        };
        Some(current)
    }
}

} // verus!
