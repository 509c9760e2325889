//! Straight lines on the pixel grid, drawn with integer error accumulation.
//!
//! A line from `(x0, y0)` to `(x1, y1)` is described as a walk that has so far
//! taken `a` unit steps along x and `b` along y, towards the end point. The
//! walk is over when `a` and `b` have reached the two distances.

use crate::picture::{plot_all, Picture, RGBA};
use vstd::prelude::*;

verus! {

/// Distance between two coordinates.
pub open spec fn span(from: int, to: int) -> int {
    if from < to {
        to - from
    } else {
        from - to
    }
}

/// The coordinate reached from `from` after `steps` unit steps towards `to`.
pub open spec fn toward(from: int, to: int, steps: int) -> int {
    if from < to {
        from + steps
    } else {
        from - steps
    }
}

/// Whether the walk over distances `dx`, `dy` moves along x next, having
/// taken `a` steps along x and `b` along y.
pub open spec fn advances_x(dx: int, dy: int, a: int, b: int) -> bool {
    2 * dx * (b + 1) > dy * (2 * a + 1)
}

/// Whether the walk moves along y next.
pub open spec fn advances_y(dx: int, dy: int, a: int, b: int) -> bool {
    dx * (2 * b + 1) <= 2 * dy * (a + 1)
}

/// Before the end point is reached the walk always moves, and never past the
/// end point in either direction.
pub proof fn lemma_walk_moves(dx: int, dy: int, a: int, b: int)
    requires
        0 <= a <= dx,
        0 <= b <= dy,
        !(a == dx && b == dy),
    ensures
        advances_x(dx, dy, a, b) ==> a < dx,
        advances_y(dx, dy, a, b) ==> b < dy,
        advances_x(dx, dy, a, b) || advances_y(dx, dy, a, b),
{
    if a == dx {
        // b < dy, so dy > 0
        assert(2 * dx * (b + 1) <= 2 * dx * dy) by (nonlinear_arith)
            requires
                0 <= dx,
                b + 1 <= dy,
        ;
        assert(dy * (2 * dx + 1) == 2 * dx * dy + dy) by (nonlinear_arith);
        assert(dx * (2 * b + 1) <= dx * (2 * dy - 1)) by (nonlinear_arith)
            requires
                0 <= dx,
                b + 1 <= dy,
        ;
        assert(dx * (2 * dy - 1) <= 2 * dy * (dx + 1)) by (nonlinear_arith)
            requires
                0 <= dx,
                0 < dy,
        ;
    } else if b == dy {
        assert(2 * dy * (a + 1) <= 2 * dy * dx) by (nonlinear_arith)
            requires
                0 <= dy,
                a + 1 <= dx,
        ;
        assert(dx * (2 * dy + 1) == 2 * dy * dx + dx) by (nonlinear_arith);
        assert(dy * (2 * a + 1) <= dy * (2 * dx - 1)) by (nonlinear_arith)
            requires
                0 <= dy,
                a + 1 <= dx,
        ;
        assert(dy * (2 * dx - 1) < 2 * dx * (dy + 1)) by (nonlinear_arith)
            requires
                0 <= dy,
                0 < dx,
        ;
    } else {
        if !advances_x(dx, dy, a, b) {
            assert(dx * (2 * b + 1) == 2 * dx * (b + 1) - dx) by (nonlinear_arith);
            assert(dy * (2 * a + 1) - dx <= 2 * dy * (a + 1)) by (nonlinear_arith)
                requires
                    0 <= dx,
                    0 <= dy,
            ;
        }
    }
}

/// The points of the line from `(x0, y0)` to `(x1, y1)` that follow once the
/// walk has taken `a` steps along x and `b` along y, in the order drawn.
pub open spec fn line_from(x0: int, y0: int, x1: int, y1: int, a: int, b: int) -> Seq<(int, int)>
    decreases (span(x0, x1) - a) + (span(y0, y1) - b),
    when 0 <= a <= span(x0, x1) && 0 <= b <= span(y0, y1)
    via line_from_decreases
{
    let dx = span(x0, x1);
    let dy = span(y0, y1);
    let here = (toward(x0, x1, a), toward(y0, y1, b));
    if a == dx && b == dy {
        seq![here]
    } else {
        let a2 = if advances_x(dx, dy, a, b) {
            a + 1
        } else {
            a
        };
        let b2 = if advances_y(dx, dy, a, b) {
            b + 1
        } else {
            b
        };
        seq![here] + line_from(x0, y0, x1, y1, a2, b2)
    }
}

#[via_fn]
proof fn line_from_decreases(x0: int, y0: int, x1: int, y1: int, a: int, b: int) {
    let dx = span(x0, x1);
    let dy = span(y0, y1);
    if !(a == dx && b == dy) {
        lemma_walk_moves(dx, dy, a, b);
    }
}

/// The points of the line from `(x0, y0)` to `(x1, y1)`, in the order drawn.
pub open spec fn line_points(x0: int, y0: int, x1: int, y1: int) -> Seq<(int, int)> {
    line_from(x0, y0, x1, y1, 0, 0)
}

/// Every point that follows in a walk lies between the two end points, the
/// first is where the walk stands and the last is the end point.
pub proof fn lemma_line_from_bounds(x0: int, y0: int, x1: int, y1: int, a: int, b: int)
    requires
        0 <= a <= span(x0, x1),
        0 <= b <= span(y0, y1),
    ensures
        line_from(x0, y0, x1, y1, a, b).len() >= 1,
        line_from(x0, y0, x1, y1, a, b).len() <= (span(x0, x1) - a) + (span(y0, y1) - b) + 1,
        line_from(x0, y0, x1, y1, a, b).first() == (toward(x0, x1, a), toward(y0, y1, b)),
        line_from(x0, y0, x1, y1, a, b).last() == (x1, y1),
        forall|i: int|
            #![trigger line_from(x0, y0, x1, y1, a, b)[i]]
            0 <= i < line_from(x0, y0, x1, y1, a, b).len() ==> {
                let p = line_from(x0, y0, x1, y1, a, b)[i];
                &&& (x0 <= p.0 <= x1 || x1 <= p.0 <= x0)
                &&& (y0 <= p.1 <= y1 || y1 <= p.1 <= y0)
            },
    decreases (span(x0, x1) - a) + (span(y0, y1) - b),
{
    let dx = span(x0, x1);
    let dy = span(y0, y1);
    if !(a == dx && b == dy) {
        lemma_walk_moves(dx, dy, a, b);
        let a2 = if advances_x(dx, dy, a, b) {
            a + 1
        } else {
            a
        };
        let b2 = if advances_y(dx, dy, a, b) {
            b + 1
        } else {
            b
        };
        lemma_line_from_bounds(x0, y0, x1, y1, a2, b2);
    }
}

/// A line has no gaps: each point after the first is a neighbour of the one
/// before it, one step away along x, along y, or along both.
pub proof fn lemma_line_is_connected(x0: int, y0: int, x1: int, y1: int, a: int, b: int, i: int)
    requires
        0 <= a <= span(x0, x1),
        0 <= b <= span(y0, y1),
        0 <= i,
        i + 1 < line_from(x0, y0, x1, y1, a, b).len(),
    ensures
        ({
            let p = line_from(x0, y0, x1, y1, a, b)[i];
            let q = line_from(x0, y0, x1, y1, a, b)[i + 1];
            &&& -1 <= q.0 - p.0 <= 1
            &&& -1 <= q.1 - p.1 <= 1
            &&& p != q
        }),
    decreases i,
{
    let dx = span(x0, x1);
    let dy = span(y0, y1);
    lemma_walk_moves(dx, dy, a, b);
    let a2 = if advances_x(dx, dy, a, b) {
        a + 1
    } else {
        a
    };
    let b2 = if advances_y(dx, dy, a, b) {
        b + 1
    } else {
        b
    };
    let rest = line_from(x0, y0, x1, y1, a2, b2);
    lemma_line_from_bounds(x0, y0, x1, y1, a2, b2);
    if i > 0 {
        lemma_line_is_connected(x0, y0, x1, y1, a2, b2, i - 1);
        assert(line_from(x0, y0, x1, y1, a, b)[i] == rest[i - 1]);
        assert(line_from(x0, y0, x1, y1, a, b)[i + 1] == rest[i]);
    } else {
        assert(line_from(x0, y0, x1, y1, a, b)[1] == rest[0]);
    }
}

/// A line starts at its first end point, ends at its second, stays inside the
/// rectangle that the two span, and has at most one point per unit of
/// distance along x and y together, plus one.
pub proof fn lemma_line_points(x0: int, y0: int, x1: int, y1: int)
    ensures
        line_points(x0, y0, x1, y1).len() >= 1,
        line_points(x0, y0, x1, y1).len() <= span(x0, x1) + span(y0, y1) + 1,
        line_points(x0, y0, x1, y1).first() == (x0, y0),
        line_points(x0, y0, x1, y1).last() == (x1, y1),
        forall|i: int|
            #![trigger line_points(x0, y0, x1, y1)[i]]
            0 <= i < line_points(x0, y0, x1, y1).len() ==> {
                let p = line_points(x0, y0, x1, y1)[i];
                &&& (x0 <= p.0 <= x1 || x1 <= p.0 <= x0)
                &&& (y0 <= p.1 <= y1 || y1 <= p.1 <= y0)
            },
{
    lemma_line_from_bounds(x0, y0, x1, y1, 0, 0);
}

impl Picture {
    /// Draws the line from `(x0, y0)` to `(x1, y1)`, both end points
    /// included, without antialiasing. Points outside the picture are
    /// skipped.
    pub fn line(&mut self, x0: i32, y0: i32, x1: i32, y1: i32, rgba: &RGBA)
        ensures
            final(self).wf(),
            final(self).spec_width() == old(self).spec_width(),
            final(self).spec_height() == old(self).spec_height(),
            final(self).bytes() == plot_all(
                old(self).bytes(),
                old(self).spec_width() as int,
                old(self).spec_height() as int,
                line_points(x0 as int, y0 as int, x1 as int, y1 as int),
                *rgba,
            ),
    {
        let mut x: i64 = x0 as i64;
        let mut y: i64 = y0 as i64;
        let dx: i64 = if x0 < x1 {
            x1 as i64 - x0 as i64
        } else {
            x0 as i64 - x1 as i64
        };
        let sx: i64 = if x0 < x1 {
            1
        } else {
            -1
        };
        let dy: i64 = if y0 < y1 {
            y1 as i64 - y0 as i64
        } else {
            y0 as i64 - y1 as i64
        };
        let sy: i64 = if y0 < y1 {
            1
        } else {
            -1
        };
        let mut err: i64 = dx - dy;
        let ghost mut a: int = 0;
        let ghost mut b: int = 0;
        let ghost mut done: Seq<(int, int)> = Seq::empty();
        let ghost w = old(self).spec_width() as int;
        let ghost h = old(self).spec_height() as int;
        proof {
            use_type_invariant(&*self);
            assert(dx * (1 + b) - dy * (1 + a) == dx - dy) by (nonlinear_arith)
                requires
                    a == 0,
                    b == 0,
            ;
            assert(done + line_from(x0 as int, y0 as int, x1 as int, y1 as int, a, b)
                =~= line_points(x0 as int, y0 as int, x1 as int, y1 as int));
        }
        loop
            invariant_except_break
                done + line_from(x0 as int, y0 as int, x1 as int, y1 as int, a, b) == line_points(
                    x0 as int,
                    y0 as int,
                    x1 as int,
                    y1 as int,
                ),
                self.bytes() == plot_all(old(self).bytes(), w, h, done, *rgba),
            invariant
                self.wf(),
                self.spec_width() == w,
                self.spec_height() == h,
                dx == span(x0 as int, x1 as int),
                dy == span(y0 as int, y1 as int),
                sx == (if x0 < x1 {
                    1i64
                } else {
                    -1i64
                }),
                sy == (if y0 < y1 {
                    1i64
                } else {
                    -1i64
                }),
                0 <= a <= dx,
                0 <= b <= dy,
                x == toward(x0 as int, x1 as int, a),
                y == toward(y0 as int, y1 as int, b),
                err == dx * (1 + b) - dy * (1 + a),
                -2 * (dx + dy) <= err <= 2 * (dx + dy),
            ensures
                self.wf(),
                self.spec_width() == w,
                self.spec_height() == h,
                self.bytes() == plot_all(
                    old(self).bytes(),
                    w,
                    h,
                    line_points(x0 as int, y0 as int, x1 as int, y1 as int),
                    *rgba,
                ),
            decreases (dx - a) + (dy - b),
        {
            let ghost rest = line_from(x0 as int, y0 as int, x1 as int, y1 as int, a, b);
            let ghost here = (x as int, y as int);
            if 0 <= x && 0 <= y {
                self.set(x as u32, y as u32, rgba);
            }
            proof {
                assert(done.push(here).drop_last() =~= done);
                assert(self.bytes() == plot_all(old(self).bytes(), w, h, done.push(here), *rgba));
            }
            if x == x1 as i64 && y == y1 as i64 {
                proof {
                    assert(rest =~= seq![here]);
                    assert(done + rest =~= done.push(here));
                }
                break ;
            }
            proof {
                lemma_walk_moves(dx as int, dy as int, a, b);
                assert(dy * (2 * a + 1) == 2 * (dy * (1 + a)) - dy) by (nonlinear_arith);
                assert(2 * dx * (b + 1) == 2 * (dx * (1 + b))) by (nonlinear_arith);
                assert(dx * (2 * b + 1) == 2 * (dx * (1 + b)) - dx) by (nonlinear_arith);
                assert(2 * dy * (a + 1) == 2 * (dy * (1 + a))) by (nonlinear_arith);
            }
            let e2: i64 = 2 * err;
            let ghost a0 = a;
            let ghost b0 = b;
            if e2 > -dy {
                err = err - dy;
                x = x + sx;
                proof {
                    a = a + 1;
                }
            }
            if e2 <= dx {
                err = err + dx;
                y = y + sy;
                proof {
                    b = b + 1;
                }
            }
            proof {
                assert(dx * (1 + b) - dy * (1 + a) == dx * (1 + b0) - dy * (1 + a0) + dx * (b - b0)
                    - dy * (a - a0)) by (nonlinear_arith);
                assert(dx * (b - b0) == (if b == b0 {
                    0
                } else {
                    dx as int
                })) by (nonlinear_arith)
                    requires
                        b == b0 || b == b0 + 1,
                ;
                assert(dy * (a - a0) == (if a == a0 {
                    0
                } else {
                    dy as int
                })) by (nonlinear_arith)
                    requires
                        a == a0 || a == a0 + 1,
                ;
                let next = line_from(x0 as int, y0 as int, x1 as int, y1 as int, a, b);
                assert(rest =~= seq![here] + next);
                assert(done.push(here) + next =~= done + rest);
                done = done.push(here);
            }
        }
    }
}

} // verus!
