//! Straight lines on the pixel grid.
//!
//! A line from one point to another takes one step per pixel along its dominant axis
//! (the one with the larger extent) and follows the ideal line along the other
//! axis, always choosing the pixel nearest to it.

use vstd::prelude::*;
use vstd::arithmetic::div_mod::lemma_fundamental_div_mod_converse;
use crate::framebuffer::Framebuffer;
use crate::framebuffer::lemma_stroke_nothing;
use crate::framebuffer::lemma_stroke_then_plot;

verus! {

/// The distance between two coordinates.
pub open spec fn span(a: int, b: int) -> int {
    if b >= a {
        b - a
    } else {
        a - b
    }
}

/// The coordinate `steps` away from `start` in the direction of `end`.
pub open spec fn toward(start: int, end: int, steps: int) -> int {
    if end >= start {
        start + steps
    } else {
        start - steps
    }
}

/// How far a line has moved along its minor axis after `i` steps along its
/// major axis: `i * minor / major`, rounded to the nearest integer (a half
/// rounds up).
pub open spec fn minor_offset(i: int, major: int, minor: int) -> int {
    if major == 0 {
        0
    } else {
        (2 * i * minor + major) / (2 * major)
    }
}

/// The number of steps from one end of the line to the other.
pub open spec fn line_steps(x0: int, y0: int, x1: int, y1: int) -> int {
    if span(x0, x1) >= span(y0, y1) {
        span(x0, x1)
    } else {
        span(y0, y1)
    }
}

/// The pixel that the line from `(x0, y0)` to `(x1, y1)` reaches after `i`
/// steps.
pub open spec fn line_point(x0: int, y0: int, x1: int, y1: int, i: int) -> (int, int) {
    let dx = span(x0, x1);
    let dy = span(y0, y1);
    if dx >= dy {
        (toward(x0, x1, i), toward(y0, y1, minor_offset(i, dx, dy)))
    } else {
        (toward(x0, x1, minor_offset(i, dy, dx)), toward(y0, y1, i))
    }
}

/// The pixels of the line from `(x0, y0)` to `(x1, y1)`, in drawing order.
pub open spec fn line_points(x0: int, y0: int, x1: int, y1: int) -> Seq<(int, int)> {
    Seq::new(
        (line_steps(x0, y0, x1, y1) + 1) as nat,
        |i: int| line_point(x0, y0, x1, y1, i),
    )
}

/// What the running error term says about the minor offset: with
/// `2 * i * minor + major == 2 * major * m + err` and `0 <= err < 2 * major`,
/// the offset after `i` steps is `m`, and it lies between `0` and `minor`.
proof fn lemma_error_term(i: int, major: int, minor: int, m: int, err: int)
    requires
        major > 0,
        0 <= minor <= major,
        0 <= i <= major,
        0 <= err < 2 * major,
        2 * i * minor + major == 2 * major * m + err,
    ensures
        minor_offset(i, major, minor) == m,
        0 <= m <= minor,
        m <= i,
{
    assert(2 * i * minor + major == m * (2 * major) + err) by (nonlinear_arith)
        requires
            2 * i * minor + major == 2 * major * m + err,
    ;
    lemma_fundamental_div_mod_converse(2 * i * minor + major, 2 * major, m, err);
    assert(0 <= m <= minor && m <= i) by (nonlinear_arith)
        requires
            major > 0,
            0 <= minor <= major,
            0 <= i <= major,
            0 <= err < 2 * major,
            2 * i * minor + major == 2 * major * m + err,
    ;
}

/// The minor offset and the remainder that goes with it.
proof fn lemma_offset_remainder(i: int, major: int, minor: int) -> (err: int)
    requires
        major > 0,
        0 <= minor <= major,
        0 <= i <= major,
    ensures
        0 <= err < 2 * major,
        2 * i * minor + major == 2 * major * minor_offset(i, major, minor) + err,
{
    let n = 2 * i * minor + major;
    let d = 2 * major;
    vstd::arithmetic::div_mod::lemma_fundamental_div_mod(n, d);
    vstd::arithmetic::div_mod::lemma_mod_bound(n, d);
    n % d
}

/// A line starts at its first endpoint and ends at its second.
pub proof fn lemma_line_endpoints(x0: int, y0: int, x1: int, y1: int)
    ensures
        line_point(x0, y0, x1, y1, 0) == (x0, y0),
        line_point(x0, y0, x1, y1, line_steps(x0, y0, x1, y1)) == (x1, y1),
        line_points(x0, y0, x1, y1).len() == line_steps(x0, y0, x1, y1) + 1,
        line_points(x0, y0, x1, y1).first() == (x0, y0),
        line_points(x0, y0, x1, y1).last() == (x1, y1),
{
    let dx = span(x0, x1);
    let dy = span(y0, y1);
    let major = line_steps(x0, y0, x1, y1);
    let minor = if dx >= dy {
        dy
    } else {
        dx
    };
    if major > 0 {
        lemma_error_term(0, major, minor, 0, major);
        assert(2 * major * minor + major == 2 * major * minor + major);
        lemma_error_term(major, major, minor, minor, major);
    }
}

/// A line has no gaps: each step moves exactly one pixel along the major
/// axis and at most one pixel along the minor axis, always towards the second
/// endpoint, so consecutive pixels touch at a side or a corner.
pub proof fn lemma_line_connected(x0: int, y0: int, x1: int, y1: int, i: int)
    requires
        0 <= i < line_steps(x0, y0, x1, y1),
    ensures
        ({
            let p = line_point(x0, y0, x1, y1, i);
            let q = line_point(x0, y0, x1, y1, i + 1);
            let along_x = span(x0, x1) >= span(y0, y1);
            &&& span(p.0, q.0) <= 1
            &&& span(p.1, q.1) <= 1
            &&& along_x ==> q.0 == toward(p.0, x1, 1) && (q.1 == p.1 || q.1 == toward(p.1, y1, 1))
            &&& !along_x ==> q.1 == toward(p.1, y1, 1) && (q.0 == p.0 || q.0 == toward(p.0, x1, 1))
        }),
{
    let dx = span(x0, x1);
    let dy = span(y0, y1);
    let major = line_steps(x0, y0, x1, y1);
    let minor = if dx >= dy {
        dy
    } else {
        dx
    };
    let m = minor_offset(i, major, minor);
    let err = lemma_offset_remainder(i, major, minor);
    lemma_error_term(i, major, minor, m, err);
    if err + 2 * minor >= 2 * major {
        assert(2 * (i + 1) * minor + major == 2 * major * (m + 1) + (err + 2 * minor - 2 * major))
            by (nonlinear_arith)
            requires
                2 * i * minor + major == 2 * major * m + err,
        ;
        lemma_error_term(i + 1, major, minor, m + 1, err + 2 * minor - 2 * major);
    } else {
        assert(2 * (i + 1) * minor + major == 2 * major * m + (err + 2 * minor))
            by (nonlinear_arith)
            requires
                2 * i * minor + major == 2 * major * m + err,
        ;
        lemma_error_term(i + 1, major, minor, m, err + 2 * minor);
    }
}

/// Every pixel of a line is the one nearest to the ideal line: its minor
/// offset `m` after `i` steps differs from `i * minor / major` by at most a
/// half.
pub proof fn lemma_line_nearest_pixel(i: int, major: int, minor: int)
    requires
        major > 0,
        0 <= minor <= major,
        0 <= i <= major,
    ensures
        ({
            let m = minor_offset(i, major, minor);
            2 * major * m - major <= 2 * i * minor < 2 * major * m + major
        }),
{
    lemma_offset_remainder(i, major, minor);
}

/// One pixel towards `end`.
fn step_toward(v: isize, end: isize, Ghost(start): Ghost<int>, Ghost(steps): Ghost<int>) -> (r:
    isize)
    requires
        v == toward(start, end as int, steps),
        0 <= steps < span(start, end as int),
    ensures
        r == toward(start, end as int, steps + 1),
{
    if end >= v {
        v + 1
    } else {
        v - 1
    }
}

/// The distance between two coordinates.
fn distance(a: isize, b: isize) -> (d: i128)
    ensures
        d == span(a as int, b as int),
{
    if b >= a {
        b as i128 - a as i128
    } else {
        a as i128 - b as i128
    }
}

impl Framebuffer {
    /// Draws the line from `from` to `to` in the drawing colour. Pixels of the
    /// line that fall outside the canvas are skipped.
    pub fn draw_line(&mut self, from: (isize, isize), to: (isize, isize))
        requires
            old(self).wf(),
        ensures
            final(self).wf(),
            final(self)@ == old(self)@.stroked(
                line_points(from.0 as int, from.1 as int, to.0 as int, to.1 as int),
            ),
    {
        let ghost x0 = from.0 as int;
        let ghost y0 = from.1 as int;
        let ghost x1 = to.0 as int;
        let ghost y1 = to.1 as int;
        let ghost line = line_points(x0, y0, x1, y1);
        let ghost canvas = self@;
        let dx: i128 = distance(from.0, to.0);
        let dy: i128 = distance(from.1, to.1);
        let along_x: bool = dx >= dy;
        let major: i128 = if along_x {
            dx
        } else {
            dy
        };
        let minor: i128 = if along_x {
            dy
        } else {
            dx
        };
        let mut x: isize = from.0;
        let mut y: isize = from.1;
        let mut err: i128 = major;
        let mut i: i128 = 0;
        let ghost mut m: int = 0;
        proof {
            lemma_line_endpoints(x0, y0, x1, y1);
            lemma_stroke_nothing(canvas);
            lemma_stroke_then_plot(canvas, Seq::empty(), x0, y0);
            assert(line.take(1) =~= Seq::<(int, int)>::empty().push((x0, y0)));
        }
        self.point(x, y);
        while i < major
            invariant
                self.wf(),
                canvas.wf(),
                x0 == from.0,
                y0 == from.1,
                x1 == to.0,
                y1 == to.1,
                line == line_points(x0, y0, x1, y1),
                dx == span(x0, x1),
                dy == span(y0, y1),
                along_x == (dx >= dy),
                major == line_steps(x0, y0, x1, y1),
                major == (if along_x {
                    dx
                } else {
                    dy
                }),
                minor == (if along_x {
                    dy
                } else {
                    dx
                }),
                0 <= minor <= major,
                0 <= i <= major,
                major > 0 ==> 0 <= err < 2 * major,
                major > 0 ==> 2 * i * minor + major == 2 * major * m + err,
                0 <= m <= minor,
                x == toward(x0, x1, if along_x {
                    i as int
                } else {
                    m
                }),
                y == toward(y0, y1, if along_x {
                    m
                } else {
                    i as int
                }),
                self@ == canvas.stroked(line.take(i + 1)),
            decreases major - i,
        {
            let ghost before = i as int;
            let ghost m_before = m;
            let ghost err_before = err as int;
            err = err + 2 * minor;
            let turn: bool = err >= 2 * major;
            if turn {
                err = err - 2 * major;
                proof {
                    m = m + 1;
                }
            }
            i = i + 1;
            proof {
                if turn {
                    assert(2 * (before + 1) * minor + major == 2 * major * (m_before + 1) + (
                    err_before + 2 * minor - 2 * major)) by (nonlinear_arith)
                        requires
                            2 * before * minor + major == 2 * major * m_before + err_before,
                    ;
                } else {
                    assert(2 * (before + 1) * minor + major == 2 * major * m_before + (err_before
                        + 2 * minor)) by (nonlinear_arith)
                        requires
                            2 * before * minor + major == 2 * major * m_before + err_before,
                    ;
                }
                lemma_error_term(i as int, major as int, minor as int, m, err as int);
            }
            if along_x {
                x = step_toward(x, to.0, Ghost(x0), Ghost(before));
                if turn {
                    y = step_toward(y, to.1, Ghost(y0), Ghost(m_before));
                }
            } else {
                y = step_toward(y, to.1, Ghost(y0), Ghost(before));
                if turn {
                    x = step_toward(x, to.0, Ghost(x0), Ghost(m_before));
                }
            }
            proof {
                assert((x as int, y as int) == line_point(x0, y0, x1, y1, i as int));
                lemma_stroke_then_plot(canvas, line.take(i as int), x as int, y as int);
                assert(line.take(i + 1) =~= line.take(i as int).push((x as int, y as int)));
            }
            self.point(x, y);
        }
        assert(line.take(i + 1) =~= line);
    }
}

} // verus!
