//! Antialiased lines of a given width.
//!
//! The line is walked along its centre as a plain line is. At every centre
//! pixel the walk also fans out across the line, along y where the line
//! advances along x and along x where it advances along y, as far as the
//! line reaches. Every pixel met is blended with the line's colour, at an
//! alpha that falls off with the pixel's distance from the centre line.
//!
//! Distances are whole numbers in the units of the walk's error term. They
//! are held against the line's length and width in single precision.

use crate::arith::{
    add_values, divide_values, divided, from_int, from_whole, int_to_value, minus,
    multiply_values, plus, root_value, square_root, subtract_values, times, TWO,
};
use crate::line::{span, toward};
use crate::picture::{over_spec, pixel_in, pixel_offset, plot, Picture, RGBA};
use crate::rounding::{scale_to_byte, scaled_byte};
use crate::single::{less, less_than, max_of, maximum, ONE};
use vstd::prelude::*;

verus! {

/// One pixel that a thick line touches, and its distance from the centre
/// line.
pub struct Blend {
    pub x: int,
    pub y: int,
    pub distance: int,
}

/// The magnitude of a whole number.
pub open spec fn magnitude(v: int) -> int {
    if v < 0 {
        -v
    } else {
        v
    }
}

/// What a line's length and width give for the drawing of it, each a
/// single-precision value.
#[derive(Debug, Clone, Copy, PartialEq, Eq, Structural)]
pub struct Pen {
    /// The length of the line, or one for a line that is a point.
    pub length: u32,
    /// Half of the width and one.
    pub half_width: u32,
    /// How far from the centre line the line reaches: the length times
    /// the half width.
    pub limit: u32,
}

/// The greatest signed distance at which a line can still reach.
pub const FARTHEST: i64 = 0x8000_0000;

/// The pen for a line that spans `dx` and `dy` pixels, of the given width.
pub open spec fn pen_for(dx: int, dy: int, width: u32) -> Pen {
    let length = if dx + dy == 0 {
        ONE
    } else {
        square_root(from_whole(dx * dx + dy * dy))
    };
    let half_width = divided(plus(width, ONE), TWO);
    Pen { length, half_width, limit: times(length, half_width) }
}

/// Whether the line reaches as far as the signed distance `e`.
pub open spec fn within(pen: Pen, e: int) -> bool {
    e < FARTHEST && less(from_int(e), pen.limit)
}

/// How much of a pixel at the distance `distance` the line covers: all of
/// it up to the half width, and less by the excess beyond, counted in
/// lengths of the line.
pub open spec fn cover(pen: Pen, distance: int) -> u32 {
    minus(ONE, max_of(minus(divided(from_int(distance), pen.length), pen.half_width), 0))
}

/// The alpha at which a colour of the alpha `alpha` is drawn at the
/// distance `distance`.
pub open spec fn coverage_at(pen: Pen, alpha: u8, distance: int) -> u8 {
    scaled_byte(cover(pen, distance), alpha as int) as u8
}

/// `bytes`, read as a picture of the given size, after `c` was drawn over
/// the pixel at `(x, y)`: unchanged when the position lies outside.
pub open spec fn blended(bytes: Seq<u8>, width: int, height: int, x: int, y: int, c: RGBA) -> Seq<
    u8,
> {
    plot(bytes, width, height, x, y, over_spec(c, pixel_in(bytes, pixel_offset(width, x, y))))
}

/// `bytes` after each of `blends` in turn was drawn over its pixel, in the
/// colour `rgba` at the alpha that the pen gives for its distance.
pub open spec fn blend_all(
    bytes: Seq<u8>,
    width: int,
    height: int,
    blends: Seq<Blend>,
    rgba: RGBA,
    pen: Pen,
) -> Seq<u8>
    decreases blends.len(),
{
    if blends.len() == 0 {
        bytes
    } else {
        let b = blends.last();
        blended(
            blend_all(bytes, width, height, blends.drop_last(), rgba, pen),
            width,
            height,
            b.x,
            b.y,
            RGBA { a: coverage_at(pen, rgba.a, b.distance), ..rgba },
        )
    }
}

/// What is left of a fan's way, for showing that it ends.
pub open spec fn fan_left(e: int, have: int, total: int, inc: int) -> int {
    if inc > 0 {
        if FARTHEST > e {
            FARTHEST - e
        } else {
            0
        }
    } else {
        if total > have {
            total - have
        } else {
            0
        }
    }
}

/// The pixel of a fan that lies `steps` steps along the way from `from` to
/// `to`, on the line where the other coordinate is `fixed`. A fan along y
/// stays in the column `fixed`, a fan along x in the row `fixed`.
pub open spec fn fan_pixel(along_y: bool, fixed: int, from: int, to: int, steps: int, e: int) -> Blend {
    if along_y {
        Blend { x: fixed, y: toward(from, to, steps), distance: magnitude(e) }
    } else {
        Blend { x: toward(from, to, steps), y: fixed, distance: magnitude(e) }
    }
}

/// The pixels of a fan, from `have` steps along the way from `from` to
/// `to` on. The fan goes on while the line reaches as far as the signed
/// distance `e`; unless it is `steady`, it also ends where it comes to
/// `to`. With every pixel the distance grows by `inc`.
pub open spec fn fan(
    along_y: bool,
    fixed: int,
    from: int,
    to: int,
    e: int,
    have: int,
    steady: bool,
    inc: int,
    pen: Pen,
) -> Seq<Blend>
    decreases fan_left(e, have, span(from, to), inc),
    when inc > 0 || (inc == 0 && !steady && have <= span(from, to))
{
    if within(pen, e) && (have != span(from, to) || steady) {
        seq![fan_pixel(along_y, fixed, from, to, have + 1, e + inc)] + fan(
            along_y,
            fixed,
            from,
            to,
            e + inc,
            have + 1,
            steady,
            inc,
            pen,
        )
    } else {
        Seq::empty()
    }
}

/// The error term of the walk after `a` steps along x and `b` along y.
pub open spec fn error_term(dx: int, dy: int, a: int, b: int) -> int {
    dx * (1 + b) - dy * (1 + a)
}

/// Whether the walk moves along x next.
pub open spec fn moves_x(dx: int, dy: int, a: int, b: int) -> bool {
    2 * error_term(dx, dy, a, b) >= -dx
}

/// Whether the walk moves along y next.
pub open spec fn moves_y(dx: int, dy: int, a: int, b: int) -> bool {
    2 * error_term(dx, dy, a, b) <= dy
}

/// The walk always moves along x or along y.
pub proof fn lemma_thick_moves(dx: int, dy: int, a: int, b: int)
    requires
        0 <= dx,
        0 <= dy,
    ensures
        moves_x(dx, dy, a, b) || moves_y(dx, dy, a, b),
{
}

/// The fan across the line at a centre pixel where the walk moves along x:
/// it runs along y.
pub open spec fn across_y(x0: int, y0: int, x1: int, y1: int, pen: Pen, a: int, b: int) -> Seq<
    Blend,
> {
    let dx = span(x0, x1);
    let dy = span(y0, y1);
    if moves_x(dx, dy, a, b) {
        fan(
            true,
            toward(x0, x1, a),
            y0,
            y1,
            error_term(dx, dy, a, b) + dy,
            b,
            dx > dy,
            dx,
            pen,
        )
    } else {
        Seq::empty()
    }
}

/// The fan across the line at a centre pixel where the walk moves along y:
/// it runs along x.
pub open spec fn across_x(x0: int, y0: int, x1: int, y1: int, pen: Pen, a: int, b: int) -> Seq<
    Blend,
> {
    let dx = span(x0, x1);
    let dy = span(y0, y1);
    if moves_y(dx, dy, a, b) {
        fan(
            false,
            toward(y0, y1, b),
            x0,
            x1,
            dx - error_term(dx, dy, a, b),
            a,
            dx < dy,
            dy,
            pen,
        )
    } else {
        Seq::empty()
    }
}

/// The centre pixel after `a` steps along x and `b` along y.
pub open spec fn centre(x0: int, y0: int, x1: int, y1: int, a: int, b: int) -> Blend {
    let dx = span(x0, x1);
    let dy = span(y0, y1);
    Blend {
        x: toward(x0, x1, a),
        y: toward(y0, y1, b),
        distance: magnitude(error_term(dx, dy, a, b) - dx + dy),
    }
}

/// The pixels drawn at the centre pixel that the walk stands on after `a`
/// steps along x and `b` along y: the centre pixel itself, the fan along
/// y where the walk moves along x, and, unless the walk ends before it,
/// the fan along x where the walk moves along y.
pub open spec fn step_pixels(x0: int, y0: int, x1: int, y1: int, pen: Pen, a: int, b: int) -> Seq<
    Blend,
> {
    let dx = span(x0, x1);
    let here = seq![centre(x0, y0, x1, y1, a, b)];
    if moves_x(dx, span(y0, y1), a, b) && a == dx {
        here + across_y(x0, y0, x1, y1, pen, a, b)
    } else {
        here + across_y(x0, y0, x1, y1, pen, a, b) + across_x(x0, y0, x1, y1, pen, a, b)
    }
}

/// Whether the walk ends at this centre pixel: it is to move along an
/// axis on which it has arrived.
pub open spec fn ends_here(x0: int, y0: int, x1: int, y1: int, a: int, b: int) -> bool {
    let dx = span(x0, x1);
    let dy = span(y0, y1);
    (moves_x(dx, dy, a, b) && a == dx) || (moves_y(dx, dy, a, b) && b == dy)
}

/// The pixels of the thick line from `(x0, y0)` to `(x1, y1)` that follow
/// once the walk has taken `a` steps along x and `b` along y, in the order
/// drawn.
pub open spec fn thick_from(x0: int, y0: int, x1: int, y1: int, pen: Pen, a: int, b: int) -> Seq<
    Blend,
>
    decreases (span(x0, x1) - a) + (span(y0, y1) - b),
    when 0 <= a <= span(x0, x1) && 0 <= b <= span(y0, y1)
    via thick_from_decreases
{
    let dx = span(x0, x1);
    let dy = span(y0, y1);
    if ends_here(x0, y0, x1, y1, a, b) {
        step_pixels(x0, y0, x1, y1, pen, a, b)
    } else {
        let a2 = if moves_x(dx, dy, a, b) {
            a + 1
        } else {
            a
        };
        let b2 = if moves_y(dx, dy, a, b) {
            b + 1
        } else {
            b
        };
        step_pixels(x0, y0, x1, y1, pen, a, b) + thick_from(x0, y0, x1, y1, pen, a2, b2)
    }
}

#[via_fn]
proof fn thick_from_decreases(x0: int, y0: int, x1: int, y1: int, pen: Pen, a: int, b: int) {
    lemma_thick_moves(span(x0, x1), span(y0, y1), a, b);
}

/// The pixels of the line of the given width from `(x0, y0)` to
/// `(x1, y1)`, in the order drawn.
pub open spec fn thick_points(x0: int, y0: int, x1: int, y1: int, width: u32) -> Seq<Blend> {
    thick_from(x0, y0, x1, y1, pen_for(span(x0, x1), span(y0, y1), width), 0, 0)
}

/// `bytes`, read as a picture of the given size, after the line of the
/// given width from `(x0, y0)` to `(x1, y1)` was drawn in the colour
/// `rgba`.
pub open spec fn thick_drawn(
    bytes: Seq<u8>,
    width: int,
    height: int,
    x0: int,
    y0: int,
    x1: int,
    y1: int,
    rgba: RGBA,
    line_width: u32,
) -> Seq<u8> {
    blend_all(
        bytes,
        width,
        height,
        thick_points(x0, y0, x1, y1, line_width),
        rgba,
        pen_for(span(x0, x1), span(y0, y1), line_width),
    )
}

/// A thick line begins at its first end point, on the centre line.
pub proof fn lemma_thick_begins_at_start(x0: int, y0: int, x1: int, y1: int, width: u32)
    ensures
        thick_points(x0, y0, x1, y1, width).len() >= 1,
        thick_points(x0, y0, x1, y1, width)[0] == (Blend { x: x0, y: y0, distance: 0 }),
{
    let dx = span(x0, x1);
    let dy = span(y0, y1);
    assert(error_term(dx, dy, 0, 0) == dx - dy) by (nonlinear_arith);
    let first = step_pixels(x0, y0, x1, y1, pen_for(dx, dy, width), 0, 0);
    assert(first[0] == centre(x0, y0, x1, y1, 0, 0));
}

/// Drawing one sequence of pixels and then another is drawing the two in a
/// row.
pub proof fn lemma_blend_all_concat(
    bytes: Seq<u8>,
    width: int,
    height: int,
    first: Seq<Blend>,
    second: Seq<Blend>,
    rgba: RGBA,
    pen: Pen,
)
    ensures
        blend_all(bytes, width, height, first + second, rgba, pen) == blend_all(
            blend_all(bytes, width, height, first, rgba, pen),
            width,
            height,
            second,
            rgba,
            pen,
        ),
    decreases second.len(),
{
    if second.len() == 0 {
        assert(first + second =~= first);
    } else {
        lemma_blend_all_concat(bytes, width, height, first, second.drop_last(), rgba, pen);
        assert((first + second).drop_last() =~= first + second.drop_last());
        assert((first + second).last() == second.last());
    }
}

/// The pen for a line that spans `dx` and `dy` pixels, of the given width.
fn make_pen(dx: i64, dy: i64, width: u32) -> (pen: Pen)
    requires
        0 <= dx <= 0xffff_ffff,
        0 <= dy <= 0xffff_ffff,
    ensures
        pen == pen_for(dx as int, dy as int, width),
{
    let length = if dx + dy == 0 {
        ONE
    } else {
        assert(dx * dx + dy * dy <= 2 * (0xffff_ffff * 0xffff_ffff)) by (nonlinear_arith)
            requires
                0 <= dx <= 0xffff_ffff,
                0 <= dy <= 0xffff_ffff,
        ;
        // a square below 2^64 and another: below 2^62 when halved twice
        root_value(squares_to_value(dx as u64, dy as u64))
    };
    let half_width = divide_values(add_values(width, ONE), TWO);
    Pen { length, half_width, limit: multiply_values(length, half_width) }
}

/// The value of `dx * dx + dy * dy`.
fn squares_to_value(dx: u64, dy: u64) -> (r: u32)
    requires
        dx <= 0xffff_ffff,
        dy <= 0xffff_ffff,
    ensures
        r == from_whole(dx * dx + dy * dy),
{
    assert(dx * dx <= 0xffff_ffff * 0xffff_ffff && dy * dy <= 0xffff_ffff * 0xffff_ffff)
        by (nonlinear_arith)
        requires
            0 <= dx <= 0xffff_ffff,
            0 <= dy <= 0xffff_ffff,
    ;
    let sum: u128 = dx as u128 * dx as u128 + dy as u128 * dy as u128;
    crate::arith::wide_to_value(sum)
}

impl Picture {
    /// Draws `rgba` over the pixel at `(x, y)`, at the alpha that the pen
    /// gives for the magnitude of `e`.
    fn blend_at(&mut self, x: i64, y: i64, rgba: &RGBA, pen: &Pen, e: i64)
        requires
            -0x4000_0000_0000_0000 < e < 0x4000_0000_0000_0000,
        ensures
            final(self).wf(),
            final(self).spec_width() == old(self).spec_width(),
            final(self).spec_height() == old(self).spec_height(),
            final(self).bytes() == blended(
                old(self).bytes(),
                old(self).spec_width() as int,
                old(self).spec_height() as int,
                x as int,
                y as int,
                RGBA { a: coverage_at(*pen, rgba.a, magnitude(e as int)), ..*rgba },
            ),
    {
        proof {
            use_type_invariant(&*self);
        }
        let distance: i64 = if e < 0 {
            -e
        } else {
            e
        };
        let near = subtract_values(divide_values(int_to_value(distance), pen.length), pen.half_width);
        let cover = subtract_values(ONE, maximum(near, 0));
        let colour = RGBA { r: rgba.r, g: rgba.g, b: rgba.b, a: scale_to_byte(cover, rgba.a) };
        let width = self.width();
        let height = self.height();
        if 0 <= x && x < width as i64 && 0 <= y && y < height as i64 {
            self.alpha_blend(x as u32, y as u32, colour);
        }
    }

    /// Draws a fan.
    fn draw_fan(
        &mut self,
        along_y: bool,
        fixed: i64,
        from: i32,
        to: i32,
        e: i64,
        have: i64,
        steady: bool,
        inc: i64,
        rgba: &RGBA,
        pen: &Pen,
    )
        requires
            0 <= inc <= 0xffff_ffff,
            0 <= have <= span(from as int, to as int),
            -0x10_0000_0000 <= e <= 0x10_0000_0000,
            inc > 0 || !steady,
        ensures
            final(self).wf(),
            final(self).spec_width() == old(self).spec_width(),
            final(self).spec_height() == old(self).spec_height(),
            final(self).bytes() == blend_all(
                old(self).bytes(),
                old(self).spec_width() as int,
                old(self).spec_height() as int,
                fan(
                    along_y,
                    fixed as int,
                    from as int,
                    to as int,
                    e as int,
                    have as int,
                    steady,
                    inc as int,
                    *pen,
                ),
                *rgba,
                *pen,
            ),
    {
        let ghost w = old(self).spec_width() as int;
        let ghost h = old(self).spec_height() as int;
        let ghost all = fan(
            along_y,
            fixed as int,
            from as int,
            to as int,
            e as int,
            have as int,
            steady,
            inc as int,
            *pen,
        );
        let total: i64 = if from < to {
            to as i64 - from as i64
        } else {
            from as i64 - to as i64
        };
        let step: i64 = if from < to {
            1
        } else {
            -1
        };
        let mut e: i64 = e;
        let mut have: i64 = have;
        let mut pos: i64 = from as i64 + step * have;
        let ghost mut done: Seq<Blend> = Seq::empty();
        let ghost e0 = e as int;
        let ghost have0 = have as int;
        proof {
            use_type_invariant(&*self);
            assert(done + all =~= all);
        }
        while e < FARTHEST && less_than(int_to_value(e), pen.limit) && (have != total || steady)
            invariant
                self.wf(),
                self.spec_width() == w,
                self.spec_height() == h,
                0 <= inc <= 0xffff_ffff,
                inc > 0 || !steady,
                total == span(from as int, to as int),
                step == (if from < to {
                    1i64
                } else {
                    -1i64
                }),
                0 <= have0 <= have,
                inc == 0 ==> have <= total,
                inc > 0 ==> have - have0 <= e - e0,
                -0x10_0000_0000 <= e0 <= e,
                e <= 0x10_0000_0000 + 0x1_0000_0000,
                have0 <= total,
                pos == toward(from as int, to as int, have as int),
                done + fan(
                    along_y,
                    fixed as int,
                    from as int,
                    to as int,
                    e as int,
                    have as int,
                    steady,
                    inc as int,
                    *pen,
                ) == all,
                self.bytes() == blend_all(old(self).bytes(), w, h, done, *rgba, *pen),
            decreases fan_left(e as int, have as int, total as int, inc as int),
        {
            let ghost tail = fan(
                along_y,
                fixed as int,
                from as int,
                to as int,
                e as int,
                have as int,
                steady,
                inc as int,
                *pen,
            );
            e = e + inc;
            have = have + 1;
            pos = pos + step;
            let ghost next = fan_pixel(
                along_y,
                fixed as int,
                from as int,
                to as int,
                have as int,
                e as int,
            );
            if along_y {
                self.blend_at(fixed, pos, rgba, pen, e);
            } else {
                self.blend_at(pos, fixed, rgba, pen, e);
            }
            proof {
                let after = fan(
                    along_y,
                    fixed as int,
                    from as int,
                    to as int,
                    e as int,
                    have as int,
                    steady,
                    inc as int,
                    *pen,
                );
                assert(tail =~= seq![next] + after);
                assert(done.push(next).drop_last() =~= done);
                assert(done.push(next) + after =~= done + tail);
                done = done.push(next);
            }
        }
        proof {
            assert(done + Seq::<Blend>::empty() =~= done);
        }
    }

    /// Draws what belongs to one centre pixel and tells whether the walk
    /// ends there.
    fn centre_step(
        &mut self,
        x0: i32,
        y0: i32,
        x1: i32,
        y1: i32,
        a: i64,
        b: i64,
        err: i64,
        rgba: &RGBA,
        pen: &Pen,
    ) -> (ended: bool)
        requires
            0 <= a <= span(x0 as int, x1 as int),
            0 <= b <= span(y0 as int, y1 as int),
            err == error_term(span(x0 as int, x1 as int), span(y0 as int, y1 as int), a as int, b as int),
            -0x8_0000_0000 <= err <= 0x8_0000_0000,
        ensures
            final(self).wf(),
            final(self).spec_width() == old(self).spec_width(),
            final(self).spec_height() == old(self).spec_height(),
            ended == ends_here(x0 as int, y0 as int, x1 as int, y1 as int, a as int, b as int),
            final(self).bytes() == blend_all(
                old(self).bytes(),
                old(self).spec_width() as int,
                old(self).spec_height() as int,
                step_pixels(x0 as int, y0 as int, x1 as int, y1 as int, *pen, a as int, b as int),
                *rgba,
                *pen,
            ),
    {
        let ghost w = old(self).spec_width() as int;
        let ghost h = old(self).spec_height() as int;
        let ghost here = centre(x0 as int, y0 as int, x1 as int, y1 as int, a as int, b as int);
        let ghost fan_y = across_y(x0 as int, y0 as int, x1 as int, y1 as int, *pen, a as int, b as int);
        let ghost fan_x = across_x(x0 as int, y0 as int, x1 as int, y1 as int, *pen, a as int, b as int);
        let dx: i64 = if x0 < x1 {
            x1 as i64 - x0 as i64
        } else {
            x0 as i64 - x1 as i64
        };
        let dy: i64 = if y0 < y1 {
            y1 as i64 - y0 as i64
        } else {
            y0 as i64 - y1 as i64
        };
        let x: i64 = if x0 < x1 {
            x0 as i64 + a
        } else {
            x0 as i64 - a
        };
        let y: i64 = if y0 < y1 {
            y0 as i64 + b
        } else {
            y0 as i64 - b
        };
        proof {
            use_type_invariant(&*self);
        }
        self.blend_at(x, y, rgba, pen, err - dx + dy);
        proof {
            let one = seq![here];
            assert(one.drop_last() =~= Seq::<Blend>::empty());
            assert(one.last() == here);
            assert(blend_all(old(self).bytes(), w, h, one.drop_last(), *rgba, *pen) == old(
                self,
            ).bytes());
            assert(self.bytes() == blend_all(old(self).bytes(), w, h, one, *rgba, *pen));
        }
        let go_x = 2 * err >= -dx;
        let go_y = 2 * err <= dy;
        if go_x {
            self.draw_fan(true, x, y0, y1, err + dy, b, dx > dy, dx, rgba, pen);
        }
        proof {
            lemma_blend_all_concat(old(self).bytes(), w, h, seq![here], fan_y, *rgba, *pen);
        }
        if go_x && a == dx {
            return true;
        }
        if go_y {
            self.draw_fan(false, y, x0, x1, dx - err, a, dx < dy, dy, rgba, pen);
        }
        proof {
            lemma_blend_all_concat(old(self).bytes(), w, h, seq![here] + fan_y, fan_x, *rgba, *pen);
        }
        go_y && b == dy
    }

    /// Draws the antialiased line from `(x0, y0)` to `(x1, y1)` in the
    /// colour `rgba`; `width` is the line's width as a single-precision
    /// value.
    pub fn thick_line(&mut self, x0: i32, y0: i32, x1: i32, y1: i32, rgba: &RGBA, width: u32)
        ensures
            final(self).wf(),
            final(self).spec_width() == old(self).spec_width(),
            final(self).spec_height() == old(self).spec_height(),
            final(self).bytes() == thick_drawn(
                old(self).bytes(),
                old(self).spec_width() as int,
                old(self).spec_height() as int,
                x0 as int,
                y0 as int,
                x1 as int,
                y1 as int,
                *rgba,
                width,
            ),
    {
        let dx: i64 = if x0 < x1 {
            x1 as i64 - x0 as i64
        } else {
            x0 as i64 - x1 as i64
        };
        let dy: i64 = if y0 < y1 {
            y1 as i64 - y0 as i64
        } else {
            y0 as i64 - y1 as i64
        };
        let pen = make_pen(dx, dy, width);
        let mut a: i64 = 0;
        let mut b: i64 = 0;
        let mut err: i64 = dx - dy;
        let ghost mut done: Seq<Blend> = Seq::empty();
        let ghost w = old(self).spec_width() as int;
        let ghost h = old(self).spec_height() as int;
        let ghost ix0 = x0 as int;
        let ghost iy0 = y0 as int;
        let ghost ix1 = x1 as int;
        let ghost iy1 = y1 as int;
        let ghost all = thick_points(ix0, iy0, ix1, iy1, width);
        proof {
            use_type_invariant(&*self);
            assert(error_term(dx as int, dy as int, 0, 0) == dx - dy) by (nonlinear_arith);
            assert(done + thick_from(ix0, iy0, ix1, iy1, pen, 0, 0) =~= all);
        }
        loop
            invariant_except_break
                done + thick_from(ix0, iy0, ix1, iy1, pen, a as int, b as int) == all,
            invariant
                self.wf(),
                self.spec_width() == w,
                self.spec_height() == h,
                ix0 == x0 && iy0 == y0 && ix1 == x1 && iy1 == y1,
                dx == span(ix0, ix1),
                dy == span(iy0, iy1),
                0 <= a <= dx,
                0 <= b <= dy,
                err == error_term(dx as int, dy as int, a as int, b as int),
                -2 * (dx + dy) <= err <= 2 * (dx + dy),
                self.bytes() == blend_all(old(self).bytes(), w, h, done, *rgba, pen),
            ensures
                self.wf(),
                self.spec_width() == w,
                self.spec_height() == h,
                done == all,
                self.bytes() == blend_all(old(self).bytes(), w, h, done, *rgba, pen),
            decreases (dx - a) + (dy - b),
        {
            let ghost pixels = step_pixels(ix0, iy0, ix1, iy1, pen, a as int, b as int);
            let ghost a0 = a as int;
            let ghost b0 = b as int;
            let ended = self.centre_step(x0, y0, x1, y1, a, b, err, rgba, &pen);
            proof {
                lemma_blend_all_concat(old(self).bytes(), w, h, done, pixels, *rgba, pen);
                lemma_thick_moves(dx as int, dy as int, a as int, b as int);
            }
            if ended {
                proof {
                    done = done + pixels;
                }
                break ;
            }
            let e_old: i64 = err;
            if 2 * e_old >= -dx {
                err = err - dy;
                a = a + 1;
            }
            if 2 * e_old <= dy {
                err = err + dx;
                b = b + 1;
            }
            proof {
                let next = thick_from(ix0, iy0, ix1, iy1, pen, a as int, b as int);
                assert((done + pixels) + next =~= done + (pixels + next));
                done = done + pixels;
                assert(error_term(dx as int, dy as int, a as int, b as int) == error_term(
                    dx as int,
                    dy as int,
                    a0,
                    b0,
                ) + dx * (b - b0) - dy * (a - a0)) by (nonlinear_arith);
                assert(dx * (b - b0) == (if b == b0 {
                    0
                } else {
                    dx as int
                })) by (nonlinear_arith)
                    requires
                        b == b0 || b == b0 + 1,
                ;
                assert(dy * (a - a0) == (if a == a0 {
                    0
                } else {
                    dy as int
                })) by (nonlinear_arith)
                    requires
                        a == a0 || a == a0 + 1,
                ;
            }
        }
    }
}

} // verus!
