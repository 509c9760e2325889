//! Fitting a model to the picture, and the reference grid under it.
//!
//! The scale that fits a model is found from the eight corners of its box
//! as they are projected at a scale of one: it makes the greater of their
//! two extents on the screen span the screen, which reaches from -1 to 1.
//! The grid is a square of lines in the plane under the model, as many
//! pitches wide as the model is, and one more.
//! All values are single precision, and every formula is computed in
//! single precision as it is written.

use crate::arith::{
    add_values, divide_values, divided, from_int, int_to_value, minus, multiply_values,
    plus, subtract_values, times, to_i32, value_to_i32, HALF, TWO,
};
use crate::aabb::{bounds_of, AABB};
use crate::matrix::{matmul, transformed, Mat4};
use crate::mesh::{TriangleSource, Vec3};
use crate::picture::{channel, Picture, RGBA};
use crate::rounding::unit_byte;
use crate::single::{max_of, maximum, min_of, minimum, MAX, MIN, ONE, SIGN};
use crate::thick::thick_drawn;
use vstd::prelude::*;

verus! {

/// The pitch of the grid, ten millimetres.
pub const GRID_SIZE: u32 = 0x4120_0000;

/// The value without its sign.
pub open spec fn absolute(a: u32) -> u32 {
    if a >= SIGN {
        (a - SIGN) as u32
    } else {
        a
    }
}

/// The smallest of the coordinates of `corners` along x, or along y where
/// `along_y` holds, ignoring what is not a number; the greatest finite
/// value where there is no corner.
pub open spec fn least_of(corners: Seq<Vec3>, along_y: bool) -> u32
    decreases corners.len(),
{
    if corners.len() == 0 {
        MAX
    } else {
        min_of(least_of(corners.drop_last(), along_y), if along_y {
            corners.last().y
        } else {
            corners.last().x
        })
    }
}

/// The greatest of the coordinates of `corners` along one axis; the least
/// finite value where there is no corner.
pub open spec fn greatest_of(corners: Seq<Vec3>, along_y: bool) -> u32
    decreases corners.len(),
{
    if corners.len() == 0 {
        MIN
    } else {
        max_of(greatest_of(corners.drop_last(), along_y), if along_y {
            corners.last().y
        } else {
            corners.last().x
        })
    }
}

/// The scale that fits projected corners to the screen: `1 / (extent / 2)`,
/// where the extent is the greater of the extents along x and along y.
pub open spec fn fit_scale(corners: Seq<Vec3>) -> u32 {
    let along_x = absolute(minus(greatest_of(corners, false), least_of(corners, false)));
    let along_y = absolute(minus(greatest_of(corners, true), least_of(corners, true)));
    divided(ONE, divided(max_of(along_x, along_y), TWO))
}

fn absolute_of(a: u32) -> (r: u32)
    ensures
        r == absolute(a),
{
    if a >= SIGN {
        a - SIGN
    } else {
        a
    }
}

/// The scale that fits projected corners to the screen.
pub fn scale_for_corners(corners: &[Vec3]) -> (scale: u32)
    ensures
        scale == fit_scale(corners@),
{
    let mut min_x = MAX;
    let mut min_y = MAX;
    let mut max_x = MIN;
    let mut max_y = MIN;
    let mut i: usize = 0;
    proof {
        assert(corners@.subrange(0, 0) =~= Seq::<Vec3>::empty());
    }
    while i < corners.len()
        invariant
            i <= corners@.len(),
            min_x == least_of(corners@.subrange(0, i as int), false),
            min_y == least_of(corners@.subrange(0, i as int), true),
            max_x == greatest_of(corners@.subrange(0, i as int), false),
            max_y == greatest_of(corners@.subrange(0, i as int), true),
        decreases corners@.len() - i,
    {
        let e = corners[i];
        proof {
            let next = corners@.subrange(0, i as int + 1);
            assert(next.drop_last() =~= corners@.subrange(0, i as int));
            assert(next.last() == e);
        }
        min_x = minimum(min_x, e.x);
        min_y = minimum(min_y, e.y);
        max_x = maximum(max_x, e.x);
        max_y = maximum(max_y, e.y);
        i = i + 1;
    }
    proof {
        assert(corners@.subrange(0, corners@.len() as int) =~= corners@);
    }
    let along_x = absolute_of(subtract_values(max_x, min_x));
    let along_y = absolute_of(subtract_values(max_y, min_y));
    divide_values(ONE, divide_values(maximum(along_x, along_y), TWO))
}

/// The eight corners of a box: the four of its lower face, then the four
/// of its upper face, each face row by row from the lower corner.
pub open spec fn corners_of(b: AABB) -> Seq<Vec3> {
    seq![
        Vec3 { x: b.lower.x, y: b.lower.y, z: b.lower.z },
        Vec3 { x: b.upper.x, y: b.lower.y, z: b.lower.z },
        Vec3 { x: b.lower.x, y: b.upper.y, z: b.lower.z },
        Vec3 { x: b.upper.x, y: b.upper.y, z: b.lower.z },
        Vec3 { x: b.lower.x, y: b.lower.y, z: b.upper.z },
        Vec3 { x: b.upper.x, y: b.lower.y, z: b.upper.z },
        Vec3 { x: b.lower.x, y: b.upper.y, z: b.upper.z },
        Vec3 { x: b.upper.x, y: b.upper.y, z: b.upper.z },
    ]
}

/// The scale that fits a box to the screen under the projection `mvp`.
pub open spec fn unit_scale(mvp: Mat4, b: AABB) -> u32 {
    fit_scale(corners_of(b).map_values(|c: Vec3| transformed(mvp, c)))
}

/// The scale that fits a box to the screen under the projection `mvp`.
pub fn scale_for_unitsize(mvp: &Mat4, aabb: &AABB) -> (scale: u32)
    ensures
        scale == unit_scale(*mvp, *aabb),
{
    let l = aabb.lower;
    let u = aabb.upper;
    let edges = [
        matmul(mvp, &Vec3 { x: l.x, y: l.y, z: l.z }),
        matmul(mvp, &Vec3 { x: u.x, y: l.y, z: l.z }),
        matmul(mvp, &Vec3 { x: l.x, y: u.y, z: l.z }),
        matmul(mvp, &Vec3 { x: u.x, y: u.y, z: l.z }),
        matmul(mvp, &Vec3 { x: l.x, y: l.y, z: u.z }),
        matmul(mvp, &Vec3 { x: u.x, y: l.y, z: u.z }),
        matmul(mvp, &Vec3 { x: l.x, y: u.y, z: u.z }),
        matmul(mvp, &Vec3 { x: u.x, y: u.y, z: u.z }),
    ];
    proof {
        assert(edges@ =~= corners_of(*aabb).map_values(|c: Vec3| transformed(*mvp, c)));
    }
    scale_for_corners(edges.as_slice())
}

/// The box around a model, and the scale that fits the box to the screen
/// under the projection `vp`. The model is read from its first triangle to
/// its last.
pub fn fit_mesh_scale<S: TriangleSource>(vp: &Mat4, mesh: &mut S) -> (fit: (AABB, u32))
    ensures
        fit.0 == bounds_of(old(mesh).all()),
        fit.1 == unit_scale(*vp, fit.0),
        final(mesh).all() == old(mesh).all(),
{
    let aabb = AABB::from_iterable(mesh);
    let scale = scale_for_unitsize(vp, &aabb);
    (aabb, scale)
}

/// How many cells the grid has along each side, for a model of the given
/// size at the given scale: the greater of the model's extents along x
/// and y, in pitches, and one more.
pub open spec fn grid_count(size: Vec3, scale: u32) -> i32 {
    let extent = max_of(size.x, size.y);
    to_i32(plus(divided(divided(times(extent, scale), scale), GRID_SIZE), ONE))
}

/// The distance between two lines of the grid at the given scale.
pub open spec fn grid_spacing(scale: u32) -> u32 {
    times(GRID_SIZE, scale)
}

/// The two ends of line `k` of a grid of `count` cells at the depth `z`.
/// The lines run along y, from half the grid's extent on one side to half
/// on the other; line 0 lies half the extent to the left.
pub open spec fn grid_line(k: int, count: i32, spacing: u32, z: u32) -> (Vec3, Vec3) {
    let offset = divided(times(from_int(count as int), spacing), TWO);
    let x = minus(times(spacing, from_int(k)), offset);
    let far = times(times(from_int(count as int), spacing), HALF);
    let near = times(times(from_int((-count) as int), spacing), HALF);
    (Vec3 { x, y: far, z }, Vec3 { x, y: near, z })
}

/// How many cells the grid has along each side.
pub fn count_grid(size: &Vec3, scale: u32) -> (count: i32)
    ensures
        count == grid_count(*size, scale),
{
    let extent = maximum(size.x, size.y);
    value_to_i32(
        add_values(
            divide_values(divide_values(multiply_values(extent, scale), scale), GRID_SIZE),
            ONE,
        ),
    )
}

/// The two ends of line `k` of the grid.
pub fn line_of_grid(k: i32, count: i32, scale: u32, z: u32) -> (ends: (Vec3, Vec3))
    ensures
        ends == grid_line(k as int, count, grid_spacing(scale), z),
{
    let spacing = multiply_values(GRID_SIZE, scale);
    let whole = multiply_values(int_to_value(count as i64), spacing);
    let offset = divide_values(whole, TWO);
    let x = subtract_values(multiply_values(spacing, int_to_value(k as i64)), offset);
    let far = multiply_values(whole, HALF);
    let near = multiply_values(multiply_values(int_to_value(-(count as i64)), spacing), HALF);
    (Vec3 { x, y: far, z }, Vec3 { x, y: near, z })
}

/// The pixel that the screen coordinate `v` falls on, on an axis of `size`
/// pixels, for a line: `(v + 1) / 2 * size`, cut to a whole number that
/// may be negative.
pub open spec fn line_pixel(v: u32, size: int) -> i32 {
    to_i32(times(divided(plus(v, ONE), TWO), from_int(size)))
}

fn pixel_for_line(v: u32, size: u32) -> (p: i32)
    ensures
        p == line_pixel(v, size as int),
{
    value_to_i32(
        multiply_values(divide_values(add_values(v, ONE), TWO), int_to_value(size as i64)),
    )
}

impl Picture {
    /// Draws the line of width one between two projected points.
    pub fn projected_line(&mut self, from: &Vec3, to: &Vec3, rgba: &RGBA)
        ensures
            final(self).wf(),
            final(self).spec_width() == old(self).spec_width(),
            final(self).spec_height() == old(self).spec_height(),
            final(self).bytes() == thick_drawn(
                old(self).bytes(),
                old(self).spec_width() as int,
                old(self).spec_height() as int,
                line_pixel(from.x, old(self).spec_width() as int) as int,
                line_pixel(from.y, old(self).spec_height() as int) as int,
                line_pixel(to.x, old(self).spec_width() as int) as int,
                line_pixel(to.y, old(self).spec_height() as int) as int,
                *rgba,
                ONE,
            ),
    {
        let w = self.width();
        let h = self.height();
        self.thick_line(
            pixel_for_line(from.x, w),
            pixel_for_line(from.y, h),
            pixel_for_line(to.x, w),
            pixel_for_line(to.y, h),
            rgba,
            ONE,
        );
    }
}

/// The picture with one line of the grid drawn: the line `k`, brought to
/// the screen by `vp`.
pub open spec fn grid_line_drawn(
    bytes: Seq<u8>,
    width: int,
    height: int,
    vp: Mat4,
    ends: (Vec3, Vec3),
    rgba: RGBA,
) -> Seq<u8> {
    let from = transformed(vp, ends.0);
    let to = transformed(vp, ends.1);
    thick_drawn(
        bytes,
        width,
        height,
        line_pixel(from.x, width) as int,
        line_pixel(from.y, height) as int,
        line_pixel(to.x, width) as int,
        line_pixel(to.y, height) as int,
        rgba,
        ONE,
    )
}

/// The picture with the first `k` lines of the grid drawn, in their order.
pub open spec fn grid_drawn(
    bytes: Seq<u8>,
    width: int,
    height: int,
    vp: Mat4,
    z: u32,
    rgba: RGBA,
    count: i32,
    scale: u32,
    k: int,
) -> Seq<u8>
    decreases k,
{
    if k <= 0 {
        bytes
    } else {
        grid_line_drawn(
            grid_drawn(bytes, width, height, vp, z, rgba, count, scale, k - 1),
            width,
            height,
            vp,
            grid_line(k - 1, count, grid_spacing(scale), z),
            rgba,
        )
    }
}

/// The colour of the grid: opaque, with the three channels given as
/// values between 0 and 1.
pub open spec fn grid_colour(color: Vec3) -> RGBA {
    RGBA {
        r: unit_byte(color.x) as u8,
        g: unit_byte(color.y) as u8,
        b: unit_byte(color.z) as u8,
        a: unit_byte(ONE) as u8,
    }
}

impl Picture {
    /// Draws the grid in the plane at height `z`: one line more than the
    /// grid has cells, each brought to the screen by `vp`. A count below
    /// zero leaves the picture as it is.
    pub fn draw_grid(
        &mut self,
        vp: &Mat4,
        z: u32,
        color: &Vec3,
        model_size: &Vec3,
        scale: u32,
    )
        ensures
            final(self).wf(),
            final(self).spec_width() == old(self).spec_width(),
            final(self).spec_height() == old(self).spec_height(),
            final(self).bytes() == grid_drawn(
                old(self).bytes(),
                old(self).spec_width() as int,
                old(self).spec_height() as int,
                *vp,
                z,
                grid_colour(*color),
                grid_count(*model_size, scale),
                scale,
                grid_count(*model_size, scale) + 1,
            ),
    {
        proof {
            use_type_invariant(&*self);
        }
        let rgba = RGBA::from_unit(color.x, color.y, color.z, ONE);
        let count = count_grid(model_size, scale);
        let mut k: i64 = 0;
        while k <= count as i64
            invariant
                0 <= k,
                count >= 0 ==> k <= count + 1,
                count < 0 ==> k == 0,
                count == grid_count(*model_size, scale),
                self.wf(),
                self.spec_width() == old(self).spec_width(),
                self.spec_height() == old(self).spec_height(),
                rgba == grid_colour(*color),
                self.bytes() == grid_drawn(
                    old(self).bytes(),
                    old(self).spec_width() as int,
                    old(self).spec_height() as int,
                    *vp,
                    z,
                    rgba,
                    count,
                    scale,
                    k as int,
                ),
            decreases count + 1 - k,
        {
            let ends = line_of_grid(k as i32, count, scale, z);
            let from = matmul(vp, &ends.0);
            let to = matmul(vp, &ends.1);
            self.projected_line(&from, &to, &rgba);
            k += 1;
        }
    }
}

/// The ground under a model: the grid in the plane at height `z`, drawn
/// twice, once with its lines along one side and once across.
#[derive(Debug, Clone, Copy, PartialEq, Eq)]
pub struct Ground {
    /// Brings the lines that run along to the screen.
    pub along: Mat4,
    /// Brings the lines that run across to the screen.
    pub across: Mat4,
    pub z: u32,
    /// The three channels of the grid's colour, as values between 0 and 1.
    pub color: Vec3,
    pub model_size: Vec3,
    pub scale: u32,
}

/// The bytes of a picture of the given size filled with one colour.
pub open spec fn filled(width: int, height: int, rgba: RGBA) -> Seq<u8> {
    Seq::new((4 * width * height) as nat, |i: int| channel(rgba, i % 4))
}

/// The picture with both grids of the ground drawn.
pub open spec fn ground_drawn(bytes: Seq<u8>, width: int, height: int, g: Ground) -> Seq<u8> {
    let count = grid_count(g.model_size, g.scale);
    let rgba = grid_colour(g.color);
    grid_drawn(
        grid_drawn(bytes, width, height, g.along, g.z, rgba, count, g.scale, count + 1),
        width,
        height,
        g.across,
        g.z,
        rgba,
        count,
        g.scale,
        count + 1,
    )
}

/// What a picture shows before any triangle is drawn: the background, and
/// on it the ground where there is one.
pub open spec fn backdrop_of(width: int, height: int, background: RGBA, ground: Option<Ground>) -> Seq<
    u8,
> {
    match ground {
        Some(g) => ground_drawn(filled(width, height, background), width, height, g),
        None => filled(width, height, background),
    }
}

/// The picture that a model is drawn onto: filled with the background,
/// with the ground drawn where one is given.
pub fn backdrop(width: u32, height: u32, background: &RGBA, ground: Option<&Ground>) -> (pic:
    Picture)
    requires
        width * height * 4 <= u32::MAX,
    ensures
        pic.wf(),
        pic.spec_width() == width,
        pic.spec_height() == height,
        pic.bytes() == backdrop_of(
            width as int,
            height as int,
            *background,
            match ground {
                Some(g) => Some(*g),
                None => None,
            },
        ),
{
    let mut pic = Picture::new(width, height);
    pic.fill(background);
    proof {
        assert(pic.bytes() =~= filled(width as int, height as int, *background));
    }
    match ground {
        Some(g) => {
            pic.draw_grid(&g.along, g.z, &g.color, &g.model_size, g.scale);
            pic.draw_grid(&g.across, g.z, &g.color, &g.model_size, g.scale);
        },
        None => {},
    }
    pic
}

} // verus!
