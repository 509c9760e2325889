//! Where a projected triangle lies on the screen: the pixel rectangle
//! around it, whether it covers a sample point, and its depth there.
//!
//! The screen reaches from -1 to 1 along both axes. All values are single
//! precision, and every formula is computed in single precision as it is
//! written.

use crate::arith::{
    add_values, divide_values, divided, from_int, int_to_value, minus, multiply_values, plus,
    subtract_values, times, to_u32, value_to_u32, HALF, TWO,
};
use crate::mesh::Vec3;
use crate::single::{at_most, is_nan, less_than, ONE};
use vstd::prelude::*;

verus! {

/// A point of the screen.
#[derive(Debug, Clone, Copy, PartialEq, Eq, Structural)]
pub struct Point {
    pub x: u32,
    pub y: u32,
}

/// The weights of a point with respect to the corners of a triangle.
#[derive(Debug, Clone, Copy, PartialEq, Eq, Structural)]
pub struct Weights {
    pub w0: u32,
    pub w1: u32,
    pub w2: u32,
}

/// A vertex without its depth.
pub open spec fn flat(v: Vec3) -> Point {
    Point { x: v.x, y: v.y }
}

/// The edge function of the edge from `a` to `b`, at `c`:
/// `(c.x - a.x) * (b.y - a.y) - (c.y - a.y) * (b.x - a.x)`.
#[verifier::opaque]
pub open spec fn edge(a: Point, b: Point, c: Point) -> u32 {
    minus(times(minus(c.x, a.x), minus(b.y, a.y)), times(minus(c.y, a.y), minus(b.x, a.x)))
}

/// The pixel that the screen coordinate `v` falls on, on an axis of `size`
/// pixels: `(v + 1) / 2 * size`, cut to a whole number.
#[verifier::opaque]
pub open spec fn to_pixel(v: u32, size: int) -> u32 {
    to_u32(times(divided(plus(v, ONE), TWO), from_int(size)))
}

/// The screen coordinate of the pixel `p` on an axis of `size` pixels:
/// `2 * (p / size - 0.5)`.
#[verifier::opaque]
pub open spec fn to_screen(p: int, size: int) -> u32 {
    times(TWO, minus(divided(from_int(p), from_int(size)), HALF))
}

/// The sample point of the pixel `(x, y)` of a picture of the given size.
pub open spec fn sample_point(x: int, y: int, width: int, height: int) -> Point {
    Point { x: to_screen(x, width), y: to_screen(y, height) }
}

/// Whether the triangle covers the point: none of its three edge functions
/// is positive there.
pub open spec fn covers(v0: Vec3, v1: Vec3, v2: Vec3, p: Point) -> bool {
    &&& at_most(edge(p, flat(v0), flat(v1)), 0)
    &&& at_most(edge(p, flat(v1), flat(v2)), 0)
    &&& at_most(edge(p, flat(v2), flat(v0)), 0)
}

/// The weights of the point: for each corner the edge function of the
/// opposite edge at the point, over that of the whole triangle.
pub open spec fn weights_at(v0: Vec3, v1: Vec3, v2: Vec3, p: Point) -> Weights {
    let area = edge(flat(v0), flat(v1), flat(v2));
    Weights {
        w0: divided(edge(flat(v1), flat(v2), p), area),
        w1: divided(edge(flat(v2), flat(v0), p), area),
        w2: divided(edge(flat(v0), flat(v1), p), area),
    }
}

/// The weighted sum `w0 * a + w1 * b + w2 * c`.
pub open spec fn weighted(w: Weights, a: u32, b: u32, c: u32) -> u32 {
    plus(plus(times(w.w0, a), times(w.w1, b)), times(w.w2, c))
}

/// The depth of the triangle at the point.
pub open spec fn depth_at(v0: Vec3, v1: Vec3, v2: Vec3, p: Point) -> u32 {
    weighted(weights_at(v0, v1, v2, p), v0.z, v1.z, v2.z)
}

/// The edge function of the edge from `a` to `b`, at `c`.
pub fn edge_function(a: &Point, b: &Point, c: &Point) -> (e: u32)
    ensures
        e == edge(*a, *b, *c),
{
    reveal(edge);
    subtract_values(
        multiply_values(subtract_values(c.x, a.x), subtract_values(b.y, a.y)),
        multiply_values(subtract_values(c.y, a.y), subtract_values(b.x, a.x)),
    )
}

/// The pixel that a screen coordinate falls on.
pub fn pixel_of(v: u32, size: u32) -> (p: u32)
    ensures
        p == to_pixel(v, size as int),
{
    reveal(to_pixel);
    value_to_u32(
        multiply_values(divide_values(add_values(v, ONE), TWO), int_to_value(size as i64)),
    )
}

/// The screen coordinate of a pixel.
pub fn screen_of(p: u32, size: u32) -> (v: u32)
    ensures
        v == to_screen(p as int, size as int),
{
    reveal(to_screen);
    multiply_values(
        TWO,
        subtract_values(divide_values(int_to_value(p as i64), int_to_value(size as i64)), HALF),
    )
}

fn not_positive(e: u32) -> (r: bool)
    ensures
        r == at_most(e, 0),
{
    !is_nan(e) && !less_than(0, e)
}

/// Whether the triangle covers the point.
pub fn is_covered(v0: &Vec3, v1: &Vec3, v2: &Vec3, p: &Point) -> (r: bool)
    ensures
        r == covers(*v0, *v1, *v2, *p),
{
    let p0 = Point { x: v0.x, y: v0.y };
    let p1 = Point { x: v1.x, y: v1.y };
    let p2 = Point { x: v2.x, y: v2.y };
    not_positive(edge_function(p, &p0, &p1)) && not_positive(edge_function(p, &p1, &p2))
        && not_positive(edge_function(p, &p2, &p0))
}

/// The weights of the point with respect to the triangle.
pub fn weights_of(v0: &Vec3, v1: &Vec3, v2: &Vec3, p: &Point) -> (w: Weights)
    ensures
        w == weights_at(*v0, *v1, *v2, *p),
{
    let p0 = Point { x: v0.x, y: v0.y };
    let p1 = Point { x: v1.x, y: v1.y };
    let p2 = Point { x: v2.x, y: v2.y };
    let area = edge_function(&p0, &p1, &p2);
    Weights {
        w0: divide_values(edge_function(&p1, &p2, p), area),
        w1: divide_values(edge_function(&p2, &p0, p), area),
        w2: divide_values(edge_function(&p0, &p1, p), area),
    }
}

/// The weighted sum of three values.
pub fn weigh(w: &Weights, a: u32, b: u32, c: u32) -> (v: u32)
    ensures
        v == weighted(*w, a, b, c),
{
    add_values(
        add_values(multiply_values(w.w0, a), multiply_values(w.w1, b)),
        multiply_values(w.w2, c),
    )
}

} // verus!
