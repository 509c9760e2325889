//! Vectors of three single-precision values: differences, inner and outer
//! products, lengths. Every formula is computed in single precision as it
//! is written.

use crate::arith::{
    add_values, divide_values, divided, minus, multiply_values, negated, plus, root_value,
    square_root, subtract_values, times,
};
use crate::mesh::Vec3;
use crate::single::SIGN;
use vstd::prelude::*;

verus! {

/// `a - b`, coordinate by coordinate.
pub open spec fn difference3(a: Vec3, b: Vec3) -> Vec3 {
    Vec3 { x: minus(a.x, b.x), y: minus(a.y, b.y), z: minus(a.z, b.z) }
}

/// The vector that points the other way.
pub open spec fn reversed(a: Vec3) -> Vec3 {
    Vec3 { x: negated(a.x), y: negated(a.y), z: negated(a.z) }
}

/// The outer product `a x b`.
pub open spec fn cross3(a: Vec3, b: Vec3) -> Vec3 {
    Vec3 {
        x: minus(times(a.y, b.z), times(a.z, b.y)),
        y: minus(times(a.z, b.x), times(a.x, b.z)),
        z: minus(times(a.x, b.y), times(a.y, b.x)),
    }
}

/// The inner product `a.x * b.x + a.y * b.y + a.z * b.z`.
pub open spec fn dot3(a: Vec3, b: Vec3) -> u32 {
    plus(plus(times(a.x, b.x), times(a.y, b.y)), times(a.z, b.z))
}

/// The length of a vector: the square root of its inner product with
/// itself.
pub open spec fn length3(a: Vec3) -> u32 {
    square_root(dot3(a, a))
}

/// The vector over its length.
pub open spec fn normalized3(a: Vec3) -> Vec3 {
    Vec3 {
        x: divided(a.x, length3(a)),
        y: divided(a.y, length3(a)),
        z: divided(a.z, length3(a)),
    }
}

/// The normal of the triangle with the corners `v0`, `v1`, `v2`, by the
/// right-hand rule: the outer product of the two edges from `v0`, over its
/// length.
pub open spec fn face_normal(v0: Vec3, v1: Vec3, v2: Vec3) -> Vec3 {
    normalized3(cross3(difference3(v1, v0), difference3(v2, v0)))
}

pub fn subtract3(a: &Vec3, b: &Vec3) -> (v: Vec3)
    ensures
        v == difference3(*a, *b),
{
    Vec3 {
        x: subtract_values(a.x, b.x),
        y: subtract_values(a.y, b.y),
        z: subtract_values(a.z, b.z),
    }
}

fn negate(a: u32) -> (r: u32)
    ensures
        r == negated(a),
{
    if a >= SIGN {
        a - SIGN
    } else {
        a + SIGN
    }
}

pub fn reverse(a: &Vec3) -> (v: Vec3)
    ensures
        v == reversed(*a),
{
    Vec3 { x: negate(a.x), y: negate(a.y), z: negate(a.z) }
}

pub fn cross(a: &Vec3, b: &Vec3) -> (v: Vec3)
    ensures
        v == cross3(*a, *b),
{
    Vec3 {
        x: subtract_values(multiply_values(a.y, b.z), multiply_values(a.z, b.y)),
        y: subtract_values(multiply_values(a.z, b.x), multiply_values(a.x, b.z)),
        z: subtract_values(multiply_values(a.x, b.y), multiply_values(a.y, b.x)),
    }
}

pub fn dot(a: &Vec3, b: &Vec3) -> (d: u32)
    ensures
        d == dot3(*a, *b),
{
    add_values(
        add_values(multiply_values(a.x, b.x), multiply_values(a.y, b.y)),
        multiply_values(a.z, b.z),
    )
}

pub fn normalize(a: &Vec3) -> (v: Vec3)
    ensures
        v == normalized3(*a),
{
    let length = root_value(dot(a, a));
    Vec3 {
        x: divide_values(a.x, length),
        y: divide_values(a.y, length),
        z: divide_values(a.z, length),
    }
}

/// The normal of a triangle by the right-hand rule.
pub fn normal_of(v0: &Vec3, v1: &Vec3, v2: &Vec3) -> (n: Vec3)
    ensures
        n == face_normal(*v0, *v1, *v2),
{
    normalize(&cross(&subtract3(v1, v0), &subtract3(v2, v0)))
}

} // verus!
