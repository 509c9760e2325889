//! The axis-aligned box around a sequence of triangles.

use crate::matrix::{matmul, transformed, Mat4};
use crate::mesh::{Mesh, Triangle, TriangleSource, Vec3};
use crate::arith::{add_values, minus, multiply_values, plus, subtract_values, times, HALF};
use crate::single::{
    at_most, lemma_min_max, max_of, maximum, min_of, minimum, nan, INFINITY, MAX, MIN,
    NEG_INFINITY,
};
use vstd::prelude::*;

verus! {

/// A box given by its least and its greatest corner.
#[derive(Debug, Clone, Copy, PartialEq, Eq, Structural)]
pub struct AABB {
    pub lower: Vec3,
    pub upper: Vec3,
}

/// The smallest of three values, ignoring what is not a number.
pub open spec fn min3(a: u32, b: u32, c: u32) -> u32 {
    min_of(min_of(a, b), c)
}

/// The greatest of three values, ignoring what is not a number.
pub open spec fn max3(a: u32, b: u32, c: u32) -> u32 {
    max_of(max_of(a, b), c)
}

/// The box around nothing: its lower corner is the greatest finite value on
/// every axis and its upper corner the least, so that any vertex replaces
/// both. It is no box: its corners are the wrong way round.
pub open spec fn empty_box() -> AABB {
    AABB { lower: Vec3 { x: MAX, y: MAX, z: MAX }, upper: Vec3 { x: MIN, y: MIN, z: MIN } }
}

/// `b` grown to hold the three vertices of `t`.
pub open spec fn grown(b: AABB, t: Triangle) -> AABB {
    let v = t.vertices;
    AABB {
        lower: Vec3 {
            x: min_of(b.lower.x, min3(v[0].x, v[1].x, v[2].x)),
            y: min_of(b.lower.y, min3(v[0].y, v[1].y, v[2].y)),
            z: min_of(b.lower.z, min3(v[0].z, v[1].z, v[2].z)),
        },
        upper: Vec3 {
            x: max_of(b.upper.x, max3(v[0].x, v[1].x, v[2].x)),
            y: max_of(b.upper.y, max3(v[0].y, v[1].y, v[2].y)),
            z: max_of(b.upper.z, max3(v[0].z, v[1].z, v[2].z)),
        },
    }
}

/// The box around all vertices of `triangles`: the box around nothing,
/// grown by each triangle in turn.
pub open spec fn bounds_of(triangles: Seq<Triangle>) -> AABB
    decreases triangles.len(),
{
    if triangles.len() == 0 {
        empty_box()
    } else {
        grown(bounds_of(triangles.drop_last()), triangles.last())
    }
}

/// The extent of the box along each axis: the upper corner less the lower,
/// in single precision.
pub open spec fn size_of(b: AABB) -> Vec3 {
    Vec3 {
        x: minus(b.upper.x, b.lower.x),
        y: minus(b.upper.y, b.lower.y),
        z: minus(b.upper.z, b.lower.z),
    }
}

/// The middle of the box: the lower corner and half the size, in single
/// precision.
pub open spec fn center_of(b: AABB) -> Vec3 {
    let size = size_of(b);
    Vec3 {
        x: plus(b.lower.x, times(size.x, HALF)),
        y: plus(b.lower.y, times(size.y, HALF)),
        z: plus(b.lower.z, times(size.z, HALF)),
    }
}

/// The coordinate of `v` on axis 0, 1 or 2.
pub open spec fn axis(v: Vec3, k: int) -> u32 {
    if k == 0 {
        v.x
    } else if k == 1 {
        v.y
    } else {
        v.z
    }
}

/// On every axis, the corners of the box around a sequence of triangles
/// are numbers, and every coordinate of a vertex that is a number lies
/// between them.
pub proof fn lemma_bounds_hold(triangles: Seq<Triangle>, i: int, j: int, k: int)
    requires
        0 <= i < triangles.len(),
        0 <= j < 3,
        0 <= k < 3,
    ensures
        !nan(axis(bounds_of(triangles).lower, k)),
        !nan(axis(bounds_of(triangles).upper, k)),
        !nan(axis(triangles[i].vertices[j], k)) ==> at_most(
            axis(bounds_of(triangles).lower, k),
            axis(triangles[i].vertices[j], k),
        ) && at_most(axis(triangles[i].vertices[j], k), axis(bounds_of(triangles).upper, k)),
    decreases triangles.len(),
{
    let before = bounds_of(triangles.drop_last());
    let t = triangles.last();
    let v = t.vertices;
    lemma_corners_are_numbers(triangles.drop_last(), k);
    let lo = axis(before.lower, k);
    let hi = axis(before.upper, k);
    let a = axis(v[0], k);
    let b = axis(v[1], k);
    let c = axis(v[2], k);
    lemma_min_max(a, b);
    lemma_min_max(min_of(a, b), c);
    lemma_min_max(max_of(a, b), c);
    lemma_min_max(lo, min3(a, b, c));
    lemma_min_max(hi, max3(a, b, c));
    if i < triangles.len() - 1 {
        lemma_bounds_hold(triangles.drop_last(), i, j, k);
        assert(triangles.drop_last()[i] == triangles[i]);
    }
}

/// On every axis, the corners of the box around any sequence of triangles
/// are numbers.
pub proof fn lemma_corners_are_numbers(triangles: Seq<Triangle>, k: int)
    requires
        0 <= k < 3,
    ensures
        !nan(axis(bounds_of(triangles).lower, k)),
        !nan(axis(bounds_of(triangles).upper, k)),
    decreases triangles.len(),
{
    if triangles.len() > 0 {
        lemma_corners_are_numbers(triangles.drop_last(), k);
        let before = bounds_of(triangles.drop_last());
        let v = triangles.last().vertices;
        let a = axis(v[0], k);
        let b = axis(v[1], k);
        let c = axis(v[2], k);
        lemma_min_max(axis(before.lower, k), min3(a, b, c));
        lemma_min_max(axis(before.upper, k), max3(a, b, c));
    }
}

/// The box around a sequence of triangles has its lower corner at or below
/// its upper corner on every axis on which some vertex has a coordinate
/// that is a number.
pub proof fn lemma_lower_at_most_upper(triangles: Seq<Triangle>, i: int, j: int, k: int)
    requires
        0 <= i < triangles.len(),
        0 <= j < 3,
        0 <= k < 3,
        !nan(axis(triangles[i].vertices[j], k)),
    ensures
        at_most(axis(bounds_of(triangles).lower, k), axis(bounds_of(triangles).upper, k)),
{
    lemma_bounds_hold(triangles, i, j, k);
}

/// The box around a single triangle has as lower corner, on each axis, the
/// smallest coordinate of its vertices, where that is a number other than
/// positive infinity, and as upper corner the greatest, where that is a
/// number other than negative infinity.
pub proof fn lemma_single_triangle(t: Triangle, k: int)
    requires
        0 <= k < 3,
    ensures
        ({
            let v = t.vertices;
            let least = min3(axis(v[0], k), axis(v[1], k), axis(v[2], k));
            let greatest = max3(axis(v[0], k), axis(v[1], k), axis(v[2], k));
            &&& !nan(least) && least != INFINITY ==> axis(bounds_of(seq![t]).lower, k) == least
            &&& !nan(greatest) && greatest != NEG_INFINITY ==> axis(bounds_of(seq![t]).upper, k)
                == greatest
        }),
{
    let s = seq![t];
    assert(s.drop_last() =~= Seq::<Triangle>::empty());
    assert(s.last() == t);
    assert(bounds_of(s.drop_last()) == empty_box());
}

impl AABB {
    /// The box around nothing.
    pub fn empty() -> (b: Self)
        ensures
            b == empty_box(),
    {
        AABB { lower: Vec3 { x: MAX, y: MAX, z: MAX }, upper: Vec3 { x: MIN, y: MIN, z: MIN } }
    }

    /// Grows the box to hold the three vertices of `t`.
    pub fn grow(&mut self, t: &Triangle)
        ensures
            *final(self) == grown(*old(self), *t),
    {
        let v0 = t.vertices[0];
        let v1 = t.vertices[1];
        let v2 = t.vertices[2];
        self.lower.x = minimum(self.lower.x, minimum(minimum(v0.x, v1.x), v2.x));
        self.lower.y = minimum(self.lower.y, minimum(minimum(v0.y, v1.y), v2.y));
        self.lower.z = minimum(self.lower.z, minimum(minimum(v0.z, v1.z), v2.z));
        self.upper.x = maximum(self.upper.x, maximum(maximum(v0.x, v1.x), v2.x));
        self.upper.y = maximum(self.upper.y, maximum(maximum(v0.y, v1.y), v2.y));
        self.upper.z = maximum(self.upper.z, maximum(maximum(v0.z, v1.z), v2.z));
    }

    /// The extent of the box along each axis.
    pub fn size(&self) -> (v: Vec3)
        ensures
            v == size_of(*self),
    {
        Vec3 {
            x: subtract_values(self.upper.x, self.lower.x),
            y: subtract_values(self.upper.y, self.lower.y),
            z: subtract_values(self.upper.z, self.lower.z),
        }
    }

    /// The middle of the box.
    pub fn center(&self) -> (v: Vec3)
        ensures
            v == center_of(*self),
    {
        let size = self.size();
        Vec3 {
            x: add_values(self.lower.x, multiply_values(size.x, HALF)),
            y: add_values(self.lower.y, multiply_values(size.y, HALF)),
            z: add_values(self.lower.z, multiply_values(size.z, HALF)),
        }
    }

    /// Moves both corners by a transformation. The corners are moved as
    /// they stand, so the result bounds the moved model only under a
    /// transformation that keeps the axes and their directions.
    pub fn apply_transform(&mut self, transform: &Mat4)
        ensures
            final(self).lower == transformed(*transform, old(self).lower),
            final(self).upper == transformed(*transform, old(self).upper),
    {
        self.lower = matmul(transform, &self.lower);
        self.upper = matmul(transform, &self.upper);
    }

    /// The box around the vertices of a mesh.
    pub fn from_mesh(mesh: &Mesh) -> (b: Self)
        ensures
            b == bounds_of(mesh@),
    {
        Self::from_triangles(mesh.triangles())
    }

    /// The box around the vertices of the given triangles. For no triangles
    /// it is the box around nothing, whose corners are the wrong way round.
    pub fn from_triangles(triangles: &[Triangle]) -> (b: Self)
        ensures
            b == bounds_of(triangles@),
    {
        let mut b = AABB::empty();
        let n = triangles.len();
        let mut i: usize = 0;
        proof {
            assert(triangles@.subrange(0, 0) =~= Seq::<Triangle>::empty());
        }
        while i < n
            invariant
                i <= n,
                n == triangles@.len(),
                b == bounds_of(triangles@.subrange(0, i as int)),
            decreases n - i,
        {
            b.grow(&triangles[i]);
            proof {
                let next = triangles@.subrange(0, i as int + 1);
                assert(next.drop_last() =~= triangles@.subrange(0, i as int));
                assert(next.last() == triangles@[i as int]);
            }
            i = i + 1;
        }
        proof {
            assert(triangles@.subrange(0, n as int) =~= triangles@);
        }
        b
    }

    /// The box around the vertices of all triangles of a source, which is
    /// read from its first triangle to its last.
    pub fn from_iterable<S: TriangleSource>(source: &mut S) -> (b: Self)
        ensures
            b == bounds_of(old(source).all()),
            final(source).all() == old(source).all(),
    {
        let mut b = AABB::empty();
        source.rewind();
        let ghost all = source.all();
        let ghost mut done: int = 0;
        proof {
            assert(all.subrange(0, 0) =~= Seq::<Triangle>::empty());
            assert(all.subrange(0, all.len() as int) =~= all);
        }
        loop
            invariant_except_break
                source.rest() == all.subrange(done, all.len() as int),
                b == bounds_of(all.subrange(0, done)),
            invariant
                0 <= done <= all.len(),
                source.all() == all,
                all == old(source).all(),
            ensures
                source.all() == all,
                b == bounds_of(all),
            decreases all.len() - done,
        {
            match source.next() {
                Some(t) => {
                    b.grow(&t);
                    proof {
                        let next = all.subrange(0, done + 1);
                        assert(next.drop_last() =~= all.subrange(0, done));
                        assert(next.last() == t);
                        assert(all.subrange(done, all.len() as int).drop_first() =~= all.subrange(
                            done + 1,
                            all.len() as int,
                        ));
                        done = done + 1;
                    }
                },
                None => {
                    proof {
                        assert(all.subrange(0, done) =~= all);
                    }
                    break ;
                },
            }
        }
        b
    }
}

} // verus!
