//! Triangles and meshes.
//!
//! A coordinate is a single-precision value held as its bit pattern; see
//! the `single` module for what the patterns mean.

use vstd::prelude::*;

verus! {

/// Three single-precision coordinates, each as its bit pattern.
#[derive(Debug, Clone, Copy, PartialEq, Eq, Structural)]
pub struct Vec3 {
    pub x: u32,
    pub y: u32,
    pub z: u32,
}

impl Vec3 {
    pub fn new(x: u32, y: u32, z: u32) -> (v: Self)
        ensures
            v == (Vec3 { x, y, z }),
    {
        Vec3 { x, y, z }
    }
}

/// Three vertices, whose order gives the winding, and a normal.
#[derive(Debug, Clone, Copy, PartialEq, Eq)]
pub struct Triangle {
    pub vertices: [Vec3; 3],
    pub normal: Vec3,
}

impl Triangle {
    pub fn new(vertices: [Vec3; 3], normal: Vec3) -> (t: Self)
        ensures
            t == (Triangle { vertices, normal }),
    {
        Triangle { vertices, normal }
    }
}

/// An ordered collection of triangles; the order is the order of drawing.
#[derive(Debug)]
pub struct Mesh(Vec<Triangle>);

impl View for Mesh {
    type V = Seq<Triangle>;

    closed spec fn view(&self) -> Seq<Triangle> {
        self.0@
    }
}

impl Mesh {
    pub fn new(data: Vec<Triangle>) -> (mesh: Self)
        ensures
            mesh@ == data@,
    {
        Mesh(data)
    }

    pub fn len(&self) -> (n: usize)
        ensures
            n == self@.len(),
    {
        self.0.len()
    }

    /// The triangle at `index`.
    pub fn get(&self, index: usize) -> (t: &Triangle)
        requires
            index < self@.len(),
        ensures
            *t == self@[index as int],
    {
        &self.0[index]
    }

    /// The triangles as a slice.
    pub fn triangles(&self) -> (s: &[Triangle])
        ensures
            s@ == self@,
    {
        self.0.as_slice()
    }

    /// A cursor at the first triangle.
    pub fn iter(&self) -> (it: MeshIter<'_>)
        ensures
            it.rest() == self@,
            it.whole() == self@,
    {
        MeshIter { mesh: self.0.as_slice(), i: 0 }
    }
}

/// A sequence of triangles that can be read from its first triangle, as
/// often as needed. One cursor reads it at a time.
pub trait TriangleSource {
    /// The triangles from the first on.
    spec fn all(&self) -> Seq<Triangle>;

    /// The triangles that the cursor has not handed out yet.
    spec fn rest(&self) -> Seq<Triangle>;

    /// Sends the cursor back to the first triangle.
    fn rewind(&mut self)
        ensures
            final(self).all() == old(self).all(),
            final(self).rest() == old(self).all(),
    ;

    /// Hands out the next triangle, or `None` when none is left.
    fn next(&mut self) -> (t: Option<Triangle>)
        ensures
            final(self).all() == old(self).all(),
            match t {
                Some(x) => old(self).rest().len() > 0 && x == old(self).rest()[0]
                    && final(self).rest() == old(self).rest().drop_first(),
                None => old(self).rest().len() == 0,
            },
    ;
}

/// A cursor over the triangles of a mesh.
pub struct MeshIter<'a> {
    mesh: &'a [Triangle],
    i: usize,
}

impl<'a> MeshIter<'a> {
    #[verifier::type_invariant]
    closed spec fn wf(&self) -> bool {
        self.i <= self.mesh@.len()
    }

    /// The triangles that the cursor has not handed out yet.
    pub closed spec fn rest(&self) -> Seq<Triangle> {
        self.mesh@.subrange(self.i as int, self.mesh@.len() as int)
    }

    /// The triangles of the mesh.
    pub closed spec fn whole(&self) -> Seq<Triangle> {
        self.mesh@
    }

    /// Hands out the next triangle, or `None` when none is left.
    pub fn next(&mut self) -> (t: Option<Triangle>)
        ensures
            final(self).whole() == old(self).whole(),
            old(self).rest().len() == 0 ==> t.is_none() && final(self).rest() == old(self).rest(),
            old(self).rest().len() > 0 ==> t == Some(old(self).rest()[0]) && final(self).rest()
                == old(self).rest().drop_first(),
    {
        proof {
            use_type_invariant(&*self);
        }
        if self.i < self.mesh.len() {
            let t = self.mesh[self.i];
            self.i = self.i + 1;
            proof {
                assert(self.rest() =~= old(self).rest().drop_first());
            }
            Some(t)
        } else {
            None
        }
    }
}

impl<'a> TriangleSource for MeshIter<'a> {
    open spec fn all(&self) -> Seq<Triangle> {
        self.whole()
    }

    open spec fn rest(&self) -> Seq<Triangle> {
        MeshIter::rest(self)
    }

    fn rewind(&mut self) {
        proof {
            use_type_invariant(&*self);
        }
        self.i = 0;
        proof {
            assert(MeshIter::rest(self) =~= self.whole());
        }
    }

    fn next(&mut self) -> (t: Option<Triangle>) {
        MeshIter::next(self)
    }
}

} // verus!
