//! Triangle meshes: vertex positions and the faces that index them.

use vstd::prelude::*;

verus! {

/// A triangular face: three indices into a mesh's vertex list.
#[derive(Clone, Copy, PartialEq, Eq, Debug, Structural)]
pub struct Face {
    pub a: usize,
    pub b: usize,
    pub c: usize,
}

impl Face {
    /// The face of the vertices at `a`, `b` and `c`.
    pub fn new(a: usize, b: usize, c: usize) -> (face: Face)
        ensures
            face == (Face { a, b, c }),
    {
        Face { a: a, b: b, c: c }
    }

    /// True when all three indices address one of `count` vertices.
    pub open spec fn within(&self, count: int) -> bool {
        self.a < count && self.b < count && self.c < count
    }
}

/// A named mesh placed in the world. `V` is the type of a position; the
/// rotation holds one angle for each axis in the same type.
#[derive(Debug)]
pub struct Mesh<V> {
    pub name: String,
    pub vertices: Vec<V>,
    pub faces: Vec<Face>,
    pub position: V,
    pub rotation: V,
}

impl<V> Mesh<V> {
    /// The invariant of a mesh: every face indexes existing vertices.
    pub open spec fn well_formed(&self) -> bool {
        forall|i: int| 0 <= i < self.faces@.len() ==> (#[trigger] self.faces@[i]).within(
            self.vertices@.len() as int,
        )
    }

    /// A mesh at the default position with the default rotation.
    pub fn new(name: &str, verts: Vec<V>, faces: Vec<Face>) -> (mesh: Mesh<V>) where V: Default
        ensures
            mesh.name@ == name@,
            mesh.vertices == verts,
            mesh.faces == faces,
            call_ensures(V::default, (), mesh.position),
            call_ensures(V::default, (), mesh.rotation),
    {
        Mesh {
            name: name.to_owned(),
            vertices: verts,
            faces: faces,
            position: V::default(),
            rotation: V::default(),
        }
    }

    /// Moves the mesh to `new_pos`.
    pub fn set_position(&mut self, new_pos: V)
        ensures
            final(self).position == new_pos,
            final(self).name == old(self).name,
            final(self).vertices == old(self).vertices,
            final(self).faces == old(self).faces,
            final(self).rotation == old(self).rotation,
    {
        self.position = new_pos;
    }

    /// Turns the mesh to the angles `new_rot`.
    pub fn set_rotation(&mut self, new_rot: V)
        ensures
            final(self).rotation == new_rot,
            final(self).name == old(self).name,
            final(self).vertices == old(self).vertices,
            final(self).faces == old(self).faces,
            final(self).position == old(self).position,
    {
        self.rotation = new_rot;
    }

    /// Checks the invariant: whether every face indexes existing vertices.
    pub fn is_well_formed(&self) -> (ok: bool)
        ensures
            ok == self.well_formed(),
    {
        let count = self.vertices.len();
        let mut i: usize = 0;
        while i < self.faces.len()
            invariant
                i <= self.faces@.len(),
                count == self.vertices@.len(),
                forall|j: int| 0 <= j < i ==> (#[trigger] self.faces@[j]).within(count as int),
            decreases self.faces@.len() - i,
        {
            let face = self.faces[i];
            if !(face.a < count && face.b < count && face.c < count) {
                return false;
            }
            i += 1;
        }
        true
    }
}

} // verus!
