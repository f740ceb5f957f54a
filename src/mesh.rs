use vstd::prelude::*;
use crate::aabb::AABB;
use crate::vec3::{Vec3, COORD_LIMIT};

verus! {

/// A triangle mesh: vertex positions, faces as triples of vertex indices,
/// and the bounding box of all vertices.
#[derive(Debug)]
pub struct Mesh {
    pub vertices: Vec<Vec3>,
    pub indices: Vec<[u32; 3]>,
    pub aabb: AABB,
}

/// A set of meshes.
#[derive(Debug)]
pub struct Model {
    pub meshes: Vec<Mesh>,
}

/// Every corner index of every face names a vertex.
pub open spec fn faces_valid(vertices: Seq<Vec3>, indices: Seq<[u32; 3]>) -> bool {
    forall|f: int, c: int|
        0 <= f < indices.len() && 0 <= c < 3 ==> (#[trigger] indices[f]@[c] as int) < vertices.len()
}

impl Mesh {
    pub open spec fn wf(&self) -> bool {
        &&& self.vertices@.len() >= 1
        &&& forall|i: int| 0 <= i < self.vertices@.len() ==> (#[trigger] self.vertices@[i]).in_range()
        &&& faces_valid(self.vertices@, self.indices@)
        &&& self.aabb.bounds(self.vertices@)
    }

    /// The three corners of face `f`.
    pub open spec fn triangle(&self, f: int) -> Seq<Vec3> {
        let c = self.indices@[f]@;
        seq![
            self.vertices@[c[0] as int],
            self.vertices@[c[1] as int],
            self.vertices@[c[2] as int],
        ]
    }

    /// A mesh of the given vertices and faces, with its bounding box.
    pub fn new(vertices: Vec<Vec3>, indices: Vec<[u32; 3]>) -> (r: Mesh)
        requires
            vertices@.len() >= 1,
            forall|i: int| 0 <= i < vertices@.len() ==> (#[trigger] vertices@[i]).in_range(),
            faces_valid(vertices@, indices@),
        ensures
            r.wf(),
            r.vertices@ == vertices@,
            r.indices@ == indices@,
    {
        let aabb = AABB::from(vertices.as_slice());
        Mesh { vertices, indices, aabb }
    }

    /// `Mesh::new` when there is a vertex, every vertex is in range and every
    /// face names existing vertices; `None` otherwise.
    pub fn try_new(vertices: Vec<Vec3>, indices: Vec<[u32; 3]>) -> (r: Option<Mesh>)
        ensures
            r is Some <==> (vertices@.len() >= 1 && (forall|i: int|
                0 <= i < vertices@.len() ==> (#[trigger] vertices@[i]).in_range()) && faces_valid(
                vertices@,
                indices@,
            )),
            r matches Some(m) ==> m.wf() && m.vertices@ == vertices@ && m.indices@ == indices@,
    {
        if vertices.len() == 0 {
            return None;
        }
        let mut i: usize = 0;
        while i < vertices.len()
            invariant
                i <= vertices@.len(),
                forall|k: int| 0 <= k < i ==> (#[trigger] vertices@[k]).in_range(),
            decreases vertices@.len() - i,
        {
            let p = vertices[i];
            if !(-COORD_LIMIT <= p.x && p.x <= COORD_LIMIT && -COORD_LIMIT <= p.y && p.y <= COORD_LIMIT
                && -COORD_LIMIT <= p.z && p.z <= COORD_LIMIT) {
                assert(!vertices@[i as int].in_range());
                return None;
            }
            i = i + 1;
        }
        let n = vertices.len();
        let mut f: usize = 0;
        while f < indices.len()
            invariant
                f <= indices@.len(),
                n == vertices@.len(),
                forall|g: int, c: int|
                    0 <= g < f && 0 <= c < 3 ==> (#[trigger] indices@[g]@[c] as int) < vertices@.len(),
            decreases indices@.len() - f,
        {
            let c = indices[f];
            if !((c[0] as usize) < n && (c[1] as usize) < n && (c[2] as usize) < n) {
                proof {
                    assert(indices@[f as int] == c);
                    if !((c[0] as usize) < n) {
                        assert(!((indices@[f as int]@[0] as int) < vertices@.len()));
                    } else if !((c[1] as usize) < n) {
                        assert(!((indices@[f as int]@[1] as int) < vertices@.len()));
                    } else {
                        assert(!((indices@[f as int]@[2] as int) < vertices@.len()));
                    }
                }
                return None;
            }
            proof {
                assert forall|g: int, k: int| 0 <= g < f + 1 && 0 <= k < 3 implies (
                #[trigger] indices@[g]@[k] as int) < vertices@.len() by {
                    if g == f {
                        assert(indices@[g] == c);
                        if k == 0 {} else if k == 1 {} else {}
                    }
                }
            }
            f = f + 1;
        }
        Some(Mesh::new(vertices, indices))
    }

    /// The corners of face `f`.
    pub fn face(&self, f: usize) -> (r: [Vec3; 3])
        requires
            self.wf(),
            f < self.indices@.len(),
        ensures
            r@ == self.triangle(f as int),
            r@[0].in_range() && r@[1].in_range() && r@[2].in_range(),
    {
        let c = self.indices[f];
        proof {
            assert(c@[0] < self.vertices@.len() && c@[1] < self.vertices@.len() && c@[2]
                < self.vertices@.len()) by {
                assert((self.indices@[f as int]@[0] as int) < self.vertices@.len());
                assert((self.indices@[f as int]@[1] as int) < self.vertices@.len());
                assert((self.indices@[f as int]@[2] as int) < self.vertices@.len());
            }
        }
        let r = [self.vertices[c[0] as usize], self.vertices[c[1] as usize], self.vertices[c[2] as usize]];
        assert(r@ =~= self.triangle(f as int));
        r
    }

    /// The bounding box of each face, in face order.
    pub fn face_boxes(&self) -> (r: Vec<AABB>)
        requires
            self.wf(),
        ensures
            r@.len() == self.indices@.len(),
            forall|f: int| 0 <= f < r@.len() ==> (#[trigger] r@[f]).bounds(self.triangle(f)),
    {
        let mut r: Vec<AABB> = Vec::new();
        let mut f: usize = 0;
        while f < self.indices.len()
            invariant
                self.wf(),
                f <= self.indices@.len(),
                r@.len() == f,
                forall|g: int| 0 <= g < f ==> (#[trigger] r@[g]).bounds(self.triangle(g)),
            decreases self.indices@.len() - f,
        {
            let t = self.face(f);
            let b = AABB::from(&t);
            r.push(b);
            f = f + 1;
        }
        r
    }
}

} // verus!
