//! The index form of a triangle mesh.
use crate::traits::Triangle;
use vstd::prelude::*;

verus! {

/// A triangle of a mesh as three indices into its vertex list.
#[derive(Clone, Copy, PartialEq, Eq, Structural, Debug)]
pub struct IndexTriangle(pub usize, pub usize, pub usize);

impl IndexTriangle {
    /// The three vertex indices, in order.
    pub fn indices(&self) -> (r: (usize, usize, usize))
        ensures
            r == (self.0, self.1, self.2),
    {
        (self.0, self.1, self.2)
    }
}

/// A copy of a vertex.
fn copy_coords(v: &Vec<i32>) -> (r: Vec<i32>)
    ensures
        r@ == v@,
{
    let mut r: Vec<i32> = Vec::new();
    let mut i: usize = 0;
    while i < v.len()
        invariant
            i <= v@.len(),
            r@ == v@.take(i as int),
        decreases v@.len() - i,
    {
        r.push(v[i]);
        i += 1;
        assert(r@ =~= v@.take(i as int));
    }
    assert(v@.take(i as int) =~= v@);
    r
}

/// Whether `t` names three vertices of `vertices` that each have three
/// coordinates.
pub open spec fn names_vertices(vertices: Seq<Vec<i32>>, t: IndexTriangle) -> bool {
    &&& t.0 < vertices.len() && vertices[t.0 as int]@.len() == 3
    &&& t.1 < vertices.len() && vertices[t.1 as int]@.len() == 3
    &&& t.2 < vertices.len() && vertices[t.2 as int]@.len() == 3
}

/// The triangles of an index mesh paired with their geometry, ready to be
/// indexed by a hierarchy; `None` when a triangle names a vertex that is
/// missing or that does not have three coordinates.
pub fn index_primitives(vertices: &Vec<Vec<i32>>, triangles: &Vec<IndexTriangle>) -> (r: Option<
    Vec<(IndexTriangle, Triangle<3>)>,
>)
    ensures
        r.is_some() <==> forall|k: int|
            0 <= k < triangles@.len() ==> names_vertices(vertices@, #[trigger] triangles@[k]),
        r.is_some() ==> {
            let v = r.unwrap()@;
            &&& v.len() == triangles@.len()
            &&& forall|k: int|
                0 <= k < v.len() ==> {
                    let t = triangles@[k];
                    &&& (#[trigger] v[k]).0 == t
                    &&& v[k].1.wf()
                    &&& v[k].1.a@ == vertices@[t.0 as int]@
                    &&& v[k].1.b@ == vertices@[t.1 as int]@
                    &&& v[k].1.c@ == vertices@[t.2 as int]@
                }
        },
{
    let mut out: Vec<(IndexTriangle, Triangle<3>)> = Vec::new();
    let mut k: usize = 0;
    while k < triangles.len()
        invariant
            k <= triangles@.len(),
            out@.len() == k,
            forall|j: int| 0 <= j < k ==> names_vertices(vertices@, #[trigger] triangles@[j]),
            forall|j: int|
                0 <= j < k ==> {
                    let t = triangles@[j];
                    &&& (#[trigger] out@[j]).0 == t
                    &&& out@[j].1.wf()
                    &&& out@[j].1.a@ == vertices@[t.0 as int]@
                    &&& out@[j].1.b@ == vertices@[t.1 as int]@
                    &&& out@[j].1.c@ == vertices@[t.2 as int]@
                },
        decreases triangles@.len() - k,
    {
        let t = triangles[k];
        if t.0 >= vertices.len() || t.1 >= vertices.len() || t.2 >= vertices.len() {
            assert(!names_vertices(vertices@, triangles@[k as int]));
            return None;
        }
        if vertices[t.0].len() != 3 || vertices[t.1].len() != 3 || vertices[t.2].len() != 3 {
            assert(!names_vertices(vertices@, triangles@[k as int]));
            return None;
        }
        let geometry = Triangle::new(
            copy_coords(&vertices[t.0]),
            copy_coords(&vertices[t.1]),
            copy_coords(&vertices[t.2]),
        );
        out.push((t, geometry));
        k += 1;
    }
    Some(out)
}

} // verus!
