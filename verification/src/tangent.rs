//! The triangle list that tangent generation walks.
//!
//! Tangent frames are computed in floating point by the caller; what is
//! decided here is which index triples take part.

use vstd::prelude::*;

verus! {

/// One triangle: three vertex indices in the winding they were given in.
#[derive(Clone, Copy, Debug, PartialEq, Eq, Structural)]
pub struct Triangle {
    pub a: u32,
    pub b: u32,
    pub c: u32,
}

impl Triangle {
    /// Whether all three corners name one of `vertex_count` vertices.
    pub open spec fn within(self, vertex_count: int) -> bool {
        self.a < vertex_count && self.b < vertex_count && self.c < vertex_count
    }
}

/// Triangle `t` of an index list: indices `3t`, `3t + 1` and `3t + 2`.
pub open spec fn triangle_at(indices: Seq<u32>, t: int) -> Triangle {
    Triangle { a: indices[3 * t], b: indices[3 * t + 1], c: indices[3 * t + 2] }
}

/// Those among the first `n` triangles of an index list whose corners all
/// name a vertex, in order.
pub open spec fn usable_triangles(indices: Seq<u32>, vertex_count: int, n: int) -> Seq<Triangle>
    decreases n,
{
    if n <= 0 {
        Seq::empty()
    } else if triangle_at(indices, n - 1).within(vertex_count) {
        usable_triangles(indices, vertex_count, n - 1).push(triangle_at(indices, n - 1))
    } else {
        usable_triangles(indices, vertex_count, n - 1)
    }
}

/// Reads an index list as a triangle list: consecutive triples, a remainder
/// of one or two indices ignored. A triple with a corner that names no
/// vertex is left out, so that every corner returned can be looked up.
pub fn triangles(indices: &Vec<u32>, vertex_count: usize) -> (list: Vec<Triangle>)
    ensures
        list@ == usable_triangles(indices@, vertex_count as int, indices@.len() as int / 3),
        forall|i: int| 0 <= i < list@.len() ==> (#[trigger] list@[i]).within(vertex_count as int),
{
    let len: usize = indices.len();
    let count: usize = len / 3;
    let mut list: Vec<Triangle> = Vec::new();
    let mut t: usize = 0;
    while t < count
        invariant
            t <= count,
            len == indices@.len(),
            count == len / 3,
            list@ == usable_triangles(indices@, vertex_count as int, t as int),
            forall|i: int| 0 <= i < list@.len() ==> (#[trigger] list@[i]).within(vertex_count as int),
        decreases count - t,
    {
        let a: u32 = indices[3 * t];
        let b: u32 = indices[3 * t + 1];
        let c: u32 = indices[3 * t + 2];
        if (a as usize) < vertex_count && (b as usize) < vertex_count && (c as usize) < vertex_count {
            list.push(Triangle { a, b, c });
        }
        t = t + 1;
    }
    list
}

} // verus!
