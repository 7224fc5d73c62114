//! The canonical vertex record and its construction from per-channel
//! attribute streams.
//!
//! Every scalar of a vertex is a single-precision number, held here as its
//! 32-bit pattern: the record is laid out and copied, never computed with.

use vstd::prelude::*;

verus! {

/// Bit pattern of the single-precision number one.
pub const ONE_BITS: u32 = 0x3F80_0000;

/// Number of 32-bit words in one packed vertex record.
pub const VERTEX_WORDS: usize = 20;

/// Number of bytes in one packed vertex record; a multiple of 16.
pub const VERTEX_BYTES: usize = 80;

/// One vertex. Each scalar is a single-precision bit pattern.
#[derive(Clone, Copy, Debug)]
pub struct Vertex {
    /// Position, xyz.
    pub position: [u32; 3],
    /// Colour, rgb.
    pub color: [u32; 3],
    /// Normal, xyz.
    pub normal: [u32; 3],
    /// Tangent, xyz, and the handedness sign in the fourth scalar.
    pub tangent: [u32; 4],
    /// First texture coordinate pair, then the second.
    pub uv: [u32; 4],
}

impl Vertex {
    /// The packed record as 32-bit words. Position, colour and normal are
    /// each followed by one zero word of padding, so that the record is 80
    /// bytes long.
    pub open spec fn words(self) -> Seq<u32> {
        seq![
            self.position[0],
            self.position[1],
            self.position[2],
            0u32,
            self.color[0],
            self.color[1],
            self.color[2],
            0u32,
            self.normal[0],
            self.normal[1],
            self.normal[2],
            0u32,
            self.tangent[0],
            self.tangent[1],
            self.tangent[2],
            self.tangent[3],
            self.uv[0],
            self.uv[1],
            self.uv[2],
            self.uv[3],
        ]
    }

    /// Appends the packed record to `out`.
    pub fn push_words(&self, out: &mut Vec<u32>)
        ensures
            final(out)@ == old(out)@ + self.words(),
    {
        let ghost before = out@;
        out.push(self.position[0]);
        out.push(self.position[1]);
        out.push(self.position[2]);
        out.push(0);
        out.push(self.color[0]);
        out.push(self.color[1]);
        out.push(self.color[2]);
        out.push(0);
        out.push(self.normal[0]);
        out.push(self.normal[1]);
        out.push(self.normal[2]);
        out.push(0);
        out.push(self.tangent[0]);
        out.push(self.tangent[1]);
        out.push(self.tangent[2]);
        out.push(self.tangent[3]);
        out.push(self.uv[0]);
        out.push(self.uv[1]);
        out.push(self.uv[2]);
        out.push(self.uv[3]);
        assert(out@ =~= before + self.words());
    }
}

/// The words of a sequence of vertices, record after record.
pub open spec fn vertex_words(vertices: Seq<Vertex>) -> Seq<u32> {
    Seq::new(
        (VERTEX_WORDS * vertices.len()) as nat,
        |i: int| vertices[i / (VERTEX_WORDS as int)].words()[i % (VERTEX_WORDS as int)],
    )
}

/// Scalar `k` of element `i` of a stream, or `default` where the stream has
/// no element `i`.
pub open spec fn scalar_or<const N: usize>(stream: Seq<[u32; N]>, i: int, k: int, default: u32) -> u32 {
    if 0 <= i < stream.len() {
        stream[i][k]
    } else {
        default
    }
}

/// Whether `v` is vertex `i` built from the given attribute streams: the
/// position is copied; a missing normal or texture coordinate is zero; a
/// missing colour is white; of a colour only red, green and blue are kept;
/// the tangent is zero.
pub open spec fn is_built_vertex(
    v: Vertex,
    positions: Seq<[u32; 3]>,
    normals: Seq<[u32; 3]>,
    colors: Seq<[u32; 4]>,
    uv0: Seq<[u32; 2]>,
    uv1: Seq<[u32; 2]>,
    i: int,
) -> bool {
    &&& v.position == positions[i]
    &&& forall|k: int| 0 <= k < 3 ==> #[trigger] v.normal[k] == scalar_or(normals, i, k, 0)
    &&& forall|k: int| 0 <= k < 3 ==> #[trigger] v.color[k] == scalar_or(colors, i, k, ONE_BITS)
    &&& forall|k: int| 0 <= k < 4 ==> #[trigger] v.tangent[k] == 0
    &&& forall|k: int| 0 <= k < 2 ==> #[trigger] v.uv[k] == scalar_or(uv0, i, k, 0)
    &&& forall|k: int| 0 <= k < 2 ==> #[trigger] v.uv[k + 2] == scalar_or(uv1, i, k, 0)
}

/// Builds the vertex array of a primitive: one vertex per position, with
/// defaults where an optional stream is shorter than the positions. A
/// primitive without positions has no vertices.
pub fn build_vertices(
    positions: &Vec<[u32; 3]>,
    normals: &Vec<[u32; 3]>,
    colors: &Vec<[u32; 4]>,
    uv0: &Vec<[u32; 2]>,
    uv1: &Vec<[u32; 2]>,
) -> (vertices: Vec<Vertex>)
    ensures
        vertices@.len() == positions@.len(),
        forall|i: int|
            0 <= i < positions@.len() ==> is_built_vertex(
                #[trigger] vertices@[i],
                positions@,
                normals@,
                colors@,
                uv0@,
                uv1@,
                i,
            ),
{
    let mut vertices: Vec<Vertex> = Vec::new();
    let mut i: usize = 0;
    while i < positions.len()
        invariant
            i <= positions@.len(),
            vertices@.len() == i,
            forall|j: int|
                0 <= j < i ==> is_built_vertex(
                    #[trigger] vertices@[j],
                    positions@,
                    normals@,
                    colors@,
                    uv0@,
                    uv1@,
                    j,
                ),
        decreases positions@.len() - i,
    {
        let normal: [u32; 3] = if i < normals.len() {
            normals[i]
        } else {
            [0, 0, 0]
        };
        let color: [u32; 3] = if i < colors.len() {
            [colors[i][0], colors[i][1], colors[i][2]]
        } else {
            [ONE_BITS, ONE_BITS, ONE_BITS]
        };
        let first: [u32; 2] = if i < uv0.len() {
            uv0[i]
        } else {
            [0, 0]
        };
        let second: [u32; 2] = if i < uv1.len() {
            uv1[i]
        } else {
            [0, 0]
        };
        let v = Vertex {
            position: positions[i],
            color,
            normal,
            tangent: [0, 0, 0, 0],
            uv: [first[0], first[1], second[0], second[1]],
        };
        assert(is_built_vertex(v, positions@, normals@, colors@, uv0@, uv1@, i as int));
        vertices.push(v);
        i = i + 1;
    }
    vertices
}

} // verus!
