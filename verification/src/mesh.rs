//! Vertex packer: lays the primitives of one mesh out in a single binary
//! blob and records, per submesh, its byte range and the place of its
//! index array.

use crate::vertex::{vertex_words, Vertex, VERTEX_BYTES, VERTEX_WORDS};
use vstd::prelude::*;

verus! {

/// Byte `k` (0 = least significant) of a 32-bit word.
pub open spec fn word_byte(w: u32, k: int) -> u8 {
    if k == 0 {
        (w % 256) as u8
    } else if k == 1 {
        ((w / 256) % 256) as u8
    } else if k == 2 {
        ((w / 65536) % 256) as u8
    } else {
        ((w / 16777216) % 256) as u8
    }
}

/// The bytes of a sequence of words, each word least significant byte first.
pub open spec fn little_endian(words: Seq<u32>) -> Seq<u8> {
    Seq::new((4 * words.len()) as nat, |i: int| word_byte(words[i / 4], i % 4))
}

/// The bytes of a sequence of words, each word most significant byte first.
pub open spec fn big_endian(words: Seq<u32>) -> Seq<u8> {
    Seq::new((4 * words.len()) as nat, |i: int| word_byte(words[i / 4], 3 - i % 4))
}

/// Whether `bytes` is the in-memory image of `words` in one of the two byte
/// orders a machine may have.
pub open spec fn is_memory_image(bytes: Seq<u8>, words: Seq<u32>) -> bool {
    bytes == little_endian(words) || bytes == big_endian(words)
}

/// Views a slice of 32-bit words as the bytes it occupies in memory.
///
/// Trusted: calls `bytemuck::cast_slice` from `u32` to `u8`. The cast keeps
/// the address and the byte length, so the result is four bytes per word in
/// the machine's own byte order; it cannot fail, since bytes have no
/// alignment and every word is a whole number of bytes.
#[verifier::external_body]
fn words_as_bytes(words: &[u32]) -> (bytes: &[u8])
    ensures
        is_memory_image(bytes@, words@),
{
    bytemuck::cast_slice::<u32, u8>(words)
}

/// One drawable chunk of a mesh.
pub struct Primitive {
    /// The vertex array, after tangent generation.
    pub vertices: Vec<Vertex>,
    /// The index array, in the winding it was given in.
    pub indices: Vec<u32>,
}

impl Primitive {
    /// Number of bytes the vertex records occupy.
    pub open spec fn vertex_bytes(self) -> int {
        VERTEX_BYTES * self.vertices@.len()
    }

    /// Number of bytes the primitive occupies: its vertex records, then four
    /// bytes per index.
    pub open spec fn packed_len(self) -> int {
        self.vertex_bytes() + 4 * self.indices@.len()
    }
}

/// Where one submesh lies in the blob. All offsets count bytes from the
/// start of the blob.
#[derive(Clone, Copy, Debug, PartialEq, Eq, Structural)]
pub struct Submesh {
    /// First byte of the submesh.
    pub start: usize,
    /// One past the last byte of the submesh.
    pub end: usize,
    /// First byte of the submesh's index array.
    pub index_byte_offset: usize,
    /// Number of indices.
    pub index_count: usize,
}

/// A packed mesh: the blob and one record per submesh.
pub struct PackedMesh {
    /// Vertex records and index array of each primitive, in order.
    pub blob: Vec<u8>,
    /// The byte range of each primitive, in order.
    pub submeshes: Vec<Submesh>,
}

/// Number of bytes that the first `n` primitives occupy.
pub open spec fn packed_prefix_len(primitives: Seq<Primitive>, n: int) -> int
    decreases n,
{
    if n <= 0 {
        0
    } else {
        packed_prefix_len(primitives, n - 1) + primitives[n - 1].packed_len()
    }
}

/// The record of submesh `i`: it starts where the primitives before it end.
pub open spec fn submesh_at(primitives: Seq<Primitive>, i: int) -> Submesh {
    Submesh {
        start: packed_prefix_len(primitives, i) as usize,
        end: packed_prefix_len(primitives, i + 1) as usize,
        index_byte_offset: (packed_prefix_len(primitives, i) + primitives[i].vertex_bytes()) as usize,
        index_count: primitives[i].indices@.len() as usize,
    }
}

/// Whether `bytes` is one primitive packed: the memory image of its vertex
/// records, then the memory image of its indices.
pub open spec fn is_packed_primitive(bytes: Seq<u8>, primitive: Primitive) -> bool {
    &&& bytes.len() == primitive.packed_len()
    &&& is_memory_image(
        bytes.subrange(0, primitive.vertex_bytes()),
        vertex_words(primitive.vertices@),
    )
    &&& is_memory_image(
        bytes.subrange(primitive.vertex_bytes(), primitive.packed_len()),
        primitive.indices@,
    )
}

/// Flattens a vertex array into its 32-bit words.
fn flatten(vertices: &Vec<Vertex>) -> (words: Vec<u32>)
    ensures
        words@ == vertex_words(vertices@),
{
    let mut words: Vec<u32> = Vec::new();
    let mut i: usize = 0;
    while i < vertices.len()
        invariant
            i <= vertices@.len(),
            words@.len() == VERTEX_WORDS * i,
            forall|j: int|
                0 <= j < words@.len() ==> words@[j] == vertices@[j / (VERTEX_WORDS as int)].words()[j
                    % (VERTEX_WORDS as int)],
        decreases vertices@.len() - i,
    {
        let ghost before = words@;
        vertices[i].push_words(&mut words);
        assert forall|j: int| 0 <= j < words@.len() implies words@[j] == vertices@[j / (
        VERTEX_WORDS as int)].words()[j % (VERTEX_WORDS as int)] by {
            if j >= before.len() {
                assert(j / 20 == i && j % 20 == j - 20 * i);
            }
        }
        i = i + 1;
    }
    assert(words@ =~= vertex_words(vertices@));
    words
}

/// Packs one primitive: its vertex records, then its indices. Returns the
/// bytes and the offset of the index array within them.
///
/// A primitive of N vertices and M indices packs to `80 * N + 4 * M` bytes,
/// with the index array at byte `80 * N`.
pub fn pack_primitive(primitive: &Primitive) -> (r: (Vec<u8>, usize))
    ensures
        is_packed_primitive(r.0@, *primitive),
        r.0@.len() == VERTEX_BYTES * primitive.vertices@.len() + 4 * primitive.indices@.len(),
        r.1 == VERTEX_BYTES * primitive.vertices@.len(),
{
    let words = flatten(&primitive.vertices);
    let mut bytes: Vec<u8> = Vec::new();
    bytes.extend_from_slice(words_as_bytes(words.as_slice()));
    let index_byte_offset: usize = bytes.len();
    bytes.extend_from_slice(words_as_bytes(primitive.indices.as_slice()));
    assert(bytes@.subrange(0, primitive.vertex_bytes()) =~= bytes@.subrange(
        0,
        index_byte_offset as int,
    ));
    assert(is_memory_image(
        bytes@.subrange(0, index_byte_offset as int),
        vertex_words(primitive.vertices@),
    )) by {
        let head = bytes@.subrange(0, index_byte_offset as int);
        assert(head =~= little_endian(words@) || head =~= big_endian(words@));
    }
    assert(is_memory_image(
        bytes@.subrange(primitive.vertex_bytes(), primitive.packed_len()),
        primitive.indices@,
    )) by {
        let tail = bytes@.subrange(index_byte_offset as int, bytes@.len() as int);
        assert(tail =~= little_endian(primitive.indices@) || tail =~= big_endian(
            primitive.indices@,
        ));
    }
    (bytes, index_byte_offset)
}

/// Packs the primitives of one mesh into a blob, in order, and records each
/// submesh's byte range, the place of its index array and its index count.
///
/// The first range starts at byte 0, each later one where the one before it
/// ends, and the last ends with the blob.
pub fn pack_mesh(primitives: &Vec<Primitive>) -> (mesh: PackedMesh)
    ensures
        mesh.blob@.len() == packed_prefix_len(primitives@, primitives@.len() as int),
        mesh.submeshes@.len() == primitives@.len(),
        forall|i: int|
            0 <= i < primitives@.len() ==> #[trigger] mesh.submeshes@[i] == submesh_at(
                primitives@,
                i,
            ),
        forall|i: int|
            0 <= i < primitives@.len() ==> is_packed_primitive(
                mesh.blob@.subrange(
                    packed_prefix_len(primitives@, i),
                    packed_prefix_len(primitives@, i + 1),
                ),
                #[trigger] primitives@[i],
            ),
        primitives@.len() > 0 ==> mesh.submeshes@[0].start == 0,
        forall|i: int|
            0 < i < primitives@.len() ==> (#[trigger] mesh.submeshes@[i]).start
                == mesh.submeshes@[i - 1].end,
{
    let mut blob: Vec<u8> = Vec::new();
    let mut submeshes: Vec<Submesh> = Vec::new();
    let mut i: usize = 0;
    while i < primitives.len()
        invariant
            i <= primitives@.len(),
            blob@.len() == packed_prefix_len(primitives@, i as int),
            submeshes@.len() == i,
            forall|j: int|
                0 <= j < i ==> #[trigger] submeshes@[j] == submesh_at(primitives@, j),
            forall|j: int|
                0 <= j < i ==> is_packed_primitive(
                    blob@.subrange(
                        packed_prefix_len(primitives@, j),
                        packed_prefix_len(primitives@, j + 1),
                    ),
                    #[trigger] primitives@[j],
                ),
        decreases primitives@.len() - i,
    {
        let ghost before = blob@;
        let start: usize = blob.len();
        let (bytes, offset) = pack_primitive(&primitives[i]);
        blob.extend_from_slice(bytes.as_slice());
        let end: usize = blob.len();
        proof {
            lemma_prefix_len_monotonic(primitives@, i as int + 1);
        }
        submeshes.push(
            Submesh {
                start,
                end,
                index_byte_offset: start + offset,
                index_count: primitives[i].indices.len(),
            },
        );
        assert(blob@.subrange(start as int, end as int) =~= bytes@);
        assert forall|j: int| 0 <= j < i implies is_packed_primitive(
            blob@.subrange(
                packed_prefix_len(primitives@, j),
                packed_prefix_len(primitives@, j + 1),
            ),
            #[trigger] primitives@[j],
        ) by {
            lemma_prefix_len_monotonic(primitives@, i as int);
            assert(blob@.subrange(
                packed_prefix_len(primitives@, j),
                packed_prefix_len(primitives@, j + 1),
            ) =~= before.subrange(
                packed_prefix_len(primitives@, j),
                packed_prefix_len(primitives@, j + 1),
            ));
        }
        i = i + 1;
    }
    PackedMesh { blob, submeshes }
}

/// The primitives before any position occupy no more bytes than those before
/// a later one.
proof fn lemma_prefix_len_monotonic(primitives: Seq<Primitive>, n: int)
    ensures
        forall|a: int, b: int|
            0 <= a <= b <= n ==> 0 <= #[trigger] packed_prefix_len(primitives, a)
                <= #[trigger] packed_prefix_len(primitives, b),
    decreases n,
{
    if n > 0 {
        lemma_prefix_len_monotonic(primitives, n - 1);
        assert(packed_prefix_len(primitives, n) == packed_prefix_len(primitives, n - 1)
            + primitives[n - 1].packed_len());
    }
}

} // verus!
