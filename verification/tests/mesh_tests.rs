use glb_converter::mesh::{pack_mesh, pack_primitive, Primitive, Submesh};
use glb_converter::tangent::{triangles, Triangle};
use glb_converter::vertex::{build_vertices, Vertex, ONE_BITS, VERTEX_BYTES, VERTEX_WORDS};

fn bits(x: f32) -> u32 {
    x.to_bits()
}

fn vertex(seed: u32) -> Vertex {
    Vertex {
        position: [seed, seed + 1, seed + 2],
        color: [seed + 3, seed + 4, seed + 5],
        normal: [seed + 6, seed + 7, seed + 8],
        tangent: [seed + 9, seed + 10, seed + 11, seed + 12],
        uv: [seed + 13, seed + 14, seed + 15, seed + 16],
    }
}

fn record(v: &Vertex) -> Vec<u8> {
    let words = [
        v.position[0], v.position[1], v.position[2], 0,
        v.color[0], v.color[1], v.color[2], 0,
        v.normal[0], v.normal[1], v.normal[2], 0,
        v.tangent[0], v.tangent[1], v.tangent[2], v.tangent[3],
        v.uv[0], v.uv[1], v.uv[2], v.uv[3],
    ];
    words.iter().flat_map(|w| w.to_ne_bytes()).collect()
}

fn primitive(n: u32, m: u32, seed: u32) -> Primitive {
    Primitive {
        vertices: (0..n).map(|i| vertex(seed + 100 * i)).collect(),
        indices: (0..m).map(|i| seed + i).collect(),
    }
}

fn expected_bytes(p: &Primitive) -> Vec<u8> {
    let mut out = Vec::new();
    for v in &p.vertices {
        out.extend(record(v));
    }
    for i in &p.indices {
        out.extend(i.to_ne_bytes());
    }
    out
}

#[test]
fn record_is_eighty_bytes_and_aligned() {
    assert_eq!(VERTEX_BYTES, 80);
    assert_eq!(VERTEX_BYTES, VERTEX_WORDS * 4);
    assert_eq!(VERTEX_BYTES % 16, 0);
    assert_eq!(ONE_BITS, 1.0f32.to_bits());
}

#[test]
fn one_primitive_packs_to_vertices_then_indices() {
    let p = primitive(2, 3, 0x0102_0304);
    let (bytes, index_offset) = pack_primitive(&p);
    assert_eq!(bytes.len(), 2 * 80 + 3 * 4);
    assert_eq!(index_offset, 2 * 80);
    assert_eq!(bytes, expected_bytes(&p));
    assert_eq!(&bytes[160..164], &0x0102_0304u32.to_ne_bytes());
}

#[test]
fn padding_words_are_zero() {
    let p = Primitive { vertices: vec![vertex(0xffff_0000)], indices: vec![] };
    let (bytes, index_offset) = pack_primitive(&p);
    assert_eq!(index_offset, 80);
    assert_eq!(bytes.len(), 80);
    for pad in [12, 28, 44] {
        assert_eq!(&bytes[pad..pad + 4], &[0, 0, 0, 0]);
    }
    assert_eq!(&bytes[0..4], &0xffff_0000u32.to_ne_bytes());
    assert_eq!(&bytes[48..52], &(0xffff_0000u32 + 9).to_ne_bytes());
    assert_eq!(&bytes[64..68], &(0xffff_0000u32 + 13).to_ne_bytes());
}

#[test]
fn empty_primitive_packs_to_nothing() {
    let p = Primitive { vertices: vec![], indices: vec![] };
    let (bytes, index_offset) = pack_primitive(&p);
    assert!(bytes.is_empty());
    assert_eq!(index_offset, 0);
}

#[test]
fn single_submesh_covers_the_blob() {
    let mesh = pack_mesh(&vec![primitive(3, 6, 10)]);
    assert_eq!(mesh.blob.len(), 3 * 80 + 6 * 4);
    assert_eq!(
        mesh.submeshes,
        vec![Submesh { start: 0, end: 264, index_byte_offset: 240, index_count: 6 }]
    );
}

#[test]
fn submesh_ranges_are_contiguous() {
    let prims = vec![primitive(3, 6, 1), primitive(0, 0, 2), primitive(1, 3, 3), primitive(4, 12, 4)];
    let mesh = pack_mesh(&prims);
    assert_eq!(mesh.submeshes.len(), 4);
    assert_eq!(mesh.submeshes[0].start, 0);
    for i in 1..mesh.submeshes.len() {
        assert_eq!(mesh.submeshes[i].start, mesh.submeshes[i - 1].end);
    }
    assert_eq!(mesh.submeshes[3].end, mesh.blob.len());
    assert_eq!(
        mesh.submeshes,
        vec![
            Submesh { start: 0, end: 264, index_byte_offset: 240, index_count: 6 },
            Submesh { start: 264, end: 264, index_byte_offset: 264, index_count: 0 },
            Submesh { start: 264, end: 356, index_byte_offset: 344, index_count: 3 },
            Submesh { start: 356, end: 724, index_byte_offset: 676, index_count: 12 },
        ]
    );
}

#[test]
fn blob_is_the_primitives_one_after_another() {
    let prims = vec![primitive(2, 3, 7), primitive(1, 6, 9)];
    let mesh = pack_mesh(&prims);
    let mut expected = expected_bytes(&prims[0]);
    expected.extend(expected_bytes(&prims[1]));
    assert_eq!(mesh.blob, expected);
    for (i, s) in mesh.submeshes.iter().enumerate() {
        let indices: Vec<u8> = prims[i].indices.iter().flat_map(|x| x.to_ne_bytes()).collect();
        assert_eq!(&mesh.blob[s.index_byte_offset..s.end], &indices[..]);
        assert_eq!(s.index_count, prims[i].indices.len());
    }
}

#[test]
fn mesh_without_primitives_is_empty() {
    let mesh = pack_mesh(&vec![]);
    assert!(mesh.blob.is_empty());
    assert!(mesh.submeshes.is_empty());
}

#[test]
fn vertices_copy_the_streams() {
    let positions = vec![[bits(1.0), bits(2.0), bits(3.0)]];
    let normals = vec![[bits(0.0), bits(1.0), bits(0.0)]];
    let colors = vec![[bits(0.1), bits(0.2), bits(0.3), bits(0.4)]];
    let uv0 = vec![[bits(0.5), bits(0.6)]];
    let uv1 = vec![[bits(0.7), bits(0.8)]];
    let vs = build_vertices(&positions, &normals, &colors, &uv0, &uv1);
    assert_eq!(vs.len(), 1);
    assert_eq!(vs[0].position, positions[0]);
    assert_eq!(vs[0].normal, normals[0]);
    assert_eq!(vs[0].color, [bits(0.1), bits(0.2), bits(0.3)]);
    assert_eq!(vs[0].uv, [bits(0.5), bits(0.6), bits(0.7), bits(0.8)]);
    assert_eq!(vs[0].tangent, [0, 0, 0, 0]);
}

#[test]
fn missing_streams_fall_back_to_defaults() {
    let positions = vec![[1, 2, 3], [4, 5, 6]];
    let normals = vec![[7, 8, 9]];
    let vs = build_vertices(&positions, &normals, &vec![], &vec![], &vec![]);
    assert_eq!(vs.len(), 2);
    assert_eq!(vs[0].normal, [7, 8, 9]);
    assert_eq!(vs[1].normal, [0, 0, 0]);
    let white = bits(1.0);
    for v in &vs {
        assert_eq!(v.color, [white, white, white]);
        assert_eq!(v.uv, [0, 0, 0, 0]);
        assert_eq!(v.tangent, [0, 0, 0, 0]);
    }
    assert_eq!(vs[1].position, [4, 5, 6]);
}

#[test]
fn primitive_without_positions_has_no_vertices() {
    let vs = build_vertices(&vec![], &vec![[1, 2, 3]], &vec![[1, 2, 3, 4]], &vec![[1, 2]], &vec![]);
    assert!(vs.is_empty());
}

#[test]
fn index_list_is_read_in_triples() {
    let list = triangles(&vec![0, 1, 2, 2, 1, 3], 4);
    assert_eq!(list, vec![Triangle { a: 0, b: 1, c: 2 }, Triangle { a: 2, b: 1, c: 3 }]);
}

#[test]
fn remainder_of_an_index_list_is_ignored() {
    assert_eq!(triangles(&vec![0, 1, 2, 0], 3), vec![Triangle { a: 0, b: 1, c: 2 }]);
    assert_eq!(triangles(&vec![0, 1, 2, 0, 1], 3), vec![Triangle { a: 0, b: 1, c: 2 }]);
    assert_eq!(triangles(&vec![0, 1], 3), vec![]);
    assert_eq!(triangles(&vec![], 3), vec![]);
}

#[test]
fn triangle_with_an_unknown_corner_is_left_out() {
    let list = triangles(&vec![0, 1, 3, 0, 1, 2, 9, 0, 1], 3);
    assert_eq!(list, vec![Triangle { a: 0, b: 1, c: 2 }]);
    assert_eq!(triangles(&vec![0, 0, 0], 0), vec![]);
}
