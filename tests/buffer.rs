use pinball::mesh::MeshBuffer;

type Buffer = MeshBuffer<[f32; 3], [f32; 3]>;

fn buffer(vertices: &[[f32; 3]], indices: &[u32]) -> Buffer {
    let mut m = MeshBuffer::empty();
    m.vertices.extend_from_slice(vertices);
    m.normals.extend(vertices.iter().map(|_| [0.0f32, 1.0, 0.0]));
    m.indices.extend_from_slice(indices);
    m
}

fn triangle_a() -> Buffer {
    buffer(&[[0.0, 0.0, 0.0], [1.0, 0.0, 0.0], [0.0, 0.0, 1.0]], &[0, 2, 1])
}

fn quad_b() -> Buffer {
    buffer(
        &[[2.0, 0.0, 0.0], [3.0, 0.0, 0.0], [3.0, 0.0, 1.0], [2.0, 0.0, 1.0]],
        &[0, 1, 2, 2, 3, 0],
    )
}

fn triangle_c() -> Buffer {
    buffer(&[[5.0, 1.0, 0.0], [6.0, 1.0, 0.0], [5.0, 1.0, 1.0]], &[2, 1, 0])
}

fn parts(m: Buffer) -> (Vec<[f32; 3]>, Vec<[f32; 3]>, Vec<u32>) {
    m.into_surface()
}

#[test]
fn empty_buffer() {
    let m: Buffer = MeshBuffer::empty();
    let (v, n, i) = parts(m);
    assert!(v.is_empty() && n.is_empty() && i.is_empty());
}

#[test]
fn merge_shifts_indices() {
    let mut a = triangle_a();
    a.merge(quad_b());
    let (v, n, i) = parts(a);
    assert_eq!(v.len(), 7);
    assert_eq!(n.len(), 7);
    assert_eq!(v[3], [2.0, 0.0, 0.0]);
    assert_eq!(i, vec![0, 2, 1, 3, 4, 5, 5, 6, 3]);
}

#[test]
fn merge_into_empty_keeps_indices() {
    let mut e: Buffer = MeshBuffer::empty();
    e.merge(quad_b());
    assert_eq!(e.indices, vec![0, 1, 2, 2, 3, 0]);
}

#[test]
fn merge_is_associative() {
    let mut left = triangle_a();
    left.merge(quad_b());
    left.merge(triangle_c());

    let mut bc = quad_b();
    bc.merge(triangle_c());
    let mut right = triangle_a();
    right.merge(bc);

    assert_eq!(parts(left), parts(right));
}

#[test]
fn translate_moves_positions_only() {
    let mut m = quad_b();
    m.translate(|p: [f32; 3]| [p[0] + 1.0, p[1] - 2.0, p[2] + 0.5]);
    assert_eq!(m.vertices[0], [3.0, -2.0, 0.5]);
    assert_eq!(m.vertices[2], [4.0, -2.0, 1.5]);
    assert_eq!(m.normals, vec![[0.0, 1.0, 0.0]; 4]);
    assert_eq!(m.indices, vec![0, 1, 2, 2, 3, 0]);
}

#[test]
fn translate_distributes_over_merge() {
    let shift = |p: [f32; 3]| [p[0] - 0.25, p[1] + 1.0, p[2] + 3.0];

    let mut merged_then_moved = triangle_a();
    merged_then_moved.merge(quad_b());
    merged_then_moved.translate(shift);

    let mut a = triangle_a();
    a.translate(shift);
    let mut b = quad_b();
    b.translate(shift);
    a.merge(b);

    assert_eq!(parts(merged_then_moved), parts(a));
}
