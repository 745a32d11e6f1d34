use scenekit::mesh::{GeometryId, MeshData, MeshRegistry, Sample, Vertex};

fn s(x: i8) -> Sample {
    Sample::Corner { x, y: 0, z: 0 }
}

#[test]
fn quad_adds_four_vertices_six_indices() {
    let mut m = MeshData::new();
    m.push_quad(3, s(0), s(1), s(-1), s(0));
    assert_eq!(m.vertices.len(), 4);
    assert_eq!(m.indices, vec![0, 1, 2, 0, 2, 3]);
    assert_eq!(m.vertices[2], Vertex { object: 3, sample: s(-1) });
    m.push_quad(4, s(0), s(0), s(0), s(0));
    assert_eq!(&m.indices[6..], &[4, 5, 6, 4, 6, 7]);
}

#[test]
fn triangle_adds_three_vertices_three_indices() {
    let mut m = MeshData::new();
    m.push_quad(0, s(0), s(1), s(-1), s(0));
    m.push_triangle(1, s(1), s(0), s(-1));
    assert_eq!(m.vertices.len(), 7);
    assert_eq!(&m.indices[6..], &[4, 5, 6]);
}

#[test]
fn clear_empties_both_arrays() {
    let mut m = MeshData::new();
    m.push_triangle(1, s(1), s(0), s(-1));
    m.clear();
    assert!(m.vertices.is_empty());
    assert!(m.indices.is_empty());
    m.push_triangle(1, s(1), s(0), s(-1));
    assert_eq!(m.indices, vec![0, 1, 2]);
}

#[test]
fn registry_ids_are_positions() {
    let mut r: MeshRegistry<&str> = MeshRegistry::new();
    assert_eq!(r.add("a"), GeometryId(0));
    assert_eq!(r.add("b"), GeometryId(1));
    assert_eq!(r.baked_geometries, vec!["a", "b"]);
}
