use scenekit::geometry::{latitude_steps, Geometry};
use scenekit::mesh::{MeshData, MeshError, Sample, Vertex};

fn corner(x: i8, y: i8, z: i8) -> Sample {
    Sample::Corner { x, y, z }
}

fn build(g: &Geometry<f32>) -> (Vec<Vertex>, Vec<u32>) {
    g.build().expect("small shapes fit in the buffer")
}

#[test]
fn box_has_24_vertices_and_36_indices() {
    let (v, i) = build(&Geometry::Box { width: 1.0, height: 2.0, depth: 3.0 });
    assert_eq!(v.len(), 24);
    assert_eq!(i.len(), 36);
    assert!(i.iter().all(|&k| (k as usize) < v.len()));
}

#[test]
fn box_corners_each_on_three_faces() {
    let (v, _) = build(&Geometry::Box { width: 1.0, height: 1.0, depth: 1.0 });
    for x in [-1i8, 1] {
        for y in [-1i8, 1] {
            for z in [-1i8, 1] {
                let faces_with = v
                    .chunks(4)
                    .filter(|q| q.iter().any(|vx| vx.sample == corner(x, y, z)))
                    .count();
                assert_eq!(faces_with, 3);
            }
        }
    }
    assert!(v.iter().all(|vx| match vx.sample {
        Sample::Corner { x, y, z } => x.abs() == 1 && y.abs() == 1 && z.abs() == 1,
        _ => false,
    }));
}

#[test]
fn box_front_face_winding() {
    let (v, i) = build(&Geometry::Box { width: 1.0, height: 1.0, depth: 1.0 });
    let front: Vec<Sample> = v[0..4].iter().map(|vx| vx.sample).collect();
    assert_eq!(front, vec![corner(-1, -1, 1), corner(1, -1, 1), corner(1, 1, 1), corner(-1, 1, 1)]);
    let back: Vec<Sample> = v[4..8].iter().map(|vx| vx.sample).collect();
    assert_eq!(back, vec![corner(1, -1, -1), corner(-1, -1, -1), corner(-1, 1, -1), corner(1, 1, -1)]);
    assert_eq!(&i[0..12], &[0, 1, 2, 0, 2, 3, 4, 5, 6, 4, 6, 7]);
}

#[test]
fn cube_is_a_box() {
    let cube = build(&Geometry::Cube { size: 2.0 });
    let boxed = build(&Geometry::Box { width: 2.0, height: 2.0, depth: 2.0 });
    assert_eq!(cube, boxed);
}

#[test]
fn plane_is_two_sided() {
    let (v, i) = build(&Geometry::Plane { size: 4.0 });
    assert_eq!(v.len(), 8);
    assert_eq!(i.len(), 12);
    let top: Vec<Sample> = v[0..4].iter().map(|vx| vx.sample).collect();
    let bottom: Vec<Sample> = v[4..8].iter().rev().map(|vx| vx.sample).collect();
    assert_eq!(top, bottom);
    assert!(v.iter().all(|vx| matches!(vx.sample, Sample::Corner { y: 0, .. })));
}

#[test]
fn pyramid_fans_from_apex() {
    let (v, i) = build(&Geometry::Pyramid { base_size: 1.0, height: 1.0 });
    assert_eq!(v.len(), 16);
    assert_eq!(i.len(), 18);
    for t in 0..4 {
        assert_eq!(v[3 * t].sample, corner(0, 1, 0));
    }
    assert_eq!(&i[12..18], &[12, 13, 14, 12, 14, 15]);
}

#[test]
fn sphere_quad_count() {
    // lat steps = max(8 / 2, 4) = 4
    let (v, i) = build(&Geometry::Sphere { radius: 1.0, subdivisions: 8 });
    assert_eq!(v.len(), 8 * 4 * 4);
    assert_eq!(i.len(), 8 * 4 * 6);
    // lat steps = max(20 / 2, 4) = 10
    let (v, _) = build(&Geometry::Sphere { radius: 1.0, subdivisions: 20 });
    assert_eq!(v.len(), 20 * 10 * 4);
}

#[test]
fn sphere_seam_closes() {
    let n = 6usize;
    let l = 4usize;
    let (v, _) = build(&Geometry::Sphere { radius: 1.0, subdivisions: n });
    for j in 0..l {
        let last = &v[4 * ((n - 1) * l + j)..4 * ((n - 1) * l + j + 1)];
        let first = &v[4 * j..4 * (j + 1)];
        assert_eq!(last[1].sample, first[0].sample);
        assert_eq!(last[2].sample, first[3].sample);
        assert_eq!(last[1].sample, Sample::Globe { lon: 0, lat: j });
    }
    assert!(v.iter().all(|vx| match vx.sample {
        Sample::Globe { lon, lat } => lon < n && lat <= l,
        _ => false,
    }));
}

#[test]
fn capsule_layout() {
    let n = 3usize;
    let (v, i) = build(&Geometry::Capsule { radius: 0.5, height: 2.0, subdivisions: n });
    // each band: one body quad and 4 top plus 4 bottom cap quads
    assert_eq!(v.len(), n * 9 * 4);
    assert_eq!(i.len(), n * 9 * 6);
    let body: Vec<Sample> = v[0..4].iter().map(|vx| vx.sample).collect();
    assert_eq!(
        body,
        vec![
            Sample::Cap { lon: 0, lat: 0, upper: false },
            Sample::Cap { lon: 1, lat: 0, upper: false },
            Sample::Cap { lon: 1, lat: 0, upper: true },
            Sample::Cap { lon: 0, lat: 0, upper: true },
        ]
    );
    let bottom: Vec<Sample> = v[8..12].iter().map(|vx| vx.sample).collect();
    assert_eq!(
        bottom,
        vec![
            Sample::Cap { lon: 0, lat: 0, upper: false },
            Sample::Cap { lon: 0, lat: 1, upper: false },
            Sample::Cap { lon: 1, lat: 1, upper: false },
            Sample::Cap { lon: 1, lat: 0, upper: false },
        ]
    );
    // the last band wraps back to longitude 0
    let last_body = &v[(n - 1) * 36..(n - 1) * 36 + 4];
    assert_eq!(last_body[1].sample, Sample::Cap { lon: 0, lat: 0, upper: false });
}

#[test]
fn no_subdivisions_no_primitives() {
    let (v, i) = build(&Geometry::Sphere { radius: 1.0, subdivisions: 0 });
    assert!(v.is_empty() && i.is_empty());
    let (v, i) = build(&Geometry::Capsule { radius: 1.0, height: 1.0, subdivisions: 0 });
    assert!(v.is_empty() && i.is_empty());
}

#[test]
fn oversized_shape_is_refused() {
    let g: Geometry<f32> = Geometry::Sphere { radius: 1.0, subdivisions: usize::MAX };
    assert_eq!(g.build(), Err(MeshError::IndexOverflow));
    let mut mesh = MeshData::new();
    mesh.push_triangle(7, corner(0, 0, 0), corner(1, 0, 0), corner(0, 1, 0));
    let g: Geometry<f32> = Geometry::Capsule { radius: 1.0, height: 1.0, subdivisions: 1 << 40 };
    assert_eq!(g.generate_mesh_data(&mut mesh, 0), Err(MeshError::IndexOverflow));
    assert_eq!(mesh.vertices.len(), 3);
    assert_eq!(mesh.indices, vec![0, 1, 2]);
}

#[test]
fn generate_appends_after_existing_vertices() {
    let mut mesh = MeshData::new();
    mesh.push_triangle(1, corner(0, 0, 0), corner(1, 0, 0), corner(0, 1, 0));
    let g: Geometry<f32> = Geometry::Plane { size: 1.0 };
    assert_eq!(g.generate_mesh_data(&mut mesh, 2), Ok(()));
    assert_eq!(mesh.vertices.len(), 11);
    assert_eq!(&mesh.indices[3..9], &[3, 4, 5, 3, 5, 6]);
    assert!(mesh.vertices[3..].iter().all(|vx| vx.object == 2));
}

#[test]
fn add_geometry_matches_generate() {
    let g: Geometry<f32> = Geometry::Capsule { radius: 1.0, height: 1.0, subdivisions: 5 };
    let mut a = MeshData::new();
    let mut b = MeshData::new();
    assert_eq!(a.add_geometry(&g, 4), Ok(()));
    assert_eq!(g.generate_mesh_data(&mut b, 4), Ok(()));
    assert_eq!(a.vertices, b.vertices);
    assert_eq!(a.indices, b.indices);
    assert_eq!(a.vertices.len(), 5 * 9 * 4);
}

#[test]
fn latitude_steps_half_but_at_least_four() {
    assert_eq!(latitude_steps(0), 4);
    assert_eq!(latitude_steps(9), 4);
    assert_eq!(latitude_steps(10), 5);
    assert_eq!(latitude_steps(33), 16);
}

#[test]
fn box_adds_24_and_36_to_a_filled_buffer() {
    let mut mesh = MeshData::new();
    let p: Geometry<f32> = Geometry::Pyramid { base_size: 1.0, height: 1.0 };
    assert_eq!(mesh.add_geometry(&p, 0), Ok(()));
    let b: Geometry<f32> = Geometry::Box { width: 1.0, height: 1.0, depth: 1.0 };
    assert_eq!(mesh.add_geometry(&b, 1), Ok(()));
    assert_eq!(mesh.vertices.len(), 16 + 24);
    assert_eq!(mesh.indices.len(), 18 + 36);
    assert_eq!(&mesh.indices[18..24], &[16, 17, 18, 16, 18, 19]);
}
