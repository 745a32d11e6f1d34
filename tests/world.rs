use scenekit::geometry::Geometry;
use scenekit::mesh::{MeshError, Sample};
use scenekit::transform::Transform;
use scenekit::world::{Object, ObjectConstructor, World, WorldError};

fn identity() -> Transform<f32> {
    Transform { position: [0.0; 3], rotation: [0.0; 3], scale: [1.0; 3] }
}

fn shape(name: &str, g: Geometry<f32>) -> Object<f32> {
    Object::from_geometry(name, g, identity(), [1.0, 1.0, 1.0, 1.0])
}

fn group(name: &str) -> Object<f32> {
    Object::new(ObjectConstructor {
        name: name.to_string(),
        transform: identity(),
        geometry: None,
        color: [1.0, 1.0, 1.0, 1.0],
    })
}

#[test]
fn spawn_links_parent_and_roots() {
    let mut w = World::new();
    let a = w.spawn_object(group("a"), None).unwrap();
    let b = w.spawn_object(group("b"), Some(a)).unwrap();
    let c = w.spawn_object(group("c"), None).unwrap();
    assert_eq!((a, b, c), (0, 1, 2));
    assert_eq!(w.roots(), &vec![0, 2]);
    assert_eq!(w.get(a).unwrap().children, vec![1]);
    assert_eq!(w.get(b).unwrap().parent, Some(0));
    assert_eq!(w.get(b).unwrap().object.name, "b");
    assert_eq!(w.id_bound(), 3);
}

#[test]
fn spawned_object_starts_without_children() {
    let mut w = World::new();
    let a = w.spawn_object(group("a"), None).unwrap();
    let b = w.spawn_object(group("b"), Some(a)).unwrap();
    assert!(w.get(b).unwrap().children.is_empty());
    assert_eq!(w.get(a).unwrap().parent, None);
}

#[test]
fn spawn_under_missing_parent_fails() {
    let mut w = World::new();
    let a = w.spawn_object(group("a"), None).unwrap();
    assert_eq!(w.spawn_object(group("b"), Some(7)), Err(WorldError::DanglingReference));
    w.delete(a);
    assert_eq!(w.spawn_object(group("c"), Some(a)), Err(WorldError::DanglingReference));
    assert_eq!(w.id_bound(), 1);
    assert!(w.roots().is_empty());
}

#[test]
fn delete_cascades_two_levels() {
    let mut w = World::new();
    let root = w.spawn_object(group("root"), None).unwrap();
    let other = w.spawn_object(group("other"), None).unwrap();
    let child = w.spawn_object(group("child"), Some(root)).unwrap();
    let sibling = w.spawn_object(group("sibling"), Some(root)).unwrap();
    let grandchild = w.spawn_object(group("grandchild"), Some(child)).unwrap();
    let kept = w.spawn_object(group("kept"), Some(other)).unwrap();
    w.delete(root);
    for id in [root, child, sibling, grandchild] {
        assert!(!w.contains(id));
        assert!(w.get(id).is_none());
    }
    assert!(w.contains(other) && w.contains(kept));
    assert_eq!(w.roots(), &vec![other]);
    for id in w.draw_order() {
        let o = w.get(id).unwrap();
        assert!(!o.children.contains(&root));
        assert!(o.children.iter().all(|&c| w.contains(c)));
    }
}

#[test]
fn delete_child_unlinks_from_parent() {
    let mut w = World::new();
    let root = w.spawn_object(group("root"), None).unwrap();
    let a = w.spawn_object(group("a"), Some(root)).unwrap();
    let b = w.spawn_object(group("b"), Some(root)).unwrap();
    let c = w.spawn_object(group("c"), Some(root)).unwrap();
    w.delete(b);
    assert_eq!(w.get(root).unwrap().children, vec![a, c]);
    assert_eq!(w.roots(), &vec![root]);
}

#[test]
fn delete_missing_id_is_noop() {
    let mut w = World::new();
    let a = w.spawn_object(group("a"), None).unwrap();
    w.delete(42);
    w.delete(a);
    w.delete(a);
    assert!(!w.contains(a));
    let b = w.spawn_object(group("b"), None).unwrap();
    assert_eq!(b, 1);
}

#[test]
fn get_mut_changes_in_place() {
    let mut w = World::new();
    let a = w.spawn_object(shape("a", Geometry::Plane { size: 1.0 }), None).unwrap();
    w.get_mut(a).unwrap().color = [0.5, 0.0, 0.0, 1.0];
    w.get_mut(a).unwrap().transform.position = [1.0, 2.0, 3.0];
    assert_eq!(w.get(a).unwrap().object.color, [0.5, 0.0, 0.0, 1.0]);
    assert_eq!(w.get(a).unwrap().object.transform.position, [1.0, 2.0, 3.0]);
    assert!(w.get(a).unwrap().children.is_empty());
    assert!(w.get_mut(9).is_none());
}

#[test]
fn draw_order_puts_parents_first() {
    let mut w = World::new();
    let a = w.spawn_object(group("a"), None).unwrap();
    let b = w.spawn_object(group("b"), None).unwrap();
    let a1 = w.spawn_object(group("a1"), Some(a)).unwrap();
    let a11 = w.spawn_object(group("a11"), Some(a1)).unwrap();
    let b1 = w.spawn_object(group("b1"), Some(b)).unwrap();
    w.delete(b);
    assert_eq!(w.draw_order(), vec![a, a1, a11]);
    assert!(!w.contains(b1));
}

#[test]
fn lone_unit_cube_flattens_to_24_vertices() {
    let mut w = World::new();
    let id = w.spawn_object(shape("cube", Geometry::Cube { size: 1.0 }), None).unwrap();
    let m = w.flatten().unwrap();
    assert_eq!(m.vertices.len(), 24);
    assert_eq!(m.indices.len(), 36);
    assert!(m.indices.iter().all(|&i| i < 24));
    assert!(m.vertices.iter().all(|v| v.object == id
        && matches!(v.sample, Sample::Corner { x, y, z } if x.abs() == 1 && y.abs() == 1 && z.abs() == 1)));
}

#[test]
fn flatten_concatenates_objects_by_id() {
    let mut w = World::new();
    let a = w.spawn_object(shape("a", Geometry::Plane { size: 1.0 }), None).unwrap();
    let g = w.spawn_object(group("g"), Some(a)).unwrap();
    let p = w.spawn_object(shape("p", Geometry::Pyramid { base_size: 1.0, height: 1.0 }), Some(g)).unwrap();
    let m = w.flatten().unwrap();
    assert_eq!(m.vertices.len(), 8 + 16);
    assert_eq!(m.indices.len(), 12 + 18);
    assert!(m.vertices[..8].iter().all(|v| v.object == a));
    assert!(m.vertices[8..].iter().all(|v| v.object == p));
    assert_eq!(&m.indices[12..15], &[8, 9, 10]);
}

#[test]
fn flatten_refuses_oversized_world() {
    let mut w = World::new();
    w.spawn_object(shape("s", Geometry::Sphere { radius: 1.0, subdivisions: usize::MAX }), None).unwrap();
    assert!(matches!(w.flatten(), Err(MeshError::IndexOverflow)));
}
