use raytracing::mesh::{Mesh, MeshError, Package, Tree, Triangle};
use raytracing::vec3::Vec3;

#[test]
fn empty_mesh_rejected() {
    let r = Mesh::new(Vec::new());
    assert!(matches!(r, Err(MeshError::EmptyMesh)));
}

#[test]
fn degenerate_mesh_rejected() {
    // a triangle with a zero-length edge
    let t = Triangle::new(
        Vec3::new(0, 0, 0),
        Vec3::new(0, 0, 0),
        Vec3::new(5, 0, 0),
        Vec3::new(0, 0, 1),
    );
    let r = Mesh::new(vec![t]);
    assert!(matches!(r, Err(MeshError::DegenerateGeometry)));
}

#[test]
fn tree_insert_and_lookup() {
    let mut tree = Tree::new();
    let key = [1u32, 2u32, 3u32];
    assert!(!tree.contains_key(&key));
    tree.insert_key(key);
    assert!(tree.contains_key(&key));
    assert!(tree.insert(&key, 7));
    assert!(!tree.insert(&key, 7));
    assert!(tree.insert(&key, 9));
    assert!(tree.contains(&key, &7));
    assert!(tree.contains(&key, &9));
    assert!(!tree.contains(&key, &8));
    assert_eq!(tree.get(&key).len(), 2);
}

#[test]
fn package_faces() {
    let p = Package::new(Vec3::new(0, 0, 0), Vec3::new(2, 2, 2));
    let faces = p.iter();
    assert_eq!(faces.len(), 6);
    assert_eq!(faces[0][0], Vec3::new(0, 0, 0));
    assert_eq!(faces[1][0], Vec3::new(2, 0, 0));
    assert_eq!(faces[5][3], Vec3::new(2, 2, 2));
}

#[test]
fn mesh_hit_square() {
    // two triangles tiling the square [0, 10] x [0, 10] at height zero
    let t1 = Triangle::new(
        Vec3::new(0, 0, 0),
        Vec3::new(10, 0, 0),
        Vec3::new(0, 10, 0),
        Vec3::new(0, 0, 1),
    );
    let t2 = Triangle::new(
        Vec3::new(10, 10, 0),
        Vec3::new(10, 0, 0),
        Vec3::new(0, 10, 0),
        Vec3::new(0, 0, 1),
    );
    let mesh = Mesh::new(vec![t1, t2]).unwrap();
    let (point, normal) = mesh
        .intersect(Vec3::new(2, 2, 9), Vec3::new(0, 0, -1))
        .unwrap();
    assert_eq!((point.x.n, point.x.d), (2, 1));
    assert_eq!((point.y.n, point.y.d), (2, 1));
    assert_eq!((point.z.n, point.z.d), (0, 1));
    assert_eq!(normal, Vec3::new(0, 0, 1));
}

#[test]
fn mesh_miss_returns_none() {
    let t1 = Triangle::new(
        Vec3::new(0, 0, 0),
        Vec3::new(10, 0, 0),
        Vec3::new(0, 10, 0),
        Vec3::new(0, 0, 1),
    );
    let mesh = Mesh::new(vec![t1]).unwrap();
    // a ray far away from the box, pointing down
    let r = mesh.intersect(Vec3::new(1000, 1000, 9), Vec3::new(0, 0, -1));
    assert!(r.is_none());
}

#[test]
fn mesh_dimensions_and_unit() {
    let t1 = Triangle::new(
        Vec3::new(0, 0, 0),
        Vec3::new(10, 0, 0),
        Vec3::new(0, 10, 0),
        Vec3::new(0, 0, 1),
    );
    let mesh = Mesh::new(vec![t1]).unwrap();
    // smallest edge is 10, so one cell of edge 10 per axis plus one
    assert_eq!(mesh.unit, 10);
    assert_eq!((mesh.dx, mesh.dy, mesh.dz), (2, 2, 1));
    // doubled, half-unit expanded bounds
    assert_eq!(mesh.package.bound_min, Vec3::new(-10, -10, -10));
    assert_eq!(mesh.package.bound_max, Vec3::new(30, 30, 10));
}
