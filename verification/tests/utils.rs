use raytracing::utils::{intersect_plane, intersect_square, intersect_triangle};
use raytracing::vec3::Vec3;

#[test]
fn intersect_plane_test() {
    let point = Vec3::new(0, 0, 0);
    let normal = Vec3::new(0, 0, 1);
    let ro = Vec3::new(1, 1, 1);
    let rd = Vec3::new(0, 0, -1);
    let result = intersect_plane(point, normal, ro, rd).unwrap();
    assert_eq!((result.x.n, result.x.d), (1, 1));
    assert_eq!((result.y.n, result.y.d), (1, 1));
    assert_eq!((result.z.n, result.z.d), (0, 1));
}

#[test]
fn intersect_plane_parallel() {
    let point = Vec3::new(0, 0, 0);
    let normal = Vec3::new(0, 0, 1);
    let ro = Vec3::new(1, 1, 1);
    let rd = Vec3::new(1, 0, 0);
    assert!(intersect_plane(point, normal, ro, rd).is_none());
}

#[test]
fn intersect_triangle_test() {
    let p1 = Vec3::new(-2, -1, 0);
    let p2 = Vec3::new(11, 7, 0);
    let p3 = Vec3::new(-2, 11, 0);
    let ro = Vec3::new(1, 1, 1);
    let rd = Vec3::new(0, 0, -1);
    let result = intersect_triangle(p1, p2, p3, ro, rd).unwrap();
    assert_eq!((result.x.n, result.x.d), (1, 1));
    assert_eq!((result.y.n, result.y.d), (1, 1));
    assert_eq!((result.z.n, result.z.d), (0, 1));
}

// Rotating the vertex order does not change the intersection point.
#[test]
fn intersect_triangle_rotation() {
    let p1 = Vec3::new(-2, -1, 0);
    let p2 = Vec3::new(11, 7, 0);
    let p3 = Vec3::new(-2, 11, 0);
    let ro = Vec3::new(1, 1, 1);
    let rd = Vec3::new(0, 0, -1);
    let a = intersect_triangle(p1, p2, p3, ro, rd).unwrap();
    let b = intersect_triangle(p2, p3, p1, ro, rd).unwrap();
    let c = intersect_triangle(p3, p1, p2, ro, rd).unwrap();
    assert_eq!((a.x.n, a.x.d, a.y.n, a.y.d, a.z.n, a.z.d), (b.x.n, b.x.d, b.y.n, b.y.d, b.z.n, b.z.d));
    assert_eq!((a.x.n, a.x.d, a.y.n, a.y.d, a.z.n, a.z.d), (c.x.n, c.x.d, c.y.n, c.y.d, c.z.n, c.z.d));
}

#[test]
fn intersect_triangle_outside() {
    let p1 = Vec3::new(0, 0, 0);
    let p2 = Vec3::new(2, 0, 0);
    let p3 = Vec3::new(0, 2, 0);
    let ro = Vec3::new(5, 5, 1);
    let rd = Vec3::new(0, 0, -1);
    assert!(intersect_triangle(p1, p2, p3, ro, rd).is_none());
}

#[test]
fn intersect_square_test() {
    let p1 = Vec3::new(0, 0, 0);
    let p2 = Vec3::new(0, 4, 0);
    let p3 = Vec3::new(4, 0, 0);
    let p4 = Vec3::new(4, 4, 0);
    let ro = Vec3::new(1, 1, 5);
    let rd = Vec3::new(0, 0, -1);
    let result = intersect_square(p1, p2, p3, p4, ro, rd).unwrap();
    assert_eq!((result.x.n, result.x.d), (1, 1));
    assert_eq!((result.y.n, result.y.d), (1, 1));
    assert_eq!((result.z.n, result.z.d), (0, 1));
    let ro2 = Vec3::new(7, 1, 5);
    assert!(intersect_square(p1, p2, p3, p4, ro2, rd).is_none());
}

// A fractional hit point comes out as an exact reduced rational.
#[test]
fn intersect_plane_fractional() {
    let point = Vec3::new(0, 0, 6);
    let normal = Vec3::new(0, 0, 2);
    let ro = Vec3::new(0, 0, 0);
    let rd = Vec3::new(3, 3, 9);
    let result = intersect_plane(point, normal, ro, rd).unwrap();
    // t = 2/3: the hit is (2, 2, 6)
    assert_eq!((result.x.n, result.x.d), (2, 1));
    assert_eq!((result.y.n, result.y.d), (2, 1));
    assert_eq!((result.z.n, result.z.d), (6, 1));
}
