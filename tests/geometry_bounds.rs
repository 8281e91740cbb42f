use rtracer::aabb::Aabb;
use rtracer::bvh::BvhNode;
use rtracer::geometry::{Bounds, Point3};

#[test]
fn aabb_grow() {
    let mut aabb = Aabb::default();
    aabb.grow(Point3::new(-100, 0, 50));
    aabb.grow(Point3::new(100, 50, 200));
    aabb.grow(Point3::new(1, 1, 70));
    aabb.grow(Point3::new(10, 20, 80));
    assert_eq!(aabb.bmin, Point3::new(-100, 0, 50));
    assert_eq!(aabb.bmax, Point3::new(100, 50, 200));
}

#[test]
fn aabb_area_is_half_surface() {
    let aabb = Aabb { bmin: Point3::new(0, 0, 0), bmax: Point3::new(2, 3, 4) };
    assert_eq!(aabb.area(), 2 * 3 + 3 * 4 + 4 * 2);
}

#[test]
fn bounds_triangle_bounds_from_points() {
    let triangle = Bounds::from_triangle(Point3::new(-50, 0, 0), Point3::new(120, 0, -25), Point3::new(0, 100, 0));
    assert_eq!(triangle.aabb_min, Point3::new(-50, 0, -25));
    assert_eq!(triangle.aabb_max, Point3::new(120, 100, 0));
}

#[test]
fn bvh_triangle_bounds_from_points() {
    let triangle = Bounds::from_triangle(Point3::new(-50, 0, 0), Point3::new(120, 0, -25), Point3::new(0, 100, 0));
    assert_eq!(triangle.aabb_min, Point3::new(-50, 0, -25));
    assert_eq!(triangle.aabb_max, Point3::new(120, 100, 0));
}

#[test]
fn triangle_centroid_is_floored_mean() {
    let b = Bounds::from_triangle(Point3::new(0, -1, 3), Point3::new(1, -1, 3), Point3::new(1, -1, 4));
    assert_eq!(b.centroid, Point3::new(0, -1, 3));
}

#[test]
fn node_bounds_use_box_midpoint() {
    let mut node = BvhNode::new(0, 1);
    node.aabb_min = Point3::new(-3, 0, 2);
    node.aabb_max = Point3::new(1, 5, 2);
    let b = Bounds::from_node(&node);
    assert_eq!(b.centroid, Point3::new(-1, 2, 2));
    assert_eq!(b.aabb_min, node.aabb_min);
    assert_eq!(b.aabb_max, node.aabb_max);
}
