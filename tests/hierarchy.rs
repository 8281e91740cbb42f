use rtracer::bvh::{Bvh, BvhNode};
use rtracer::geometry::{Bounds, Point3};
use rtracer::hit::Hittable;
use rtracer::pcg::random_u32;
use rtracer::ray::{Fraction, Ray};
use rtracer::scene::SceneData;

fn unit_box_node() -> BvhNode {
    let mut bvh = BvhNode::new(0, 0);
    bvh.aabb_min = Point3::new(-1, -1, -1);
    bvh.aabb_max = Point3::new(1, 1, 1);
    bvh
}

fn random_in(seed: &mut u32, range: i32) -> i32 {
    (random_u32(seed) % (2 * range as u32 + 1)) as i32 - range
}

/// A soup of small random boxes, as node primitives, with their bounds and centroids.
fn random_boxes(count: usize, seed: u32) -> (Vec<BvhNode>, Vec<Bounds>, Vec<Point3>) {
    let mut s = seed;
    let mut nodes = Vec::new();
    for i in 0..count {
        let c = Point3::new(random_in(&mut s, 1000), random_in(&mut s, 1000), random_in(&mut s, 1000));
        let e = Point3::new(
            (random_u32(&mut s) % 40) as i32,
            (random_u32(&mut s) % 40) as i32,
            (random_u32(&mut s) % 40) as i32,
        );
        let mut n = BvhNode::new(i, 1);
        n.aabb_min = Point3::new(c.x - e.x, c.y - e.y, c.z - e.z);
        n.aabb_max = Point3::new(c.x + e.x, c.y + e.y, c.z + e.z);
        nodes.push(n);
    }
    let bounds: Vec<Bounds> = nodes.iter().map(Bounds::from_node).collect();
    let centroids: Vec<Point3> = bounds.iter().map(|b| b.centroid).collect();
    (nodes, bounds, centroids)
}

fn built(bounds: &[Bounds], centroids: &[Point3]) -> Bvh {
    let mut bvh = Bvh::new();
    bvh.calculate_bvh(bounds.to_vec(), centroids.to_vec());
    bvh
}

fn within(lo: Point3, hi: Point3, outer_lo: Point3, outer_hi: Point3) -> bool {
    outer_lo.x <= lo.x && outer_lo.y <= lo.y && outer_lo.z <= lo.z && hi.x <= outer_hi.x && hi.y <= outer_hi.y
        && hi.z <= outer_hi.z
}

fn as_f64(t: Fraction) -> f64 {
    t.num as f64 / t.den as f64
}

#[test]
fn mod_bvh_intersection() {
    let bvh = unit_box_node();
    let ray = Ray::new(Point3::new(0, 0, -5), Point3::new(0, 0, 1));
    assert!(bvh.intersect(&ray));
}

#[test]
fn bvh_bvh_intersection() {
    let bvh = unit_box_node();
    let ray = Ray::new(Point3::new(0, 0, -5), Point3::new(0, 0, 1));
    assert!(bvh.intersect(&ray));
}

#[test]
fn slab_entry_of_unit_box_from_minus_five() {
    let bvh = unit_box_node();
    let ray = Ray::new(Point3::new(0, 0, -5), Point3::new(0, 0, 1));
    let t = bvh.intersect_distance(&ray).expect("the ray meets the box");
    assert_eq!(t, Fraction { num: 4, den: 1 });
    assert!(as_f64(t) > 3.9 && as_f64(t) < 4.1);
}

#[test]
fn slab_misses_and_inside_hits() {
    let bvh = unit_box_node();
    let away = Ray::new(Point3::new(0, 0, -5), Point3::new(0, 0, -1));
    assert!(!bvh.intersect(&away));
    assert_eq!(bvh.intersect_distance(&away), None);
    let parallel_outside = Ray::new(Point3::new(2, 0, -5), Point3::new(0, 0, 1));
    assert!(!bvh.intersect(&parallel_outside));
    let on_face = Ray::new(Point3::new(1, 0, -5), Point3::new(0, 0, 1));
    assert!(bvh.intersect(&on_face));
    let inside = Ray::new(Point3::new(0, 0, 0), Point3::new(0, 2, 0));
    assert_eq!(bvh.intersect_distance(&inside), Some(Fraction { num: -1, den: 2 }));
    assert_eq!(bvh.intersect_point(&inside), Some(Fraction { num: 1, den: 2 }));
    let still = Ray::new(Point3::new(0, 0, 0), Point3::new(0, 0, 0));
    assert!(!bvh.intersect(&still));
}

#[test]
fn mod_division_plane() {
    let mut bvh = BvhNode::new(0, 0);
    bvh.aabb_min = Point3::new(-1, -1, -2);
    bvh.aabb_max = Point3::new(1, 1, 2);
    let (_, bounds, centroids) = random_boxes(0, 1);
    let tree = built(&bounds, &centroids);
    assert_eq!(tree.division_plane(&bvh).2, u128::MAX);
}

#[test]
fn bvh_division_plane() {
    // Two clusters far apart along z: the plane falls between them, on axis 2.
    let mut bounds = Vec::new();
    for i in 0..4 {
        let z = if i < 2 { -100 } else { 100 };
        let x = i % 2;
        let c = Point3::new(x, 0, z);
        bounds.push(Bounds::new(c, Point3::new(x - 1, -1, z - 1), Point3::new(x + 1, 1, z + 1)));
    }
    let centroids: Vec<Point3> = bounds.iter().map(|b| b.centroid).collect();
    let tree = built(&bounds, &centroids);
    let root = tree.bvh_nodes()[0];
    assert_eq!(root.object_count, 0);
    let (pos, axis, cost) = tree.division_plane(&BvhNode { first_object: 0, object_count: 4, ..root });
    assert_eq!(axis, 2);
    assert!(pos > -100 && pos <= 100);
    assert!(cost < u128::MAX);
}

#[test]
fn plane_relative_position() {
    // Members left of the plane come first in the permutation after a split.
    let bounds = vec![
        Bounds::new(Point3::new(50, 0, 0), Point3::new(49, -1, -1), Point3::new(51, 1, 1)),
        Bounds::new(Point3::new(-50, 0, 0), Point3::new(-51, -1, -1), Point3::new(-49, 1, 1)),
    ];
    let centroids: Vec<Point3> = bounds.iter().map(|b| b.centroid).collect();
    let tree = built(&bounds, &centroids);
    let nodes = tree.bvh_nodes();
    assert_eq!(nodes.len(), 3);
    assert_eq!(nodes[0].first_object, 1);
    assert_eq!(tree.objects_indexes()[nodes[1].first_object], 1);
    assert_eq!(tree.objects_indexes()[nodes[2].first_object], 0);
}

#[test]
fn empty_build_has_one_empty_root() {
    let tree = built(&[], &[]);
    assert_eq!(tree.bvh_count(), 1);
    assert_eq!(tree.bvh_nodes()[0].object_count, 0);
    let ray = Ray::new(Point3::new(0, 0, -5), Point3::new(0, 0, 1));
    let none: Vec<BvhNode> = Vec::new();
    assert_eq!(tree.intersect(&ray, &none), None);
    assert_eq!(tree.get_bvh_by_depth(0).len(), 1);
    assert_eq!(tree.get_bvh_by_depth(3).len(), 0);
}

#[test]
fn build_keeps_containment_and_permutation() {
    for &n in &[1usize, 2, 3, 100, 1000] {
        let (_, bounds, centroids) = random_boxes(n, n as u32 + 7);
        let tree = built(&bounds, &centroids);
        let nodes = tree.bvh_nodes();
        let idx = tree.objects_indexes();
        let mut seen = vec![false; n];
        for &i in idx.iter() {
            assert!(i < n && !seen[i]);
            seen[i] = true;
        }
        assert!(nodes.len() <= 2 * n - 1);
        let mut covered = 0;
        for (j, node) in nodes.iter().enumerate() {
            if node.object_count > 0 {
                covered += node.object_count;
                for p in node.first_object..node.first_object + node.object_count {
                    let b = bounds[idx[p]];
                    assert!(within(b.aabb_min, b.aabb_max, node.aabb_min, node.aabb_max));
                }
            } else {
                assert!(node.first_object > j);
                for c in [node.first_object, node.first_object + 1] {
                    assert!(within(nodes[c].aabb_min, nodes[c].aabb_max, node.aabb_min, node.aabb_max));
                }
            }
        }
        assert_eq!(covered, n);
    }
}

fn half_area(n: &BvhNode) -> i128 {
    let (x, y, z) = (
        (n.aabb_max.x - n.aabb_min.x) as i128,
        (n.aabb_max.y - n.aabb_min.y) as i128,
        (n.aabb_max.z - n.aabb_min.z) as i128,
    );
    x * y + y * z + z * x
}

/// The positions under node `j`, and the box of their bounds.
fn span_and_hull(nodes: &[BvhNode], j: usize, idx: &[usize], bounds: &[Bounds]) -> ((usize, usize), Point3, Point3) {
    let n = nodes[j];
    let (lo, hi) = if n.object_count > 0 {
        (n.first_object, n.first_object + n.object_count)
    } else {
        let (a, _, _) = span_and_hull(nodes, n.first_object, idx, bounds);
        let (b, _, _) = span_and_hull(nodes, n.first_object + 1, idx, bounds);
        assert_eq!(a.1, b.0);
        (a.0, b.1)
    };
    let mut mn = Point3::new(i32::MAX, i32::MAX, i32::MAX);
    let mut mx = Point3::new(i32::MIN, i32::MIN, i32::MIN);
    for p in lo..hi {
        let b = bounds[idx[p]];
        mn = Point3::new(mn.x.min(b.aabb_min.x), mn.y.min(b.aabb_min.y), mn.z.min(b.aabb_min.z));
        mx = Point3::new(mx.x.max(b.aabb_max.x), mx.y.max(b.aabb_max.y), mx.z.max(b.aabb_max.z));
    }
    ((lo, hi), mn, mx)
}

#[test]
fn built_tree_is_exact() {
    let (_, bounds, centroids) = random_boxes(400, 21);
    let tree = built(&bounds, &centroids);
    let nodes = tree.bvh_nodes();
    let idx = tree.objects_indexes();
    let mut parents = vec![0usize; nodes.len()];
    for (j, n) in nodes.iter().enumerate() {
        let ((lo, hi), mn, mx) = span_and_hull(nodes, j, idx, &bounds);
        assert_eq!((n.aabb_min, n.aabb_max), (mn, mx));
        if n.object_count == 0 {
            parents[n.first_object] += 1;
            parents[n.first_object + 1] += 1;
            let cost = |k: usize| {
                let ((a, b), _, _) = span_and_hull(nodes, k, idx, &bounds);
                (b - a) as i128 * half_area(&nodes[k])
            };
            assert!(cost(n.first_object) + cost(n.first_object + 1) < (hi - lo) as i128 * half_area(n));
        }
    }
    assert_eq!(parents[0], 0);
    assert!(parents[1..].iter().all(|&c| c == 1));
}

#[test]
fn rebuild_is_identical() {
    let (_, bounds, centroids) = random_boxes(300, 99);
    let a = built(&bounds, &centroids);
    let b = built(&bounds, &centroids);
    assert_eq!(a.bvh_nodes(), b.bvh_nodes());
    assert_eq!(a.objects_indexes(), b.objects_indexes());
}

#[test]
fn identical_centroids_stay_one_leaf() {
    let b = Bounds::new(Point3::new(0, 0, 0), Point3::new(-1, -1, -1), Point3::new(1, 1, 1));
    let tree = built(&[b, b, b, b], &[b.centroid; 4]);
    assert_eq!(tree.bvh_count(), 1);
    assert_eq!(tree.bvh_nodes()[0].object_count, 4);
}

fn brute_force(objects: &[BvhNode], ray: &Ray) -> Option<Fraction> {
    let mut best: Option<Fraction> = None;
    for o in objects {
        if let Some(t) = o.intersect_point(ray) {
            if best.map_or(true, |b| t.less_than(&b)) {
                best = Some(t);
            }
        }
    }
    best
}

#[test]
fn nearest_hit_matches_linear_scan() {
    for &n in &[1usize, 2, 100, 10000] {
        let (objects, bounds, centroids) = random_boxes(n, 1234 + n as u32);
        let tree = built(&bounds, &centroids);
        let mut s: u32 = 42;
        for _ in 0..200 {
            let origin = Point3::new(random_in(&mut s, 1500), random_in(&mut s, 1500), random_in(&mut s, 1500));
            let target = objects[(random_u32(&mut s) as usize) % n].aabb_min;
            let dir = Point3::new(target.x - origin.x, target.y - origin.y, target.z - origin.z);
            let ray = Ray::new(origin, dir);
            let fast = tree.intersect(&ray, &objects);
            let slow = brute_force(&objects, &ray);
            match (fast, slow) {
                (None, None) => {},
                (Some(h), Some(t)) => {
                    assert!(!h.t.less_than(&t) && !t.less_than(&h.t));
                    assert_eq!(Hittable::intersect(&objects[h.object], &ray), Some(h.t));
                },
                _ => panic!("the hierarchy and the scan disagree"),
            }
        }
    }
}

#[test]
fn nodes_by_depth() {
    let (_, bounds, centroids) = random_boxes(64, 5);
    let tree = built(&bounds, &centroids);
    let nodes = tree.bvh_nodes();
    assert_eq!(tree.get_bvh_by_depth(0), vec![nodes[0]]);
    let first = tree.get_bvh_by_depth(1);
    assert_eq!(first, vec![nodes[nodes[0].first_object], nodes[nodes[0].first_object + 1]]);
}

#[test]
fn debug_hierarchy_over_nodes_at_depth() {
    let (_, bounds, centroids) = random_boxes(50, 11);
    let mut scene = SceneData::new();
    scene.calculate_bvh(bounds, centroids);
    scene.calculate_debug_bvh(1);
    assert_eq!(scene.debug_objects().len(), 2);
    let target = scene.debug_objects()[0];
    let origin = Point3::new(5000, 5000, 5000);
    let aim = Point3::new(
        (target.aabb_min.x + target.aabb_max.x) / 2,
        (target.aabb_min.y + target.aabb_max.y) / 2,
        (target.aabb_min.z + target.aabb_max.z) / 2,
    );
    let ray = Ray::new(origin, Point3::new(aim.x - origin.x, aim.y - origin.y, aim.z - origin.z));
    let hit = scene.cast_debug_ray(&ray).expect("the ray aims into a shown node");
    assert!(hit.object < 2);
    let away = Ray::new(origin, Point3::new(1, 1, 1));
    assert_eq!(scene.cast_debug_ray(&away), None);
}

#[test]
fn leaves_cannot_be_split_cheaper() {
    let (_, bounds, centroids) = random_boxes(500, 77);
    let tree = built(&bounds, &centroids);
    let mut leaves = 0;
    for node in tree.bvh_nodes().iter().filter(|n| n.object_count > 0) {
        leaves += 1;
        let e = (
            (node.aabb_max.x - node.aabb_min.x) as u128,
            (node.aabb_max.y - node.aabb_min.y) as u128,
            (node.aabb_max.z - node.aabb_min.z) as u128,
        );
        let own = node.object_count as u128 * (e.0 * e.1 + e.1 * e.2 + e.2 * e.0);
        assert!(tree.division_plane(node).2 >= own);
    }
    assert!(leaves > 1);
}

#[test]
fn closure_query_matches_trait_query() {
    let (objects, bounds, centroids) = random_boxes(200, 3);
    let tree = built(&bounds, &centroids);
    let mut s: u32 = 9;
    for _ in 0..100 {
        let origin = Point3::new(random_in(&mut s, 1500), random_in(&mut s, 1500), random_in(&mut s, 1500));
        let dir = Point3::new(random_in(&mut s, 100), random_in(&mut s, 100), random_in(&mut s, 100));
        let ray = Ray::new(origin, dir);
        let by_trait = tree.intersect(&ray, &objects);
        let by_closure = tree.intersect_with(&ray, |o| objects[o].intersect_point(&ray));
        assert_eq!(by_trait, by_closure);
    }
}
