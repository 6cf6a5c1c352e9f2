use ray_tracer::acceleration::{
    AccelerationStructureKind, BVHNode, BoundingVolumeHierarchy, BruteForce, LEAF_THRESHOLD,
};
use ray_tracer::geometry::{BoundingBox, Point, Ray, Vector};
use ray_tracer::num::{isqrt, Rat};
use ray_tracer::objects::{Instance, Shape};
use ray_tracer::scene::Scene;
use ray_tracer::statistics::Ratio;

fn sphere_at(x: i64, y: i64, z: i64, radius: i64, material: usize) -> Instance {
    Instance::new(Shape::Sphere { center: Point::new(x, y, z), radius }, material)
}

fn box_at(min: (i64, i64, i64), max: (i64, i64, i64), material: usize) -> Instance {
    Instance::new(
        Shape::Aabb {
            bounds: BoundingBox::new(
                Point::new(min.0, min.1, min.2),
                Point::new(max.0, max.1, max.2),
            ),
        },
        material,
    )
}

fn rat_is_int(r: Rat, v: i128) -> bool {
    r.num == v * r.den
}

fn rat_eq(a: Rat, b: Rat) -> bool {
    a.num * b.den == b.num * a.den
}

#[test]
fn unit_sphere_axis_ray_hits_at_two() {
    let inst = sphere_at(0, 0, 0, 1, 7);
    let scene = Scene::new(vec![inst], Vec::new(), AccelerationStructureKind::BVH);
    let ray = Ray::new(Point::new(0, 0, -3), Vector::new(0, 0, 1));
    let hit = scene.intersect(&ray).expect("the ray points straight at the sphere");
    assert!(rat_is_int(hit.t, 2));
    assert!(rat_is_int(hit.point.x, 0));
    assert!(rat_is_int(hit.point.y, 0));
    assert!(rat_is_int(hit.point.z, -1));
    assert!(rat_is_int(hit.normal.x, 0));
    assert!(rat_is_int(hit.normal.y, 0));
    assert!(rat_is_int(hit.normal.z, -1));
    assert_eq!(hit.material, 7);
}

#[test]
fn empty_scene_is_a_leaf_and_always_misses() {
    let bvh = BoundingVolumeHierarchy::new(Vec::new());
    match &bvh.root {
        BVHNode::Leaf(v) => assert_eq!(v.len(), 0),
        BVHNode::Composite(_, _) => panic!("an empty scene must build a leaf"),
    }
    let scene = Scene::new(Vec::new(), Vec::new(), AccelerationStructureKind::BVH);
    let ray = Ray::new(Point::new(0, 0, -3), Vector::new(0, 0, 1));
    assert!(scene.intersect(&ray).is_none());
    assert!(scene.visible(Point::new(0, 0, -3), Point::new(0, 0, 3)));
}

#[test]
fn five_instances_split_three_and_two_on_x() {
    let instances = vec![
        sphere_at(-10, 0, 0, 1, 0),
        sphere_at(-4, 0, 0, 1, 1),
        sphere_at(0, 0, 0, 1, 2),
        sphere_at(4, 0, 0, 1, 3),
        sphere_at(10, 0, 0, 1, 4),
    ];
    let bvh = BoundingVolumeHierarchy::new(instances);
    match &bvh.root {
        BVHNode::Composite(left, right) => {
            match &left.root {
                BVHNode::Leaf(v) => {
                    assert_eq!(v.len(), 3);
                    let mats: Vec<usize> = v.iter().map(|i| i.material).collect();
                    assert_eq!(mats, vec![0, 1, 2]);
                },
                BVHNode::Composite(_, _) => panic!("three instances must stay a leaf"),
            }
            match &right.root {
                BVHNode::Leaf(v) => {
                    assert_eq!(v.len(), 2);
                    let mats: Vec<usize> = v.iter().map(|i| i.material).collect();
                    assert_eq!(mats, vec![3, 4]);
                },
                BVHNode::Composite(_, _) => panic!("two instances must stay a leaf"),
            }
        },
        BVHNode::Leaf(_) => panic!("five instances must split once"),
    }
}

fn collect_materials(bvh: &BoundingVolumeHierarchy, out: &mut Vec<usize>) {
    match &bvh.root {
        BVHNode::Leaf(v) => {
            assert!(v.len() < LEAF_THRESHOLD, "a leaf holds fewer than the threshold");
            for inst in v.iter() {
                let b = inst.bbox;
                let n = bvh.bbox;
                assert!(n.min.x <= b.min.x && b.max.x <= n.max.x);
                assert!(n.min.y <= b.min.y && b.max.y <= n.max.y);
                assert!(n.min.z <= b.min.z && b.max.z <= n.max.z);
                out.push(inst.material);
            }
        },
        BVHNode::Composite(l, r) => {
            for child in [l, r] {
                let b = child.bbox;
                let n = bvh.bbox;
                assert!(n.min.x <= b.min.x && b.max.x <= n.max.x);
                assert!(n.min.y <= b.min.y && b.max.y <= n.max.y);
                assert!(n.min.z <= b.min.z && b.max.z <= n.max.z);
            }
            let before = out.len();
            collect_materials(l, out);
            assert!(out.len() > before, "composite children are nonempty");
            let middle = out.len();
            collect_materials(r, out);
            assert!(out.len() > middle, "composite children are nonempty");
        },
    }
}

#[test]
fn partition_keeps_every_instance_exactly_once() {
    let mut instances = Vec::new();
    for k in 0..9i64 {
        instances.push(sphere_at(7 * (k % 4) - 11, 5 * (k % 3) - 5, 4 * k - 16, 1, k as usize));
    }
    let bvh = BoundingVolumeHierarchy::new(instances);
    let mut mats = Vec::new();
    collect_materials(&bvh, &mut mats);
    mats.sort();
    let expected: Vec<usize> = (0..9).collect();
    assert_eq!(mats, expected);
}

#[test]
fn hierarchy_and_brute_force_agree_on_rays() {
    let instances = vec![
        sphere_at(0, 0, 0, 1, 0),
        sphere_at(3, 1, 2, 2, 1),
        sphere_at(-4, -2, 5, 3, 2),
        box_at((-2, -2, 6), (2, 2, 8), 3),
        box_at((5, -1, -1), (7, 1, 1), 4),
        sphere_at(0, 5, 0, 2, 5),
    ];
    let bvh = BoundingVolumeHierarchy::new(instances.clone());
    let bf = BruteForce::new(instances);
    for ox in [-6i64, 0, 6] {
        for oy in [-6i64, 0, 6] {
            for (dx, dy, dz) in [(1i64, 0i64, 1i64), (0, 0, 1), (-1, 1, 2), (0, 1, 0), (2, -1, 3)] {
                let ray = Ray::new(Point::new(ox, oy, -9), Vector::new(dx, dy, dz));
                let h1 = bvh.intersect(&ray);
                let h2 = bf.intersect(&ray);
                assert_eq!(h1.is_some(), h2.is_some(), "hit/miss must agree");
                if let (Some(a), Some(b)) = (h1, h2) {
                    assert!(rat_eq(a.t, b.t), "hit distances must agree");
                }
            }
        }
    }
}

#[test]
fn hierarchy_and_brute_force_agree_on_visibility() {
    let instances = vec![
        sphere_at(0, 0, 0, 1, 0),
        box_at((-1, -1, 3), (1, 1, 5), 1),
        sphere_at(4, 4, 4, 2, 2),
    ];
    let bvh = BoundingVolumeHierarchy::new(instances.clone());
    let bf = BruteForce::new(instances);
    let points = [
        Point::new(0, 0, -3),
        Point::new(0, 0, 3),
        Point::new(5, 0, -3),
        Point::new(0, 6, 0),
        Point::new(-7, 1, 2),
        Point::new(4, 4, 8),
    ];
    for a in points {
        for b in points {
            assert_eq!(bvh.visible(a, b), bf.visible(a, b));
        }
    }
}

#[test]
fn occluder_between_points_blocks_visibility() {
    let scene = Scene::new(vec![sphere_at(0, 0, 0, 1, 0)], Vec::new(), AccelerationStructureKind::BruteForce);
    assert!(!scene.visible(Point::new(0, 0, -3), Point::new(0, 0, 3)));
    assert!(scene.visible(Point::new(0, 0, -3), Point::new(5, 0, -3)));
    assert!(scene.visible(Point::new(0, 0, -3), Point::new(0, 0, -3)));
}

#[test]
fn slab_test_reports_entry_distance() {
    let b = BoundingBox::new(Point::new(-1, -1, -1), Point::new(1, 1, 1));
    let hit = b.intersect(&Ray::new(Point::new(0, 0, -3), Vector::new(0, 0, 1)));
    let hit = hit.expect("the ray points at the box");
    assert!(rat_is_int(hit.t, 2));
    assert_eq!(hit.normal, Vector::new(0, 0, -1));
    assert!(rat_is_int(hit.point.z, -1));
}

#[test]
fn slab_test_inside_box_is_zero() {
    let b = BoundingBox::new(Point::new(-1, -1, -1), Point::new(1, 1, 1));
    let hit = b.intersect(&Ray::new(Point::new(0, 0, 0), Vector::new(0, 0, 1)));
    let hit = hit.expect("the origin is inside the box");
    assert!(rat_is_int(hit.t, 0));
}

#[test]
fn slab_test_misses_behind_and_aside() {
    let b = BoundingBox::new(Point::new(-1, -1, -1), Point::new(1, 1, 1));
    assert!(b.intersect(&Ray::new(Point::new(0, 0, 5), Vector::new(0, 0, 1))).is_none());
    assert!(b.intersect(&Ray::new(Point::new(5, 0, -3), Vector::new(0, 0, 1))).is_none());
    assert!(b.intersect(&Ray::new(Point::new(0, 5, -3), Vector::new(1, 0, 0))).is_none());
}

#[test]
fn irrational_crossing_reports_a_bracketed_rational() {
    let instances = vec![sphere_at(0, 0, 0, 1, 0)];
    let bvh = BoundingVolumeHierarchy::new(instances.clone());
    let bf = BruteForce::new(instances);
    // this crossing is irrational: the discriminant is 292, between the
    // squares 289 and 324, so the floored root 17 stands in
    let ray = Ray::new(Point::new(0, 0, -3), Vector::new(1, 0, 9));
    let h1 = bvh.intersect(&ray).expect("the ray crosses the sphere");
    let h2 = bf.intersect(&ray).expect("the ray crosses the sphere");
    assert_eq!(h1.t.num, 37);
    assert_eq!(h1.t.den, 164);
    assert!(rat_eq(h1.t, h2.t));
    // the reported point lies within the sphere's bounding box
    assert!(h1.point.x.num.abs() <= h1.point.x.den.abs());
    assert!(h1.point.z.num.abs() <= h1.point.z.den.abs());
}

#[test]
fn ray_from_inside_the_sphere_exits_at_one() {
    let instances = vec![sphere_at(0, 0, 0, 1, 0)];
    let bf = BruteForce::new(instances);
    let ray = Ray::new(Point::new(0, 0, 0), Vector::new(0, 0, 1));
    let hit = bf.intersect(&ray).expect("the ray exits through the surface");
    assert!(rat_is_int(hit.t, 1));
}

#[test]
fn integer_square_root_brackets_its_argument() {
    assert_eq!(isqrt(0), 0);
    assert_eq!(isqrt(1), 1);
    assert_eq!(isqrt(10), 3);
    assert_eq!(isqrt(144), 12);
    assert_eq!(isqrt(152415787526596567801), 12345678901);
    assert_eq!(isqrt(152415787526596567802), 12345678901);
}

#[test]
fn deep_tree_agrees_with_brute_force() {
    // a grid of twenty spheres builds a tree several levels deep
    let mut instances = Vec::new();
    for k in 0..20i64 {
        let x = 9 * (k % 5) - 18;
        let y = 11 * (k / 5) - 16;
        let z = 7 * (k % 3);
        instances.push(sphere_at(x, y, z, 2, k as usize));
    }
    let bvh = BoundingVolumeHierarchy::new(instances.clone());
    let bf = BruteForce::new(instances);
    for ox in -4..4i64 {
        for oy in -4..4i64 {
            let ray = Ray::new(Point::new(5 * ox, 5 * oy, -40), Vector::new(-ox, oy, 13));
            let h1 = bvh.intersect(&ray);
            let h2 = bf.intersect(&ray);
            assert_eq!(h1.is_some(), h2.is_some());
            if let (Some(a), Some(b)) = (h1, h2) {
                assert!(rat_eq(a.t, b.t));
            }
        }
    }
    let mut mats = Vec::new();
    collect_materials(&bvh, &mut mats);
    mats.sort();
    assert_eq!(mats, (0..20).collect::<Vec<usize>>());
}

#[test]
fn box_from_origin_spans_corner_and_origin() {
    let b = BoundingBox::new_from_origin(Point::new(3, -2, 5));
    assert_eq!(b.min, Point::new(0, -2, 0));
    assert_eq!(b.max, Point::new(3, 0, 5));
}

#[test]
fn structure_bounding_box_is_the_union_of_instance_boxes() {
    let instances = vec![sphere_at(-5, 0, 0, 2, 0), sphere_at(9, 3, -4, 1, 1)];
    let bvh = BoundingVolumeHierarchy::new(instances.clone());
    let bb = bvh.bounding_box();
    assert_eq!(bb.min, Point::new(-7, -2, -5));
    assert_eq!(bb.max, Point::new(10, 4, 2));
    let bf = BruteForce::new(instances);
    let bb2 = bf.bounding_box();
    assert_eq!(bb2.min, Point::new(-7, -2, -5));
    assert_eq!(bb2.max, Point::new(10, 4, 2));
    // with nothing to index, the box is the inverted accumulator seed
    let none = BruteForce::new(Vec::new()).bounding_box();
    assert_eq!(none.min, Point::new(1_000_000, 1_000_000, 1_000_000));
    assert_eq!(none.max, Point::new(-1_000_000, -1_000_000, -1_000_000));
}

#[test]
fn equal_keys_split_keeps_submission_order() {
    // four instances share the same minimum x: the stable sort keeps
    // their order, so the first two stay in the left child
    let instances = vec![
        box_at((0, 0, 0), (2, 1, 1), 0),
        box_at((0, 2, 0), (2, 3, 1), 1),
        box_at((0, 4, 0), (2, 5, 1), 2),
        box_at((0, 6, 0), (2, 7, 1), 3),
    ];
    let bvh = BoundingVolumeHierarchy::new(instances);
    match &bvh.root {
        BVHNode::Composite(left, right) => {
            match (&left.root, &right.root) {
                (BVHNode::Leaf(l), BVHNode::Leaf(r)) => {
                    let lm: Vec<usize> = l.iter().map(|i| i.material).collect();
                    let rm: Vec<usize> = r.iter().map(|i| i.material).collect();
                    assert_eq!(lm, vec![0, 1]);
                    assert_eq!(rm, vec![2, 3]);
                },
                _ => panic!("both halves of four instances are leaves"),
            }
        },
        BVHNode::Leaf(_) => panic!("four instances must split"),
    }
}

#[test]
fn slab_entry_is_an_exact_fraction() {
    let b = BoundingBox::new(Point::new(1, -9, -9), Point::new(2, 9, 9));
    let hit = b.intersect(&Ray::new(Point::new(0, 0, 0), Vector::new(3, 0, 0)));
    let hit = hit.expect("the ray points at the box");
    // the entry parameter is exactly one third
    assert_eq!(hit.t.num * 3, hit.t.den);
}

#[test]
fn ratio_counts_successes_over_total() {
    let mut r = Ratio::default();
    r.add(true);
    r.add(false);
    r.add(true);
    assert_eq!(r.number, 2);
    assert_eq!(r.total, 3);
}
