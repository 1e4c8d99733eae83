use raytracer::bvh::sah::Binning;
use raytracer::vector::normalize;
use raytracer::{BVHNode, Bin, Primitive, Ray, Sphere, Triangle, Vec3, AABB, BVH};

fn sphere(x: i32, y: i32, z: i32, radius2: i64) -> Box<dyn Primitive> {
    Box::new(Sphere { origin: Vec3::new(x, y, z), radius2, material_index: 0 })
}

fn boxed(min: (i32, i32, i32), max: (i32, i32, i32)) -> AABB {
    AABB { bmin: Vec3::new(min.0, min.1, min.2), bmax: Vec3::new(max.0, max.1, max.2) }
}

fn ray(origin: (i32, i32, i32), direction: (i32, i32, i32)) -> Ray {
    Ray {
        origin: Vec3::new(origin.0, origin.1, origin.2),
        direction: Vec3::new(direction.0, direction.1, direction.2),
    }
}

/// Three spheres: M of radius 1 at x = -2, L of radius 3 at x = 0, both at
/// z = 10, and R of radius 1 at x = 3, z = 12.
fn three_spheres() -> Vec<Box<dyn Primitive>> {
    vec![
        sphere(-20_000, 0, 100_000, 100_000_000),
        sphere(0, 0, 100_000, 900_000_000),
        sphere(30_000, 0, 120_000, 100_000_000),
    ]
}

/// The nearest hit farther than epsilon among all the primitives.
fn brute_force(primitives: &Vec<Box<dyn Primitive>>, r: &Ray) -> Option<(usize, i64)> {
    let mut best: Option<(usize, i64)> = None;
    for (i, p) in primitives.iter().enumerate() {
        if let Some(d) = p.intersect(r) {
            if d > 1 && best.map_or(true, |b| d < b.1) {
                best = Some((i, d));
            }
        }
    }
    best
}

#[test]
fn new_hierarchy_has_room_for_every_node() {
    let bvh = BVH::new(5, 4);
    assert_eq!(bvh.bin_count, 4);
    assert_eq!(bvh.bins.len(), 4);
    assert_eq!(bvh.bins_left.len(), 3);
    assert_eq!(bvh.bins_right.len(), 3);
    assert_eq!(bvh.pool.len(), 7);
    assert_eq!(bvh.pool_ptr, 1);
    assert_eq!(bvh.triangle_indices, vec![5, 6, 7, 8]);
    assert_eq!(bvh.triangle_count, 4);
    assert!(bvh.pool.iter().all(|n| *n == BVHNode::default()));
    for bin in bvh.bins.iter().chain(bvh.bins_left.iter()).chain(bvh.bins_right.iter()) {
        assert_eq!(bin.count, 0);
        assert_eq!(bin.bounds, AABB::default());
    }
    let one = BVH::new(0, 1);
    assert_eq!(one.pool.len(), 1);
    assert_eq!(one.triangle_indices, vec![0]);
}

#[test]
fn reset_bins_empties_all_bins() {
    let mut bvh = BVH::new(0, 3);
    bvh.bins[1] = Bin { count: 3, bounds: boxed((0, 0, 0), (1, 1, 1)) };
    bvh.bins_left[0] = Bin { count: 1, bounds: boxed((0, 0, 0), (1, 1, 1)) };
    bvh.bins_right[2] = Bin { count: 2, bounds: boxed((0, 0, 0), (1, 1, 1)) };
    bvh.reset_bins();
    for bin in bvh.bins.iter().chain(bvh.bins_left.iter()).chain(bvh.bins_right.iter()) {
        assert_eq!(bin.count, 0);
        assert_eq!(bin.bounds, AABB::new());
    }
    assert_eq!(bvh.bins.len(), 4);
    assert_eq!(bvh.bins_left.len(), 3);
    assert_eq!(bvh.bins_right.len(), 3);
}

#[test]
fn slices_are_counted_from_the_least_centroid() {
    let g = Binning { axis: 0, cbmin: 0, cbmax: 100, bin_count: 4 };
    assert_eq!(g.bin_id(0), 0);
    // 4 * 0.9999 * 25 / 100 = 0.9999
    assert_eq!(g.bin_id(25), 0);
    assert_eq!(g.bin_id(26), 1);
    assert_eq!(g.bin_id(50), 1);
    assert_eq!(g.bin_id(51), 2);
    assert_eq!(g.bin_id(76), 3);
    // the greatest centroid falls in the last slice, not beyond it
    assert_eq!(g.bin_id(100), 3);
    let wide = Binning { axis: 2, cbmin: i32::MIN, cbmax: i32::MAX, bin_count: 4 };
    assert_eq!(wide.bin_id(i32::MIN), 0);
    assert_eq!(wide.bin_id(i32::MAX), 3);
    assert_eq!(wide.bin_id(0), 1);
}

#[test]
fn best_split_is_the_cheapest_that_leaves_no_side_empty() {
    let mut bvh = BVH::new(0, 4);
    let unit = boxed((0, 0, 0), (1, 1, 1)); // area 6
    let big = boxed((0, 0, 0), (3, 3, 3)); // area 54
    // boundary 0: 6 * 1 + 54 * 3 = 168; boundary 1: 6 * 2 + 6 * 2 = 24;
    // boundary 2: 54 * 3 + 6 * 1 = 168
    bvh.bins_left = vec![
        Bin { count: 1, bounds: unit },
        Bin { count: 2, bounds: unit },
        Bin { count: 3, bounds: big },
    ];
    bvh.bins_right = vec![
        Bin { count: 3, bounds: big },
        Bin { count: 2, bounds: unit },
        Bin { count: 1, bounds: unit },
    ];
    let node = BVHNode { bounds: big, count: 4, ..BVHNode::default() };
    assert_eq!(node.find_best_split(&bvh), Some(1));
}

#[test]
fn best_split_takes_the_first_of_equal_costs() {
    let mut bvh = BVH::new(0, 4);
    let unit = boxed((0, 0, 0), (1, 1, 1));
    let big = boxed((0, 0, 0), (3, 3, 3));
    bvh.bins_left = vec![Bin { count: 2, bounds: unit }; 3];
    bvh.bins_right = vec![Bin { count: 2, bounds: unit }; 3];
    let node = BVHNode { bounds: big, count: 4, ..BVHNode::default() };
    assert_eq!(node.find_best_split(&bvh), Some(0));
}

#[test]
fn no_split_where_none_is_cheaper_than_the_node() {
    let mut bvh = BVH::new(0, 4);
    let unit = boxed((0, 0, 0), (1, 1, 1));
    bvh.bins_left = vec![Bin { count: 2, bounds: unit }; 3];
    bvh.bins_right = vec![Bin { count: 2, bounds: unit }; 3];
    // the node costs 6 * 4 = 24, and so does every split
    let node = BVHNode { bounds: unit, count: 4, ..BVHNode::default() };
    assert_eq!(node.find_best_split(&bvh), None);
}

#[test]
fn no_split_where_a_side_is_empty() {
    let mut bvh = BVH::new(0, 4);
    let unit = boxed((0, 0, 0), (1, 1, 1));
    let big = boxed((0, 0, 0), (3, 3, 3));
    bvh.bins_left = vec![Bin { count: 0, bounds: AABB::new() }; 3];
    bvh.bins_right = vec![Bin { count: 4, bounds: unit }; 3];
    let node = BVHNode { bounds: big, count: 4, ..BVHNode::default() };
    assert_eq!(node.find_best_split(&bvh), None);
}

#[test]
fn update_bounds_takes_the_box_of_all_listed_primitives() {
    let primitives = three_spheres();
    let mut node = BVHNode::default();
    node.update_bounds(&primitives, &vec![0, 1, 2]);
    assert_eq!(node.bounds, boxed((-30_000, -30_000, 70_000), (40_000, 30_000, 130_000)));
    let mut shifted = BVHNode { first: 1, ..BVHNode::default() };
    shifted.update_bounds(&primitives, &vec![1, 1]);
    assert_eq!(shifted.bounds, boxed((20_000, -10_000, 110_000), (40_000, 10_000, 130_000)));
    let mut none = BVHNode::default();
    none.update_bounds(&primitives, &vec![]);
    assert_eq!(none.bounds, AABB::new());
}

#[test]
fn one_or_two_primitives_make_one_leaf() {
    let primitives = vec![sphere(0, 0, 50_000, 100_000_000), sphere(90_000, 0, 50_000, 100_000_000)];
    let mut bvh = BVH::new(0, 2);
    bvh.build(&primitives);
    assert!(bvh.pool[0].is_leaf);
    assert_eq!(bvh.pool[0].first, 0);
    assert_eq!(bvh.pool[0].count, 2);
    assert_eq!(bvh.pool[0].bounds, boxed((-10_000, -10_000, 40_000), (100_000, 10_000, 60_000)));
    assert_eq!(bvh.pool_ptr, 1);
    assert_eq!(bvh.triangle_indices, vec![0, 1]);
}

#[test]
fn primitives_with_one_centroid_make_one_leaf() {
    let primitives: Vec<Box<dyn Primitive>> = (1..=6)
        .map(|k| sphere(10_000, 20_000, 30_000, 100_000_000 * k as i64))
        .collect();
    let mut bvh = BVH::new(0, 6);
    bvh.build(&primitives);
    assert!(bvh.pool[0].is_leaf);
    assert_eq!(bvh.pool[0].count, 6);
    assert_eq!(bvh.triangle_indices, vec![0, 1, 2, 3, 4, 5]);
    assert!(bvh.pool[1..].iter().all(|n| *n == BVHNode::default()));
}

#[test]
fn centroids_within_epsilon_make_one_leaf() {
    let primitives = vec![
        sphere(0, 0, 0, 100_000_000),
        sphere(1, 0, 0, 100_000_000),
        sphere(0, 1, 0, 100_000_000),
        sphere(1, 1, 1, 100_000_000),
    ];
    let mut bvh = BVH::new(0, 4);
    bvh.build(&primitives);
    assert!(bvh.pool[0].is_leaf);
    assert_eq!(bvh.pool[0].count, 4);
}

#[test]
fn three_spheres_are_split_at_the_cheapest_boundary() {
    let primitives = three_spheres();
    let mut bvh = BVH::new(0, 3);
    bvh.build(&primitives);
    let root = bvh.pool[0];
    assert!(!root.is_leaf);
    assert_eq!(root.split_axis, 0);
    assert_eq!(root.left, 1);
    assert_eq!((root.first, root.count), (0, 3));
    assert_eq!(root.bounds, boxed((-30_000, -30_000, 70_000), (40_000, 30_000, 130_000)));
    // splitting off M alone would cost 24 + 2 * 240 = 504 units of area,
    // splitting off R alone costs 2 * 216 + 24 = 456
    let front = bvh.pool[1];
    let back = bvh.pool[2];
    assert!(front.is_leaf && back.is_leaf);
    assert_eq!((front.first, front.count), (0, 2));
    assert_eq!((back.first, back.count), (2, 1));
    assert_eq!(front.bounds, boxed((-30_000, -30_000, 70_000), (30_000, 30_000, 130_000)));
    assert_eq!(back.bounds, boxed((20_000, -10_000, 110_000), (40_000, 10_000, 130_000)));
    assert_eq!(bvh.triangle_indices, vec![0, 1, 2]);
    assert_eq!(bvh.pool_ptr, 3);
}

#[test]
fn build_rearranges_the_indices_and_loses_none() {
    // centroids along x at 9, 1, 8, 2, 7, 3, 6
    let xs = [90_000, 10_000, 80_000, 20_000, 70_000, 30_000, 60_000];
    let primitives: Vec<Box<dyn Primitive>> =
        xs.iter().map(|x| sphere(*x, 0, 0, 1_000_000)).collect();
    let mut bvh = BVH::new(0, 7);
    bvh.build(&primitives);
    let mut sorted = bvh.triangle_indices.clone();
    sorted.sort();
    assert_eq!(sorted, vec![0, 1, 2, 3, 4, 5, 6]);
    assert!(bvh.pool_ptr <= bvh.pool.len());
    assert!(!bvh.pool[0].is_leaf);
    // every inner node's children share out its range, and every leaf's box
    // holds its primitives
    let mut stack = vec![0usize];
    let mut leaves = 0;
    while let Some(i) = stack.pop() {
        let node = bvh.pool[i];
        if node.is_leaf {
            leaves += node.count;
            for slot in node.first..node.first + node.count {
                let b = primitives[bvh.triangle_indices[slot]].get_bounds();
                assert!(node.bounds.bmin.x <= b.bmin.x && b.bmax.x <= node.bounds.bmax.x);
            }
        } else {
            let front = bvh.pool[node.left];
            let back = bvh.pool[node.left + 1];
            assert!(front.count > 0 && back.count > 0);
            assert_eq!(front.first, node.first);
            assert_eq!(back.first, node.first + front.count);
            assert_eq!(front.count + back.count, node.count);
            stack.push(node.left);
            stack.push(node.left + 1);
        }
    }
    assert_eq!(leaves, 7);
}

#[test]
fn partition_sends_the_front_half_forward() {
    // centroids at x = 0, 9, 1, 8: with the boundary after slice 1 the
    // indices 0 and 2 go to the front
    let primitives = vec![
        sphere(0, 0, 0, 1),
        sphere(90_000, 0, 0, 1),
        sphere(10_000, 0, 0, 1),
        sphere(80_000, 0, 0, 1),
    ];
    let mut bvh = BVH::new(0, 4);
    bvh.bins_left[1].bounds = boxed((1, 1, 1), (2, 2, 2));
    bvh.bins_right[1].bounds = boxed((3, 3, 3), (4, 4, 4));
    let node = BVHNode { first: 0, count: 4, left: 1, ..BVHNode::default() };
    let binning = Binning { axis: 0, cbmin: 0, cbmax: 90_000, bin_count: 4 };
    node.update_triangles_nodes(&mut bvh, &primitives, 1, binning);
    assert_eq!(bvh.triangle_indices, vec![0, 2, 1, 3]);
    assert_eq!((bvh.pool[1].first, bvh.pool[1].count), (0, 2));
    assert_eq!((bvh.pool[2].first, bvh.pool[2].count), (2, 2));
    assert_eq!(bvh.pool[1].bounds, boxed((1, 1, 1), (2, 2, 2)));
    assert_eq!(bvh.pool[2].bounds, boxed((3, 3, 3), (4, 4, 4)));
}

#[test]
fn partition_fills_and_sums_the_bins() {
    let primitives = three_spheres();
    let mut bvh = BVH::new(0, 3);
    let mut node = BVHNode { first: 0, count: 3, left: 1, ..BVHNode::default() };
    node.update_bounds(&primitives, &vec![0, 1, 2]);
    assert!(node.partition_triangles(&mut bvh, &primitives));
    assert_eq!(node.split_axis, 0);
    let counts: Vec<u32> = bvh.bins.iter().map(|b| b.count).collect();
    assert_eq!(counts, vec![1, 1, 0, 1]);
    let left: Vec<u32> = bvh.bins_left.iter().map(|b| b.count).collect();
    let right: Vec<u32> = bvh.bins_right.iter().map(|b| b.count).collect();
    assert_eq!(left, vec![1, 2, 2]);
    assert_eq!(right, vec![2, 1, 1]);
    assert_eq!(bvh.bins[2].bounds, AABB::new());
    // an empty slice adds nothing to the sums
    assert_eq!(bvh.bins_left[2].bounds, bvh.bins_left[1].bounds);
    assert_eq!(bvh.bins_right[1].bounds, bvh.bins_right[2].bounds);
}

#[test]
fn leaf_scan_keeps_the_nearest_hit_beyond_epsilon() {
    let primitives = vec![
        sphere(0, 0, 90_000, 100_000_000),
        sphere(0, 0, 50_000, 100_000_000),
        sphere(0, 0, 70_000, 100_000_000),
        // the ray starts on this sphere: it is hit at distance 0
        sphere(0, 0, 10_000, 100_000_000),
    ];
    let node = BVHNode { first: 0, count: 4, is_leaf: true, ..BVHNode::default() };
    let r = ray((0, 0, 0), (0, 0, 10_000));
    assert_eq!(primitives[3].intersect(&r), Some(0));
    assert_eq!(node.intersect_triangles(&r, &primitives, &vec![0, 1, 2, 3]), Some((1, 40_000)));
    assert_eq!(node.intersect_triangles(&r, &primitives, &vec![3, 2, 1, 0]), Some((1, 40_000)));
    let part = BVHNode { first: 2, count: 2, is_leaf: true, ..BVHNode::default() };
    assert_eq!(part.intersect_triangles(&r, &primitives, &vec![1, 1, 0, 2]), Some((2, 60_000)));
    let away = ray((0, 0, 0), (10_000, 0, 0));
    assert_eq!(node.intersect_triangles(&away, &primitives, &vec![0, 1, 2, 3]), None);
}

#[test]
fn leaf_scan_takes_the_first_of_equal_hits() {
    let primitives = vec![sphere(0, 0, 50_000, 100_000_000), sphere(0, 0, 50_000, 100_000_000)];
    let node = BVHNode { first: 0, count: 2, is_leaf: true, ..BVHNode::default() };
    let r = ray((0, 0, 0), (0, 0, 10_000));
    assert_eq!(node.intersect_triangles(&r, &primitives, &vec![1, 0]), Some((1, 40_000)));
    assert_eq!(node.intersect_triangles(&r, &primitives, &vec![0, 1]), Some((0, 40_000)));
}

#[test]
fn search_agrees_with_a_scan_of_all_primitives() {
    let mut primitives: Vec<Box<dyn Primitive>> = Vec::new();
    for i in 0..5 {
        for j in 0..4 {
            primitives.push(sphere(i * 40_000, j * 40_000, 100_000 + i * 10_000, 100_000_000));
        }
    }
    primitives.push(Box::new(Triangle::create_triangle(
        Vec3::new(-100_000, -100_000, 500_000),
        Vec3::new(400_000, -100_000, 500_000),
        Vec3::new(-100_000, 400_000, 500_000),
        false,
        0,
    )));
    let mut bvh = BVH::new(0, primitives.len());
    bvh.build(&primitives);
    let mut hits = 0;
    for x in -3..20 {
        for y in -3..16 {
            let r = ray((x * 10_000, y * 10_000, 0), (0, 0, 10_000));
            let found = bvh.pool[0].traverse(&r, &bvh, &primitives);
            assert_eq!(found, brute_force(&primitives, &r));
            if found.is_some() {
                hits += 1;
            }
        }
    }
    assert!(hits > 100);
}

#[test]
fn search_misses_where_the_ray_misses_the_root() {
    let primitives = three_spheres();
    let mut bvh = BVH::new(0, 3);
    bvh.build(&primitives);
    let r = ray((0, 0, 0), (0, 0, -10_000));
    assert_eq!(bvh.pool[0].traverse(&r, &bvh, &primitives), None);
    let beside = ray((0, 50_000, 0), (0, 0, 10_000));
    assert_eq!(bvh.pool[0].traverse(&beside, &bvh, &primitives), None);
}

#[test]
fn search_goes_to_the_front_child_first_along_the_axis() {
    let primitives = three_spheres();
    let mut bvh = BVH::new(0, 3);
    bvh.build(&primitives);
    // along +x at z = 12: only R is met
    let r = ray((-100_000, 0, 120_000), (10_000, 0, 0));
    assert_eq!(primitives[0].intersect(&r), None);
    assert_eq!(bvh.pool[0].traverse(&r, &bvh, &primitives), Some((1, 77_639)));
    assert_eq!(brute_force(&primitives, &r), Some((1, 77_639)));
    // against x, R is met before L
    let back = ray((100_000, 0, 120_000), (-10_000, 0, 0));
    assert_eq!(bvh.pool[0].traverse(&back, &bvh, &primitives), Some((2, 60_000)));
    assert_eq!(brute_force(&primitives, &back), Some((2, 60_000)));
}

/// Known deviation from a textbook hierarchy: the child that is searched
/// first wins even where the other child holds a nearer hit. Here the boxes
/// of the two children overlap between x = 2 and x = 3.
#[test]
fn search_may_return_a_hit_behind_the_nearest_where_boxes_overlap() {
    let primitives = three_spheres();
    let mut bvh = BVH::new(0, 3);
    bvh.build(&primitives);
    // straight up z at x = 2.5: L is met at 8.3416.., R at 11.1339..
    let r = ray((25_000, 0, 0), (0, 0, 10_000));
    assert_eq!(brute_force(&primitives, &r), Some((1, 83_416)));
    assert_eq!(bvh.pool[0].traverse(&r, &bvh, &primitives), Some((2, 111_339)));
}

#[test]
fn search_of_one_leaf_agrees_with_a_scan_for_rounded_directions() {
    // a unit sphere that the ray passes at 2.0 from its centre
    let primitives = vec![sphere(1_428_356, -1_400_072, 0, 100_000_000)];
    let mut bvh = BVH::new(0, 1);
    bvh.build(&primitives);
    let r = Ray { origin: Vec3::new(0, 0, 0), direction: normalize((10_000, -10_000, 0)) };
    assert_eq!(brute_force(&primitives, &r), None);
    assert_eq!(bvh.pool[0].traverse(&r, &bvh, &primitives), None);
    // and one that it goes through
    let primitives = vec![sphere(2_000_000, 2_000_000, 0, 100_000_000)];
    let mut bvh = BVH::new(0, 1);
    bvh.build(&primitives);
    let r = Ray { origin: Vec3::new(0, 0, 0), direction: normalize((2_000_000, 2_000_000, 0)) };
    assert_eq!(brute_force(&primitives, &r), Some((0, 2_818_454)));
    assert_eq!(bvh.pool[0].traverse(&r, &bvh, &primitives), Some((0, 2_818_454)));
}

#[test]
fn search_agrees_with_a_scan_along_rounded_directions() {
    // spheres far from each other, so that no two boxes overlap
    let mut primitives: Vec<Box<dyn Primitive>> = Vec::new();
    for i in 0..6 {
        for j in 0..6 {
            primitives.push(sphere(
                -1_500_000 + i * 600_000,
                -1_500_000 + j * 600_000,
                2_000_000 + (i + j) * 50_000,
                40_000_000_000,
            ));
        }
    }
    let mut bvh = BVH::new(0, primitives.len());
    bvh.build(&primitives);
    let mut hits = 0;
    for x in -12..=12 {
        for y in -12..=12 {
            let d = normalize((x * 150_000, y * 150_000, 2_000_000));
            let r = Ray { origin: Vec3::new(0, 0, 0), direction: d };
            let found = bvh.pool[0].traverse(&r, &bvh, &primitives);
            let scanned = brute_force(&primitives, &r);
            assert_eq!(found.is_some(), scanned.is_some());
            if let (Some(f), Some(s)) = (found, scanned) {
                assert!(f.1 >= s.1);
                assert_eq!(primitives[f.0].intersect(&r), Some(f.1));
                hits += 1;
            }
        }
    }
    assert!(hits > 100);
}
