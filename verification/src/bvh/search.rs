//! The model of a search: which hit a scan of some primitives keeps, and
//! which hit the descent through the hierarchy returns.

use vstd::prelude::*;
use crate::bvh::bvh_node::BVHNode;
use crate::primitives::primitive::Primitive;
use crate::ray::Ray;
use crate::EPSILON;

verus! {

/// The nearest hit farther than `EPSILON` among the primitives that the
/// slots `first .. first + n` of `indices` name, with the primitive's index;
/// the first of them where several are as near.
pub open spec fn nearest_upto(
    prims: Seq<Box<dyn Primitive>>,
    indices: Seq<usize>,
    first: int,
    n: nat,
    ray: Ray,
) -> Option<(usize, i64)>
    decreases n,
{
    if n == 0 {
        None
    } else {
        let before = nearest_upto(prims, indices, first, (n - 1) as nat, ray);
        let i = indices[first + n - 1];
        match prims[i as int].hit(ray) {
            Some(d) => if d > EPSILON && (before matches Some(h) ==> d < h.1) {
                Some((i, d))
            } else {
                before
            },
            None => before,
        }
    }
}

/// How far below a node the descent can still go.
pub open spec fn depth_left(pool: Seq<BVHNode>, node: BVHNode) -> int {
    if node.is_leaf {
        0
    } else {
        pool.len() - node.left
    }
}

/// The children of an inner node are in the pool, and each is a leaf or has
/// its own children farther on in the pool.
pub open spec fn descends(pool: Seq<BVHNode>, node: BVHNode) -> bool {
    &&& node.left + 1 < pool.len()
    &&& pool[node.left as int].is_leaf || node.left < pool[node.left as int].left < pool.len()
    &&& pool[node.left + 1].is_leaf || node.left < pool[node.left + 1].left < pool.len()
}

/// A search can go through the node and all below it: each node's range
/// names primitives that are there, and each inner node has an axis and
/// children that the descent can go on to.
pub open spec fn searchable(
    pool: Seq<BVHNode>,
    node: BVHNode,
    indices: Seq<usize>,
    prims: Seq<Box<dyn Primitive>>,
) -> bool
    decreases depth_left(pool, node),
{
    &&& node.in_range(indices, prims)
    &&& !node.is_leaf ==> {
        &&& node.split_axis < 3
        &&& descends(pool, node)
        &&& searchable(pool, pool[node.left as int], indices, prims)
        &&& searchable(pool, pool[node.left + 1], indices, prims)
    }
}

/// What the descent from a node returns. Nothing, where the ray misses the
/// node's box. In a leaf, the nearest hit of its primitives. In an inner
/// node, what the child returns that lies first along the ray (the front
/// child where the ray moves up the node's axis, else the back child), and
/// what the other child returns only where that is nothing.
pub open spec fn tree_hit(
    pool: Seq<BVHNode>,
    node: BVHNode,
    prims: Seq<Box<dyn Primitive>>,
    indices: Seq<usize>,
    ray: Ray,
) -> Option<(usize, i64)>
    decreases depth_left(pool, node),
{
    if !ray.hits_box(node.bounds) {
        None
    } else if node.is_leaf {
        nearest_upto(prims, indices, node.first as int, node.count as nat, ray)
    } else if descends(pool, node) {
        let front = pool[node.left as int];
        let back = pool[node.left + 1];
        if ray.direction.axis(node.split_axis as int) > 0 {
            match tree_hit(pool, front, prims, indices, ray) {
                Some(h) => Some(h),
                None => tree_hit(pool, back, prims, indices, ray),
            }
        } else {
            match tree_hit(pool, back, prims, indices, ray) {
                Some(h) => Some(h),
                None => tree_hit(pool, front, prims, indices, ray),
            }
        }
    } else {
        None
    }
}

/// The distance of a hit, if there is one.
pub open spec fn distance_of(hit: Option<(usize, i64)>) -> Option<i64> {
    match hit {
        Some(h) => Some(h.1),
        None => None,
    }
}

/// The lesser of two distances, where nothing is farther than anything.
pub open spec fn nearer(a: Option<i64>, b: Option<i64>) -> Option<i64> {
    match (a, b) {
        (Some(x), Some(y)) => if x <= y {
            Some(x)
        } else {
            Some(y)
        },
        (Some(x), None) => Some(x),
        (None, b) => b,
    }
}

/// The ray hits primitive `i` farther off than `EPSILON`.
pub open spec fn counts(prims: Seq<Box<dyn Primitive>>, i: usize, ray: Ray) -> bool {
    prims[i as int].hit(ray) matches Some(d) && d > EPSILON
}

/// What a scan keeps: a hit of the primitive it names, which one of the
/// slots lists, farther than `EPSILON` and no farther than any such hit in
/// the slots; and nothing only where no primitive in the slots is hit
/// farther than `EPSILON`.
pub proof fn lemma_nearest_is_least(
    prims: Seq<Box<dyn Primitive>>,
    indices: Seq<usize>,
    first: int,
    n: nat,
    ray: Ray,
)
    ensures
        match nearest_upto(prims, indices, first, n, ray) {
            Some(h) => {
                &&& exists|k: int| first <= k < first + n && #[trigger] indices[k] == h.0
                &&& prims[h.0 as int].hit(ray) == Some(h.1)
                &&& h.1 > EPSILON
                &&& forall|k: int|
                    first <= k < first + n && counts(prims, #[trigger] indices[k], ray)
                        ==> h.1 <= prims[indices[k] as int].hit(ray).unwrap()
            },
            None => forall|k: int|
                first <= k < first + n ==> !counts(prims, #[trigger] indices[k], ray),
        },
    decreases n,
{
    if n > 0 {
        lemma_nearest_is_least(prims, indices, first, (n - 1) as nat, ray);
        let before = nearest_upto(prims, indices, first, (n - 1) as nat, ray);
        let now = nearest_upto(prims, indices, first, n, ray);
        let last = indices[first + n - 1];
        match now {
            Some(h) => {
                if before == Some(h) {
                    let k = choose|k: int|
                        first <= k < first + n - 1 && #[trigger] indices[k] == h.0;
                    assert(first <= k < first + n && indices[k] == h.0);
                } else {
                    assert(last == h.0);
                    assert(first <= first + n - 1 < first + n && indices[first + n - 1] == h.0);
                }
                assert forall|k: int|
                    first <= k < first + n && counts(prims, #[trigger] indices[k], ray) implies h.1 <= prims[indices[k] as int].hit(ray).unwrap() by {
                    if k < first + n - 1 {
                        assert(before is Some);
                    }
                }
            },
            None => {
                assert(!counts(prims, last, ray));
                assert forall|k: int| first <= k < first + n implies !counts(prims, #[trigger] indices[k], ray) by {
                    if k == first + n - 1 {
                        assert(indices[k] == last);
                    } else {
                        assert(first <= k < first + (n - 1) as nat);
                    }
                }
            },
        }
    }
}

/// A scan of some slots and then of the slots that follow keeps a hit as
/// near as the nearer of what the two scans keep.
pub proof fn lemma_nearest_of_two_runs(
    prims: Seq<Box<dyn Primitive>>,
    indices: Seq<usize>,
    first: int,
    a: nat,
    b: nat,
    ray: Ray,
)
    ensures
        distance_of(nearest_upto(prims, indices, first, a + b, ray)) == nearer(
            distance_of(nearest_upto(prims, indices, first, a, ray)),
            distance_of(nearest_upto(prims, indices, first + a, b, ray)),
        ),
    decreases b,
{
    if b > 0 {
        lemma_nearest_of_two_runs(prims, indices, first, a, (b - 1) as nat, ray);
        assert(a + b - 1 == a + (b - 1));
        assert(first + (a + b) - 1 == (first + a) + b - 1);
    }
}

/// Whatever the descent returns is a hit: of a primitive that the index
/// array lists, at the distance at which the ray hits it, farther than
/// `EPSILON`.
pub proof fn lemma_descent_returns_a_hit(
    pool: Seq<BVHNode>,
    node: BVHNode,
    prims: Seq<Box<dyn Primitive>>,
    indices: Seq<usize>,
    ray: Ray,
)
    requires
        searchable(pool, node, indices, prims),
    ensures
        tree_hit(pool, node, prims, indices, ray) matches Some(h) ==> {
            &&& exists|k: int| 0 <= k < indices.len() && #[trigger] indices[k] == h.0
            &&& h.0 < prims.len()
            &&& prims[h.0 as int].hit(ray) == Some(h.1)
            &&& h.1 > EPSILON
        },
    decreases depth_left(pool, node),
{
    if ray.hits_box(node.bounds) {
        if node.is_leaf {
            lemma_nearest_is_least(prims, indices, node.first as int, node.count as nat, ray);
            if let Some(h) = nearest_upto(
                prims,
                indices,
                node.first as int,
                node.count as nat,
                ray,
            ) {
                let k = choose|k: int|
                    node.first <= k < node.first + node.count && #[trigger] indices[k] == h.0;
                assert(0 <= k < indices.len() && indices[k] == h.0);
            }
        } else {
            lemma_descent_returns_a_hit(pool, pool[node.left as int], prims, indices, ray);
            lemma_descent_returns_a_hit(pool, pool[node.left + 1], prims, indices, ray);
        }
    }
}

/// The descent meets the children of every inner node from front to back:
/// where the child that is searched first returns a hit, no primitive of
/// the other child is hit nearer and farther than `EPSILON`.
pub open spec fn front_to_back(
    pool: Seq<BVHNode>,
    node: BVHNode,
    prims: Seq<Box<dyn Primitive>>,
    indices: Seq<usize>,
    ray: Ray,
) -> bool
    decreases depth_left(pool, node),
{
    if node.is_leaf || !descends(pool, node) || !ray.hits_box(node.bounds) {
        true
    } else {
        let front = pool[node.left as int];
        let back = pool[node.left + 1];
        let (one, other) = if ray.direction.axis(node.split_axis as int) > 0 {
            (front, back)
        } else {
            (back, front)
        };
        &&& front_to_back(pool, one, prims, indices, ray)
        &&& match tree_hit(pool, one, prims, indices, ray) {
            Some(h) => nearer(
                Some(h.1),
                distance_of(
                    nearest_upto(prims, indices, other.first as int, other.count as nat, ray),
                ),
            ) == Some(h.1),
            None => front_to_back(pool, other, prims, indices, ray),
        }
    }
}

} // verus!
