//! The model of a whole build: what the node pool and the index array hold
//! once a node was subdivided as far as it goes.

use vstd::prelude::*;
use crate::bvh::aabb::AABB;
use crate::bvh::bin::Bin;
use crate::bvh::bvh_node::BVHNode;
use crate::bvh::sah::{
    binning_of, bins_after_attempt, halves, lemma_clustered_is_not_split, lemma_halves_enclose,
    lemma_halves_proper, lemma_same_entries_same_limit, lemma_same_entries_same_property,
    split_choice,
};
use crate::bvh::search::{
    counts, distance_of, front_to_back, lemma_nearest_is_least, lemma_nearest_of_two_runs,
    nearest_upto, searchable, tree_hit,
};
use crate::ray::{lemma_hits_larger_box, Ray};
use crate::EPSILON;
use crate::primitives::primitive::Primitive;

verus! {

/// A child as its parent makes it: a box and a range of slots, nothing more.
pub open spec fn fresh_child(bounds: AABB, first: int, count: int) -> BVHNode {
    BVHNode {
        bounds,
        is_leaf: false,
        left: 0,
        first: first as usize,
        count: count as usize,
        split_axis: 0,
    }
}

/// How many nodes of the pool the subdivision of a node takes, whose box is
/// `bounds` and whose primitives `s` names: none for a node of two or fewer,
/// else two, and what its children take where it is split.
pub open spec fn subtree_slots(
    prims: Seq<Box<dyn Primitive>>,
    s: Seq<usize>,
    bounds: AABB,
    bin_count: usize,
) -> nat
    decreases s.len(),
{
    if s.len() <= 2 {
        0
    } else {
        match split_choice(prims, s, bounds, bin_count) {
            None => 2,
            Some(b) => {
                proof {
                    lemma_halves_proper(prims, s, bounds, bin_count);
                }
                let ((ls, lb), (rs, rb)) = halves(prims, s, bin_count, b);
                2 + subtree_slots(prims, ls, lb, bin_count) + subtree_slots(
                    prims,
                    rs,
                    rb,
                    bin_count,
                )
            },
        }
    }
}

/// The order in which the indices `s` of a node stand once it is subdivided
/// as far as it goes: as they stood where the node stays whole, else the
/// final order of the front half and then that of the back half.
pub open spec fn final_order(
    prims: Seq<Box<dyn Primitive>>,
    s: Seq<usize>,
    bounds: AABB,
    bin_count: usize,
) -> Seq<usize>
    decreases s.len(),
{
    if s.len() <= 2 {
        s
    } else {
        match split_choice(prims, s, bounds, bin_count) {
            None => s,
            Some(b) => {
                proof {
                    lemma_halves_proper(prims, s, bounds, bin_count);
                }
                let ((ls, lb), (rs, rb)) = halves(prims, s, bin_count, b);
                final_order(prims, ls, lb, bin_count) + final_order(prims, rs, rb, bin_count)
            },
        }
    }
}

/// What the three arrays of bins hold once a node is subdivided as far as it
/// goes: what they held where the node has two primitives or fewer, else
/// what the last search for a split below it left in them.
pub open spec fn bins_after(
    prims: Seq<Box<dyn Primitive>>,
    s: Seq<usize>,
    bounds: AABB,
    bin_count: usize,
    before: (Seq<Bin>, Seq<Bin>, Seq<Bin>),
) -> (Seq<Bin>, Seq<Bin>, Seq<Bin>)
    decreases s.len(),
{
    if s.len() <= 2 {
        before
    } else {
        match split_choice(prims, s, bounds, bin_count) {
            None => bins_after_attempt(prims, s, bin_count),
            Some(b) => {
                proof {
                    lemma_halves_proper(prims, s, bounds, bin_count);
                }
                let ((ls, lb), (rs, rb)) = halves(prims, s, bin_count, b);
                bins_after(
                    prims,
                    rs,
                    rb,
                    bin_count,
                    bins_after(prims, ls, lb, bin_count, bins_after_attempt(prims, s, bin_count)),
                )
            },
        }
    }
}

/// The node once it is subdivided, where `s` names its primitives and
/// `pool_ptr` is the pool's first free node: a leaf if it holds two or fewer;
/// else its children are the nodes `pool_ptr` and `pool_ptr + 1`, its axis is
/// the one it was sliced along, and it is a leaf if no split was chosen.
pub open spec fn subdivided(
    prims: Seq<Box<dyn Primitive>>,
    node: BVHNode,
    s: Seq<usize>,
    pool_ptr: int,
    bin_count: usize,
) -> BVHNode {
    if s.len() <= 2 {
        BVHNode { is_leaf: true, ..node }
    } else {
        BVHNode {
            is_leaf: split_choice(prims, s, node.bounds, bin_count) is None,
            left: pool_ptr as usize,
            split_axis: binning_of(prims, s, bin_count).axis,
            ..node
        }
    }
}

/// The pool holds what the subdivision of a node leaves below it, where the
/// node's range starts at `first`, its box is `bounds`, `s` names its
/// primitives, `pool_ptr` was the pool's first free node and `before` the
/// pool. Where the node is split, its two children stand at `pool_ptr` and
/// `pool_ptr + 1`, each with its half of the range and the box around it,
/// each subdivided in turn, the front one from `pool_ptr + 2` and the back
/// one after all that the front one took. Where a node of more than two
/// primitives stays whole, the two nodes that it took are as they were.
pub open spec fn holds_subtree(
    pool: Seq<BVHNode>,
    before: Seq<BVHNode>,
    prims: Seq<Box<dyn Primitive>>,
    s: Seq<usize>,
    first: int,
    bounds: AABB,
    pool_ptr: int,
    bin_count: usize,
) -> bool
    decreases s.len(),
{
    if s.len() <= 2 {
        true
    } else {
        match split_choice(prims, s, bounds, bin_count) {
            None => {
                &&& 0 <= pool_ptr
                &&& pool_ptr + 2 <= pool.len()
                &&& pool[pool_ptr] == before[pool_ptr]
                &&& pool[pool_ptr + 1] == before[pool_ptr + 1]
            },
            Some(b) => {
                proof {
                    lemma_halves_proper(prims, s, bounds, bin_count);
                }
                let ((ls, lb), (rs, rb)) = halves(prims, s, bin_count, b);
                let left_ptr = pool_ptr + 2;
                let right_ptr = left_ptr + subtree_slots(prims, ls, lb, bin_count);
                &&& 0 <= pool_ptr
                &&& right_ptr + subtree_slots(prims, rs, rb, bin_count) <= pool.len()
                &&& pool[pool_ptr] == subdivided(
                    prims,
                    fresh_child(lb, first, ls.len() as int),
                    ls,
                    left_ptr,
                    bin_count,
                )
                &&& pool[pool_ptr + 1] == subdivided(
                    prims,
                    fresh_child(rb, first + ls.len(), rs.len() as int),
                    rs,
                    right_ptr,
                    bin_count,
                )
                &&& holds_subtree(pool, before, prims, ls, first, lb, left_ptr, bin_count)
                &&& holds_subtree(
                    pool,
                    before,
                    prims,
                    rs,
                    first + ls.len(),
                    rb,
                    right_ptr,
                    bin_count,
                )
            },
        }
    }
}

/// A subdivision takes no more nodes than two for each primitive but one.
pub proof fn lemma_subtree_slots_bound(
    prims: Seq<Box<dyn Primitive>>,
    s: Seq<usize>,
    bounds: AABB,
    bin_count: usize,
)
    ensures
        s.len() <= 2 ==> subtree_slots(prims, s, bounds, bin_count) == 0,
        s.len() >= 1 ==> subtree_slots(prims, s, bounds, bin_count) <= 2 * (s.len() - 1),
    decreases s.len(),
{
    if s.len() > 2 {
        if let Some(b) = split_choice(prims, s, bounds, bin_count) {
            lemma_halves_proper(prims, s, bounds, bin_count);
            let ((ls, lb), (rs, rb)) = halves(prims, s, bin_count, b);
            lemma_subtree_slots_bound(prims, ls, lb, bin_count);
            lemma_subtree_slots_bound(prims, rs, rb, bin_count);
        }
    }
}

/// What a pool holds of a subtree depends only on the nodes that the
/// subdivision took: two pools that agree on them with two others, now and
/// before, hold the subtree too.
pub proof fn lemma_subtree_frame(
    pool: Seq<BVHNode>,
    before: Seq<BVHNode>,
    other: Seq<BVHNode>,
    other_before: Seq<BVHNode>,
    prims: Seq<Box<dyn Primitive>>,
    s: Seq<usize>,
    first: int,
    bounds: AABB,
    pool_ptr: int,
    bin_count: usize,
)
    requires
        holds_subtree(pool, before, prims, s, first, bounds, pool_ptr, bin_count),
        pool.len() == other.len(),
        forall|k: int|
            pool_ptr <= k < pool_ptr + subtree_slots(prims, s, bounds, bin_count) ==> pool[k]
                == other[k] && before[k] == other_before[k],
    ensures
        holds_subtree(other, other_before, prims, s, first, bounds, pool_ptr, bin_count),
    decreases s.len(),
{
    if s.len() > 2 {
        if let Some(b) = split_choice(prims, s, bounds, bin_count) {
            lemma_halves_proper(prims, s, bounds, bin_count);
            let ((ls, lb), (rs, rb)) = halves(prims, s, bin_count, b);
            let left_ptr = pool_ptr + 2;
            let right_ptr = left_ptr + subtree_slots(prims, ls, lb, bin_count);
            lemma_subtree_frame(
                pool,
                before,
                other,
                other_before,
                prims,
                ls,
                first,
                lb,
                left_ptr,
                bin_count,
            );
            lemma_subtree_frame(
                pool,
                before,
                other,
                other_before,
                prims,
                rs,
                first + ls.len(),
                rb,
                right_ptr,
                bin_count,
            );
        }
    }
}

/// The final order of a node's indices holds as many as the node had.
pub proof fn lemma_final_order_len(
    prims: Seq<Box<dyn Primitive>>,
    s: Seq<usize>,
    bounds: AABB,
    bin_count: usize,
)
    ensures
        final_order(prims, s, bounds, bin_count).len() == s.len(),
    decreases s.len(),
{
    if s.len() > 2 {
        if let Some(b) = split_choice(prims, s, bounds, bin_count) {
            lemma_halves_proper(prims, s, bounds, bin_count);
            let ((ls, lb), (rs, rb)) = halves(prims, s, bin_count, b);
            lemma_final_order_len(prims, ls, lb, bin_count);
            lemma_final_order_len(prims, rs, rb, bin_count);
        }
    }
}

/// A build only rearranges: the final order of a node's indices holds each
/// index as often as the node had it.
pub proof fn lemma_final_order_permutes(
    prims: Seq<Box<dyn Primitive>>,
    s: Seq<usize>,
    bounds: AABB,
    bin_count: usize,
)
    ensures
        final_order(prims, s, bounds, bin_count).to_multiset() == s.to_multiset(),
    decreases s.len(),
{
    if s.len() > 2 {
        if let Some(b) = split_choice(prims, s, bounds, bin_count) {
            lemma_halves_proper(prims, s, bounds, bin_count);
            let ((ls, lb), (rs, rb)) = halves(prims, s, bin_count, b);
            lemma_final_order_permutes(prims, ls, lb, bin_count);
            lemma_final_order_permutes(prims, rs, rb, bin_count);
            vstd::seq_lib::lemma_multiset_commutative(ls, rs);
            vstd::seq_lib::lemma_multiset_commutative(
                final_order(prims, ls, lb, bin_count),
                final_order(prims, rs, rb, bin_count),
            );
        }
    }
}

/// A node that was subdivided can be searched, and so can all below it:
/// where the pool holds its subtree and the index array holds the final
/// order of its indices in its range.
pub proof fn lemma_subtree_searchable(
    pool: Seq<BVHNode>,
    before: Seq<BVHNode>,
    prims: Seq<Box<dyn Primitive>>,
    indices: Seq<usize>,
    s: Seq<usize>,
    node: BVHNode,
    pool_ptr: int,
    bin_count: usize,
)
    requires
        node.count == s.len(),
        node.first + node.count <= indices.len(),
        indices.len() <= usize::MAX,
        forall|k: int| 0 <= k < s.len() ==> #[trigger] s[k] < prims.len(),
        indices.subrange(node.first as int, node.first + node.count) == final_order(
            prims,
            s,
            node.bounds,
            bin_count,
        ),
        0 <= pool_ptr,
        pool_ptr + subtree_slots(prims, s, node.bounds, bin_count) <= pool.len(),
        pool.len() <= usize::MAX,
        holds_subtree(
            pool,
            before,
            prims,
            s,
            node.first as int,
            node.bounds,
            pool_ptr,
            bin_count,
        ),
    ensures
        searchable(pool, subdivided(prims, node, s, pool_ptr, bin_count), indices, prims),
    decreases s.len(),
{
    let after = subdivided(prims, node, s, pool_ptr, bin_count);
    let order = final_order(prims, s, node.bounds, bin_count);
    lemma_final_order_permutes(prims, s, node.bounds, bin_count);
    lemma_same_entries_same_limit(order, s, prims.len() as int);
    assert forall|k: int| node.first <= k < node.first + node.count implies #[trigger] indices[k]
        < prims.len() by {
        assert(indices[k] == order[k - node.first]);
    }
    assert(after.in_range(indices, prims));
    if s.len() > 2 {
        if let Some(b) = split_choice(prims, s, node.bounds, bin_count) {
            lemma_halves_proper(prims, s, node.bounds, bin_count);
            let ((ls, lb), (rs, rb)) = halves(prims, s, bin_count, b);
            let left_ptr = pool_ptr + 2;
            let right_ptr = left_ptr + subtree_slots(prims, ls, lb, bin_count);
            let front = fresh_child(lb, node.first as int, ls.len() as int);
            let back = fresh_child(rb, node.first + ls.len(), rs.len() as int);
            lemma_final_order_len(prims, ls, lb, bin_count);
            lemma_final_order_len(prims, rs, rb, bin_count);
            lemma_same_entries_same_limit(ls + rs, s, prims.len() as int);
            assert forall|k: int| 0 <= k < ls.len() implies #[trigger] ls[k] < prims.len() by {
                assert(ls[k] == (ls + rs)[k]);
            }
            assert forall|k: int| 0 <= k < rs.len() implies #[trigger] rs[k] < prims.len() by {
                assert(rs[k] == (ls + rs)[ls.len() + k]);
            }
            assert(indices.subrange(front.first as int, front.first + front.count)
                =~= final_order(prims, ls, lb, bin_count)) by {
                assert forall|k: int| 0 <= k < ls.len() implies indices[front.first + k]
                    == final_order(prims, ls, lb, bin_count)[k] by {
                    assert(indices[node.first + k] == order[k]);
                }
            }
            assert(indices.subrange(back.first as int, back.first + back.count) =~= final_order(
                prims,
                rs,
                rb,
                bin_count,
            )) by {
                assert forall|k: int| 0 <= k < rs.len() implies indices[back.first + k]
                    == final_order(prims, rs, rb, bin_count)[k] by {
                    assert(indices[node.first + ls.len() + k] == order[ls.len() + k]);
                }
            }
            lemma_subtree_searchable(pool, before, prims, indices, ls, front, left_ptr, bin_count);
            lemma_subtree_searchable(pool, before, prims, indices, rs, back, right_ptr, bin_count);
            lemma_subtree_slots_bound(prims, ls, lb, bin_count);
            lemma_subtree_slots_bound(prims, rs, rb, bin_count);
            assert(after.split_axis < 3) by {
                reveal(split_choice);
            }
        }
    }
}

/// A node whose primitives all have their centroid at one point stays
/// whole, however many they are: it becomes a leaf, its indices stand as
/// they stood, and it takes no more than two nodes of the pool.
pub proof fn lemma_clustered_node_stays_whole(
    prims: Seq<Box<dyn Primitive>>,
    s: Seq<usize>,
    node: BVHNode,
    pool_ptr: int,
    bin_count: usize,
)
    requires
        forall|i: int, j: int|
            0 <= i < s.len() && 0 <= j < s.len() ==> prims[(#[trigger] s[i]) as int].centroid()
                == prims[(#[trigger] s[j]) as int].centroid(),
    ensures
        subdivided(prims, node, s, pool_ptr, bin_count).is_leaf,
        final_order(prims, s, node.bounds, bin_count) == s,
        subtree_slots(prims, s, node.bounds, bin_count) <= 2,
{
    lemma_clustered_is_not_split(prims, s, node.bounds, bin_count);
}

/// Where a node is split, the index array holds the final order of each
/// half in that half of the node's range, and each half names primitives
/// that are there.
proof fn lemma_split_ranges(
    prims: Seq<Box<dyn Primitive>>,
    indices: Seq<usize>,
    s: Seq<usize>,
    node: BVHNode,
    bin_count: usize,
)
    requires
        node.count == s.len(),
        node.first + node.count <= indices.len(),
        forall|k: int| 0 <= k < s.len() ==> #[trigger] s[k] < prims.len(),
        indices.subrange(node.first as int, node.first + node.count) == final_order(
            prims,
            s,
            node.bounds,
            bin_count,
        ),
        s.len() > 2,
        split_choice(prims, s, node.bounds, bin_count) is Some,
    ensures
        ({
            let b = split_choice(prims, s, node.bounds, bin_count).unwrap();
            let ((ls, lb), (rs, rb)) = halves(prims, s, bin_count, b);
            &&& 0 < ls.len()
            &&& 0 < rs.len()
            &&& ls.len() + rs.len() == s.len()
            &&& (ls + rs).to_multiset() == s.to_multiset()
            &&& forall|k: int| 0 <= k < ls.len() ==> #[trigger] ls[k] < prims.len()
            &&& forall|k: int| 0 <= k < rs.len() ==> #[trigger] rs[k] < prims.len()
            &&& indices.subrange(node.first as int, node.first + ls.len()) == final_order(
                prims,
                ls,
                lb,
                bin_count,
            )
            &&& indices.subrange(node.first + ls.len(), node.first + node.count) == final_order(
                prims,
                rs,
                rb,
                bin_count,
            )
        }),
{
    let b = split_choice(prims, s, node.bounds, bin_count).unwrap();
    let order = final_order(prims, s, node.bounds, bin_count);
    lemma_halves_proper(prims, s, node.bounds, bin_count);
    let ((ls, lb), (rs, rb)) = halves(prims, s, bin_count, b);
    lemma_final_order_len(prims, ls, lb, bin_count);
    lemma_final_order_len(prims, rs, rb, bin_count);
    lemma_same_entries_same_limit(ls + rs, s, prims.len() as int);
    assert forall|k: int| 0 <= k < ls.len() implies #[trigger] ls[k] < prims.len() by {
        assert(ls[k] == (ls + rs)[k]);
    }
    assert forall|k: int| 0 <= k < rs.len() implies #[trigger] rs[k] < prims.len() by {
        assert(rs[k] == (ls + rs)[ls.len() + k]);
    }
    assert(indices.subrange(node.first as int, node.first + ls.len()) =~= final_order(
        prims,
        ls,
        lb,
        bin_count,
    )) by {
        assert forall|k: int| 0 <= k < ls.len() implies indices[node.first + k] == final_order(
            prims,
            ls,
            lb,
            bin_count,
        )[k] by {
            assert(indices[node.first + k] == order[k]);
        }
    }
    assert(indices.subrange(node.first + ls.len(), node.first + node.count) =~= final_order(
        prims,
        rs,
        rb,
        bin_count,
    )) by {
        assert forall|k: int| 0 <= k < rs.len() implies indices[node.first + ls.len() + k]
            == final_order(prims, rs, rb, bin_count)[k] by {
            assert(indices[node.first + ls.len() + k] == order[ls.len() + k]);
        }
    }
}

/// Whatever the descent through a built hierarchy returns from a node is a
/// hit of one of that node's own primitives: the index array names it in
/// the node's range, the ray hits it at the distance returned, and that is
/// farther than `EPSILON`.
pub proof fn lemma_descent_hit_lies_in_range(
    pool: Seq<BVHNode>,
    before: Seq<BVHNode>,
    prims: Seq<Box<dyn Primitive>>,
    indices: Seq<usize>,
    s: Seq<usize>,
    node: BVHNode,
    pool_ptr: int,
    bin_count: usize,
    ray: Ray,
)
    requires
        node.count == s.len(),
        node.first + node.count <= indices.len(),
        indices.len() <= usize::MAX,
        forall|k: int| 0 <= k < s.len() ==> #[trigger] s[k] < prims.len(),
        indices.subrange(node.first as int, node.first + node.count) == final_order(
            prims,
            s,
            node.bounds,
            bin_count,
        ),
        0 <= pool_ptr,
        pool_ptr + subtree_slots(prims, s, node.bounds, bin_count) <= pool.len(),
        pool.len() <= usize::MAX,
        holds_subtree(
            pool,
            before,
            prims,
            s,
            node.first as int,
            node.bounds,
            pool_ptr,
            bin_count,
        ),
    ensures
        tree_hit(
            pool,
            subdivided(prims, node, s, pool_ptr, bin_count),
            prims,
            indices,
            ray,
        ) matches Some(h) ==> {
            &&& exists|k: int|
                node.first <= k < node.first + node.count && #[trigger] indices[k] == h.0
            &&& h.0 < prims.len()
            &&& prims[h.0 as int].hit(ray) == Some(h.1)
            &&& h.1 > EPSILON
        },
    decreases s.len(),
{
    let after = subdivided(prims, node, s, pool_ptr, bin_count);
    lemma_subtree_searchable(pool, before, prims, indices, s, node, pool_ptr, bin_count);
    if let Some(h) = tree_hit(pool, after, prims, indices, ray) {
        if after.is_leaf {
            lemma_nearest_is_least(prims, indices, node.first as int, node.count as nat, ray);
            let k = choose|k: int|
                node.first <= k < node.first + node.count && #[trigger] indices[k] == h.0;
            assert(indices[k] < prims.len());
        } else {
            let b = split_choice(prims, s, node.bounds, bin_count).unwrap();
            lemma_split_ranges(prims, indices, s, node, bin_count);
            let ((ls, lb), (rs, rb)) = halves(prims, s, bin_count, b);
            let left_ptr = pool_ptr + 2;
            let right_ptr = left_ptr + subtree_slots(prims, ls, lb, bin_count);
            let front = fresh_child(lb, node.first as int, ls.len() as int);
            let back = fresh_child(rb, node.first + ls.len(), rs.len() as int);
            lemma_subtree_slots_bound(prims, ls, lb, bin_count);
            lemma_subtree_slots_bound(prims, rs, rb, bin_count);
            let front_after = subdivided(prims, front, ls, left_ptr, bin_count);
            let back_after = subdivided(prims, back, rs, right_ptr, bin_count);
            assert(pool[after.left as int] == front_after);
            assert(pool[after.left + 1] == back_after);
            lemma_descent_hit_lies_in_range(
                pool,
                before,
                prims,
                indices,
                ls,
                front,
                left_ptr,
                bin_count,
                ray,
            );
            lemma_descent_hit_lies_in_range(
                pool,
                before,
                prims,
                indices,
                rs,
                back,
                right_ptr,
                bin_count,
                ray,
            );
            if tree_hit(pool, front_after, prims, indices, ray) == Some(h) {
                let k = choose|k: int|
                    front.first <= k < front.first + front.count && #[trigger] indices[k] == h.0;
                assert(node.first <= k < node.first + node.count && indices[k] == h.0);
            } else {
                assert(tree_hit(pool, back_after, prims, indices, ray) == Some(h));
                let k = choose|k: int|
                    back.first <= k < back.first + back.count && #[trigger] indices[k] == h.0;
                assert(node.first <= k < node.first + node.count && indices[k] == h.0);
            }
        }
    }
}

/// A ray that misses the box of a node hits none of its primitives farther
/// than `EPSILON`, where it meets the box of each primitive it hits and the
/// node's box holds those boxes.
proof fn lemma_missed_box_holds_no_hit(
    prims: Seq<Box<dyn Primitive>>,
    indices: Seq<usize>,
    s: Seq<usize>,
    node: BVHNode,
    bin_count: usize,
    ray: Ray,
)
    requires
        node.count == s.len(),
        node.first + node.count <= indices.len(),
        indices.subrange(node.first as int, node.first + node.count) == final_order(
            prims,
            s,
            node.bounds,
            bin_count,
        ),
        forall|k: int|
            0 <= k < s.len() ==> node.bounds.encloses(prims[(#[trigger] s[k]) as int].bounds()),
        forall|k: int|
            0 <= k < s.len() && counts(prims, #[trigger] s[k], ray) ==> ray.hits_box(
                prims[s[k] as int].bounds(),
            ),
        !ray.hits_box(node.bounds),
    ensures
        nearest_upto(prims, indices, node.first as int, node.count as nat, ray) is None,
{
    let order = final_order(prims, s, node.bounds, bin_count);
    lemma_nearest_is_least(prims, indices, node.first as int, node.count as nat, ray);
    if let Some(h) = nearest_upto(prims, indices, node.first as int, node.count as nat, ray) {
        lemma_final_order_permutes(prims, s, node.bounds, bin_count);
        let lies_in = |i: usize|
            node.bounds.encloses(prims[i as int].bounds()) && (counts(prims, i, ray)
                ==> ray.hits_box(prims[i as int].bounds()));
        lemma_same_entries_same_property(order, s, lies_in);
        let k = choose|k: int|
            node.first <= k < node.first + node.count && #[trigger] indices[k] == h.0;
        assert(indices[k] == order[k - node.first]);
        assert(lies_in(order[k - node.first]));
        lemma_hits_larger_box(ray, prims[h.0 as int].bounds(), node.bounds);
    }
}

/// Where a ray meets the box of each primitive of a node that it hits, it
/// does so in each half of the node.
proof fn lemma_halves_keep_hits_in_boxes(
    prims: Seq<Box<dyn Primitive>>,
    s: Seq<usize>,
    bounds: AABB,
    bin_count: usize,
    ray: Ray,
)
    requires
        split_choice(prims, s, bounds, bin_count) is Some,
        forall|k: int|
            0 <= k < s.len() && counts(prims, #[trigger] s[k], ray) ==> ray.hits_box(
                prims[s[k] as int].bounds(),
            ),
    ensures
        ({
            let b = split_choice(prims, s, bounds, bin_count).unwrap();
            let ((ls, lb), (rs, rb)) = halves(prims, s, bin_count, b);
            &&& forall|k: int|
                0 <= k < ls.len() && counts(prims, #[trigger] ls[k], ray) ==> ray.hits_box(
                    prims[ls[k] as int].bounds(),
                )
            &&& forall|k: int|
                0 <= k < rs.len() && counts(prims, #[trigger] rs[k], ray) ==> ray.hits_box(
                    prims[rs[k] as int].bounds(),
                )
        }),
{
    let b = split_choice(prims, s, bounds, bin_count).unwrap();
    let ((ls, lb), (rs, rb)) = halves(prims, s, bin_count, b);
    lemma_halves_proper(prims, s, bounds, bin_count);
    let hit_in_box = |i: usize| counts(prims, i, ray) ==> ray.hits_box(prims[i as int].bounds());
    lemma_same_entries_same_property(ls + rs, s, hit_in_box);
    assert forall|k: int| 0 <= k < ls.len() && counts(
        prims,
        #[trigger] ls[k],
        ray,
    ) implies ray.hits_box(prims[ls[k] as int].bounds()) by {
        assert(ls[k] == (ls + rs)[k]);
        assert(hit_in_box((ls + rs)[k]));
    }
    assert forall|k: int| 0 <= k < rs.len() && counts(
        prims,
        #[trigger] rs[k],
        ray,
    ) implies ray.hits_box(prims[rs[k] as int].bounds()) by {
        assert(rs[k] == (ls + rs)[ls.len() + k]);
        assert(hit_in_box((ls + rs)[ls.len() + k]));
    }
}

/// The descent through a built hierarchy returns a hit wherever a scan of
/// all the node's primitives keeps one, for every ray that meets the box of
/// each primitive it hits: no hit is lost, though the one returned may lie
/// behind the nearest.
pub proof fn lemma_descent_loses_no_hit(
    pool: Seq<BVHNode>,
    before: Seq<BVHNode>,
    prims: Seq<Box<dyn Primitive>>,
    indices: Seq<usize>,
    s: Seq<usize>,
    node: BVHNode,
    pool_ptr: int,
    bin_count: usize,
    ray: Ray,
)
    requires
        node.count == s.len(),
        node.first + node.count <= indices.len(),
        indices.len() <= usize::MAX,
        forall|k: int| 0 <= k < s.len() ==> #[trigger] s[k] < prims.len(),
        indices.subrange(node.first as int, node.first + node.count) == final_order(
            prims,
            s,
            node.bounds,
            bin_count,
        ),
        0 <= pool_ptr,
        pool_ptr + subtree_slots(prims, s, node.bounds, bin_count) <= pool.len(),
        pool.len() <= usize::MAX,
        holds_subtree(
            pool,
            before,
            prims,
            s,
            node.first as int,
            node.bounds,
            pool_ptr,
            bin_count,
        ),
        forall|k: int|
            0 <= k < s.len() ==> node.bounds.encloses(prims[(#[trigger] s[k]) as int].bounds()),
        forall|k: int|
            0 <= k < s.len() && counts(prims, #[trigger] s[k], ray) ==> ray.hits_box(
                prims[s[k] as int].bounds(),
            ),
    ensures
        tree_hit(
            pool,
            subdivided(prims, node, s, pool_ptr, bin_count),
            prims,
            indices,
            ray,
        ) is Some <==> nearest_upto(
            prims,
            indices,
            node.first as int,
            node.count as nat,
            ray,
        ) is Some,
    decreases s.len(),
{
    let after = subdivided(prims, node, s, pool_ptr, bin_count);
    lemma_subtree_searchable(pool, before, prims, indices, s, node, pool_ptr, bin_count);
    if !ray.hits_box(node.bounds) {
        lemma_missed_box_holds_no_hit(prims, indices, s, node, bin_count, ray);
    } else if s.len() > 2 {
        if let Some(b) = split_choice(prims, s, node.bounds, bin_count) {
            lemma_split_ranges(prims, indices, s, node, bin_count);
            lemma_halves_enclose(prims, s, node.bounds, bin_count);
            let ((ls, lb), (rs, rb)) = halves(prims, s, bin_count, b);
            let left_ptr = pool_ptr + 2;
            let right_ptr = left_ptr + subtree_slots(prims, ls, lb, bin_count);
            let front = fresh_child(lb, node.first as int, ls.len() as int);
            let back = fresh_child(rb, node.first + ls.len(), rs.len() as int);
            lemma_subtree_slots_bound(prims, ls, lb, bin_count);
            lemma_subtree_slots_bound(prims, rs, rb, bin_count);
            lemma_halves_keep_hits_in_boxes(prims, s, node.bounds, bin_count, ray);
            assert(pool[after.left as int] == subdivided(prims, front, ls, left_ptr, bin_count));
            assert(pool[after.left + 1] == subdivided(prims, back, rs, right_ptr, bin_count));
            lemma_nearest_of_two_runs(
                prims,
                indices,
                node.first as int,
                ls.len(),
                rs.len(),
                ray,
            );
            lemma_descent_loses_no_hit(
                pool,
                before,
                prims,
                indices,
                ls,
                front,
                left_ptr,
                bin_count,
                ray,
            );
            lemma_descent_loses_no_hit(
                pool,
                before,
                prims,
                indices,
                rs,
                back,
                right_ptr,
                bin_count,
                ray,
            );
        }
    }
}

/// The descent through a built hierarchy returns a hit as near as the
/// nearest that a scan of all the node's primitives keeps, for every ray
/// that meets the box of each primitive it hits and meets the children of
/// every inner node from front to back.
///
/// Where the boxes of two children overlap, the child that is searched
/// first may return a hit behind one in the other child: such rays are the
/// ones that `front_to_back` leaves out.
pub proof fn lemma_descent_finds_nearest(
    pool: Seq<BVHNode>,
    before: Seq<BVHNode>,
    prims: Seq<Box<dyn Primitive>>,
    indices: Seq<usize>,
    s: Seq<usize>,
    node: BVHNode,
    pool_ptr: int,
    bin_count: usize,
    ray: Ray,
)
    requires
        node.count == s.len(),
        node.first + node.count <= indices.len(),
        indices.len() <= usize::MAX,
        forall|k: int| 0 <= k < s.len() ==> #[trigger] s[k] < prims.len(),
        indices.subrange(node.first as int, node.first + node.count) == final_order(
            prims,
            s,
            node.bounds,
            bin_count,
        ),
        0 <= pool_ptr,
        pool_ptr + subtree_slots(prims, s, node.bounds, bin_count) <= pool.len(),
        pool.len() <= usize::MAX,
        holds_subtree(
            pool,
            before,
            prims,
            s,
            node.first as int,
            node.bounds,
            pool_ptr,
            bin_count,
        ),
        forall|k: int|
            0 <= k < s.len() ==> node.bounds.encloses(prims[(#[trigger] s[k]) as int].bounds()),
        forall|k: int|
            0 <= k < s.len() && counts(prims, #[trigger] s[k], ray) ==> ray.hits_box(
                prims[s[k] as int].bounds(),
            ),
        front_to_back(
            pool,
            subdivided(prims, node, s, pool_ptr, bin_count),
            prims,
            indices,
            ray,
        ),
    ensures
        distance_of(
            tree_hit(pool, subdivided(prims, node, s, pool_ptr, bin_count), prims, indices, ray),
        ) == distance_of(
            nearest_upto(prims, indices, node.first as int, node.count as nat, ray),
        ),
    decreases s.len(),
{
    let after = subdivided(prims, node, s, pool_ptr, bin_count);
    lemma_subtree_searchable(pool, before, prims, indices, s, node, pool_ptr, bin_count);
    if !ray.hits_box(node.bounds) {
        lemma_missed_box_holds_no_hit(prims, indices, s, node, bin_count, ray);
    } else if s.len() > 2 {
        if let Some(b) = split_choice(prims, s, node.bounds, bin_count) {
            lemma_split_ranges(prims, indices, s, node, bin_count);
            lemma_halves_enclose(prims, s, node.bounds, bin_count);
            let ((ls, lb), (rs, rb)) = halves(prims, s, bin_count, b);
            let left_ptr = pool_ptr + 2;
            let right_ptr = left_ptr + subtree_slots(prims, ls, lb, bin_count);
            let front = fresh_child(lb, node.first as int, ls.len() as int);
            let back = fresh_child(rb, node.first + ls.len(), rs.len() as int);
            lemma_subtree_slots_bound(prims, ls, lb, bin_count);
            lemma_subtree_slots_bound(prims, rs, rb, bin_count);
            lemma_halves_keep_hits_in_boxes(prims, s, node.bounds, bin_count, ray);
            let front_after = subdivided(prims, front, ls, left_ptr, bin_count);
            let back_after = subdivided(prims, back, rs, right_ptr, bin_count);
            assert(pool[after.left as int] == front_after);
            assert(pool[after.left + 1] == back_after);
            lemma_nearest_of_two_runs(
                prims,
                indices,
                node.first as int,
                ls.len(),
                rs.len(),
                ray,
            );
            if ray.direction.axis(after.split_axis as int) > 0 {
                lemma_descent_finds_nearest(
                    pool,
                    before,
                    prims,
                    indices,
                    ls,
                    front,
                    left_ptr,
                    bin_count,
                    ray,
                );
                if tree_hit(pool, front_after, prims, indices, ray) is None {
                    lemma_descent_finds_nearest(
                        pool,
                        before,
                        prims,
                        indices,
                        rs,
                        back,
                        right_ptr,
                        bin_count,
                        ray,
                    );
                }
            } else {
                lemma_descent_finds_nearest(
                    pool,
                    before,
                    prims,
                    indices,
                    rs,
                    back,
                    right_ptr,
                    bin_count,
                    ray,
                );
                if tree_hit(pool, back_after, prims, indices, ray) is None {
                    lemma_descent_finds_nearest(
                        pool,
                        before,
                        prims,
                        indices,
                        ls,
                        front,
                        left_ptr,
                        bin_count,
                        ray,
                    );
                }
            }
        }
    }
}

} // verus!
