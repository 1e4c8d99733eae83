use vstd::prelude::*;
use crate::bvh::aabb::{lemma_area_bound, AABB};
use crate::bvh::bin::Bin;
use crate::bvh::bvh::BVH;
use crate::bvh::layout::{
    bins_after, final_order, fresh_child, holds_subtree, lemma_final_order_len, lemma_subtree_frame,
    lemma_subtree_slots_bound, subdivided, subtree_slots,
};
use crate::bvh::sah::{
    best_of_bins, binning_of, bins_after_attempt, centroid_bounds_upto, halves, left_bins,
    lemma_centroid_bounds_bounded, lemma_halves_proper, lemma_members_in_slices,
    lemma_partitioned_shape, lemma_range_merge, lemma_range_stats,
    lemma_same_entries_same_limit, lemma_split_is_proper, partitioned, range_bin,
    range_bounds_upto, range_count_upto, right_bins, slice_bins, split_choice, split_cost,
    Binning,
};
use crate::bvh::search::{depth_left, nearest_upto, searchable, tree_hit};
use crate::primitives::primitive::Primitive;
use crate::ray::Ray;
use crate::vector::Vec3;
use crate::EPSILON;

verus! {

/// One node of the hierarchy. It stands for the slots `first .. first + count`
/// of the index array; the two children of an inner node are the pool's
/// nodes `left` and `left + 1`.
#[derive(Clone, Copy, Debug, PartialEq, Eq, Structural)]
pub struct BVHNode {
    pub bounds: AABB,
    pub is_leaf: bool,
    pub left: usize,
    pub first: usize,
    pub count: usize,
    pub split_axis: usize,
}

impl BVHNode {
    /// The node that `default()` gives.
    pub open spec fn blank() -> BVHNode {
        BVHNode {
            bounds: AABB { bmin: Vec3 { x: 0, y: 0, z: 0 }, bmax: Vec3 { x: 0, y: 0, z: 0 } },
            is_leaf: false,
            left: 0,
            first: 0,
            count: 0,
            split_axis: 0,
        }
    }
}

/// The box around the first `n` of the primitives `offset + i`, for `i` as
/// `indices` lists them.
pub open spec fn listed_bounds_upto(
    prims: Seq<Box<dyn Primitive>>,
    indices: Seq<usize>,
    offset: int,
    n: nat,
) -> AABB
    decreases n,
{
    if n == 0 {
        AABB::empty()
    } else {
        listed_bounds_upto(prims, indices, offset, (n - 1) as nat).grown_by_bounds(
            prims[offset + indices[n - 1]].bounds(),
        )
    }
}

/// The box around some listed primitives holds the box of each of them.
pub proof fn lemma_listed_bounds_enclose(
    prims: Seq<Box<dyn Primitive>>,
    indices: Seq<usize>,
    offset: int,
    n: nat,
    k: int,
)
    requires
        0 <= k < n,
    ensures
        listed_bounds_upto(prims, indices, offset, n).encloses(
            prims[offset + indices[k]].bounds(),
        ),
    decreases n,
{
    if k < n - 1 {
        lemma_listed_bounds_enclose(prims, indices, offset, (n - 1) as nat, k);
    }
}

/// The indices with those from `first` on replaced by `t`.
pub open spec fn spliced(indices: Seq<usize>, first: int, t: Seq<usize>) -> Seq<usize> {
    indices.subrange(0, first) + t + indices.subrange(first + t.len(), indices.len() as int)
}

/// The box around all that two bins hold, with the sum of their counts.
fn merged_bin(acc: &Bin, bin: &Bin) -> (sum: Bin)
    requires
        acc.count + bin.count <= u32::MAX,
        bin.count == 0 ==> bin.bounds == AABB::empty(),
        bin.count > 0 ==> bin.bounds.is_bounded(),
    ensures
        sum.count == acc.count + bin.count,
        sum.bounds == acc.bounds.merged(bin.bounds),
{
    let mut sum = *acc;
    sum.count = acc.count + bin.count;
    if bin.count > 0 {
        sum.bounds.grow_by_bounds(&bin.bounds);
    }
    sum
}

/// Each range of slices holds what its count and its box say.
proof fn lemma_range_bin_sound(
    prims: Seq<Box<dyn Primitive>>,
    s: Seq<usize>,
    g: Binning,
    lo: int,
    hi: int,
)
    requires
        s.len() <= u32::MAX,
    ensures
        range_bin(prims, s, g, lo, hi).count == range_count_upto(prims, s, g, lo, hi, s.len()),
        range_bin(prims, s, g, lo, hi).count == 0 ==> range_bin(prims, s, g, lo, hi).bounds
            == AABB::empty(),
        range_bin(prims, s, g, lo, hi).count > 0 ==> range_bin(
            prims,
            s,
            g,
            lo,
            hi,
        ).bounds.is_bounded(),
{
    lemma_range_stats(prims, s, g, lo, hi, s.len());
}

/// Sums the bins of the slices from the first on: the left bin of a
/// boundary gets what all the slices up to it hold.
fn sum_bins_from_left(
    bvh: &mut BVH,
    Ghost(prims): Ghost<Seq<Box<dyn Primitive>>>,
    Ghost(s): Ghost<Seq<usize>>,
    Ghost(g): Ghost<Binning>,
)
    requires
        old(bvh).bins_fit(),
        g.bin_count == old(bvh).bin_count,
        s.len() <= u32::MAX,
        old(bvh).bins@ == slice_bins(prims, s, g),
    ensures
        final(bvh).same_shape(old(bvh)),
        final(bvh).pool == old(bvh).pool,
        final(bvh).pool_ptr == old(bvh).pool_ptr,
        final(bvh).triangle_indices == old(bvh).triangle_indices,
        final(bvh).bins == old(bvh).bins,
        final(bvh).bins_right == old(bvh).bins_right,
        final(bvh).bins_left@ == left_bins(prims, s, g),
{
    let bin_count: usize = bvh.bin_count;
    let first_bin: Bin = bvh.bins[0];
    bvh.bins_left.set(0, first_bin);
    for i in 1..(bin_count - 1)
        invariant
            bin_count == bvh.bin_count,
            g.bin_count == bin_count,
            s.len() <= u32::MAX,
            bvh.bins_fit(),
            bvh.same_shape(old(bvh)),
            bvh.pool == old(bvh).pool,
            bvh.pool_ptr == old(bvh).pool_ptr,
            bvh.triangle_indices == old(bvh).triangle_indices,
            bvh.bins == old(bvh).bins,
            bvh.bins_right == old(bvh).bins_right,
            bvh.bins@ == slice_bins(prims, s, g),
            forall|m: int|
                0 <= m < i ==> #[trigger] bvh.bins_left@[m] == range_bin(prims, s, g, 0, m),
    {
        proof {
            lemma_range_merge(prims, s, g, 0, i - 1, i as int, s.len());
            assert(bvh.bins@[i as int] == range_bin(prims, s, g, i as int, i as int));
            assert(bvh.bins_left@[i - 1] == range_bin(prims, s, g, 0, i - 1));
            lemma_range_bin_sound(prims, s, g, 0, i as int);
            lemma_range_bin_sound(prims, s, g, 0, i - 1);
            lemma_range_bin_sound(prims, s, g, i as int, i as int);
        }
        let bin: Bin = bvh.bins[i];
        let prev_bin_left: Bin = bvh.bins_left[i - 1];
        let bin_left: Bin = merged_bin(&prev_bin_left, &bin);
        bvh.bins_left.set(i, bin_left);
    }
    assert(bvh.bins_left@ =~= left_bins(prims, s, g));
}

/// Sums the bins of the slices from the last on: the right bin of a
/// boundary gets what all the slices after it hold.
fn sum_bins_from_right(
    bvh: &mut BVH,
    Ghost(prims): Ghost<Seq<Box<dyn Primitive>>>,
    Ghost(s): Ghost<Seq<usize>>,
    Ghost(g): Ghost<Binning>,
)
    requires
        old(bvh).bins_fit(),
        g.bin_count == old(bvh).bin_count,
        s.len() <= u32::MAX,
        old(bvh).bins@ == slice_bins(prims, s, g),
    ensures
        final(bvh).same_shape(old(bvh)),
        final(bvh).pool == old(bvh).pool,
        final(bvh).pool_ptr == old(bvh).pool_ptr,
        final(bvh).triangle_indices == old(bvh).triangle_indices,
        final(bvh).bins == old(bvh).bins,
        final(bvh).bins_left == old(bvh).bins_left,
        final(bvh).bins_right@ == right_bins(prims, s, g),
{
    let bin_count: usize = bvh.bin_count;
    let last_bin: Bin = bvh.bins[bin_count - 1];
    bvh.bins_right.set(bin_count - 2, last_bin);
    let mut i: usize = bin_count - 2;
    while i > 0
        invariant
            i <= bin_count - 2,
            bin_count == bvh.bin_count,
            g.bin_count == bin_count,
            s.len() <= u32::MAX,
            bvh.bins_fit(),
            bvh.same_shape(old(bvh)),
            bvh.pool == old(bvh).pool,
            bvh.pool_ptr == old(bvh).pool_ptr,
            bvh.triangle_indices == old(bvh).triangle_indices,
            bvh.bins == old(bvh).bins,
            bvh.bins_left == old(bvh).bins_left,
            bvh.bins@ == slice_bins(prims, s, g),
            forall|m: int|
                i <= m < bin_count - 1 ==> #[trigger] bvh.bins_right@[m] == range_bin(
                    prims,
                    s,
                    g,
                    m + 1,
                    bin_count - 1,
                ),
        decreases i,
    {
        i -= 1;
        proof {
            lemma_range_merge(prims, s, g, i + 1, i + 1, bin_count - 1, s.len());
            assert(bvh.bins@[i + 1] == range_bin(prims, s, g, i + 1, i + 1));
            assert(bvh.bins_right@[i + 1] == range_bin(prims, s, g, i + 2, bin_count - 1));
            lemma_range_bin_sound(prims, s, g, i + 1, bin_count - 1);
            lemma_range_bin_sound(prims, s, g, i + 2, bin_count - 1);
            lemma_range_bin_sound(prims, s, g, i + 1, i + 1);
        }
        let bin: Bin = bvh.bins[i + 1];
        let prev_bin_right: Bin = bvh.bins_right[i + 1];
        let bin_right: Bin = merged_bin(&prev_bin_right, &bin);
        bvh.bins_right.set(i, bin_right);
    }
    assert(bvh.bins_right@ =~= right_bins(prims, s, g));
}

/// What a split between the two bins costs.
fn cost_of(left: &Bin, right: &Bin) -> (cost: i128)
    ensures
        cost == split_cost(*left, *right),
{
    let left_area: i128 = left.bounds.surface_area();
    let right_area: i128 = right.bounds.surface_area();
    proof {
        lemma_area_bound(left.bounds);
        lemma_area_bound(right.bounds);
        lemma_cost_bound(left_area as int, left.count as int);
        lemma_cost_bound(right_area as int, right.count as int);
    }
    left_area * (left.count as i128) + right_area * (right.count as i128)
}

/// A surface area times a count is far from the limits of an `i128`.
pub proof fn lemma_cost_bound(area: int, count: int)
    requires
        -6 * 0xFFFF_FFFE_0000_0001 <= area <= 6 * 0xFFFF_FFFE_0000_0001,
        0 <= count <= 0xFFFF_FFFF,
    ensures
        -6 * 0xFFFF_FFFE_0000_0001 * 0xFFFF_FFFF <= area * count <= 6 * 0xFFFF_FFFE_0000_0001
            * 0xFFFF_FFFF,
{
    assert(-6 * 0xFFFF_FFFE_0000_0001 * 0xFFFF_FFFF <= area * count <= 6 * 0xFFFF_FFFE_0000_0001
        * 0xFFFF_FFFF) by (nonlinear_arith)
        requires
            -6 * 0xFFFF_FFFE_0000_0001 <= area <= 6 * 0xFFFF_FFFE_0000_0001,
            0 <= count <= 0xFFFF_FFFF,
    ;
}

impl BVHNode {
    /// The indices of the node's primitives, as `indices` holds them.
    pub open spec fn span(self, indices: Seq<usize>) -> Seq<usize> {
        indices.subrange(self.first as int, self.first + self.count)
    }

    /// The node's range lies in the index array and names primitives that
    /// are there.
    pub open spec fn in_range(self, indices: Seq<usize>, prims: Seq<Box<dyn Primitive>>) -> bool {
        &&& self.first + self.count <= indices.len()
        &&& forall|k: int|
            self.first <= k < self.first + self.count ==> #[trigger] indices[k] < prims.len()
    }

    /// Subdivides the node as far as it goes. A node of two primitives or
    /// fewer becomes a leaf. Any other takes the pool's next two nodes for
    /// its children and seeks a split: where none is chosen it becomes a
    /// leaf, else its children are subdivided in turn, the front one first.
    #[verifier::rlimit(40)]
    pub fn subdivide_node(&mut self, bvh: &mut BVH, primitives: &Vec<Box<dyn Primitive>>)
        requires
            old(bvh).bins_fit(),
            old(self).in_range(old(bvh).triangle_indices@, primitives@),
            old(self).count <= u32::MAX,
            old(self).count > 2 ==> old(bvh).pool_ptr + 2 * (old(self).count - 1)
                <= old(bvh).pool.len(),
        ensures
            final(bvh).same_shape(old(bvh)),
            ({
                let s = old(self).span(old(bvh).triangle_indices@);
                let bounds = old(self).bounds;
                let ptr = old(bvh).pool_ptr as int;
                let bin_count = old(bvh).bin_count;
                &&& *final(self) == subdivided(primitives@, *old(self), s, ptr, bin_count)
                &&& final(bvh).pool_ptr == ptr + subtree_slots(primitives@, s, bounds, bin_count)
                &&& final(bvh).triangle_indices@ == spliced(
                    old(bvh).triangle_indices@,
                    old(self).first as int,
                    final_order(primitives@, s, bounds, bin_count),
                )
                &&& final(bvh).scratch() == bins_after(
                    primitives@,
                    s,
                    bounds,
                    bin_count,
                    old(bvh).scratch(),
                )
                &&& holds_subtree(
                    final(bvh).pool@,
                    old(bvh).pool@,
                    primitives@,
                    s,
                    old(self).first as int,
                    bounds,
                    ptr,
                    bin_count,
                )
                &&& forall|k: int|
                    0 <= k < final(bvh).pool.len() && !(ptr <= k < final(bvh).pool_ptr)
                        ==> final(bvh).pool@[k] == old(bvh).pool@[k]
            }),
        decreases old(self).count,
    {
        let ghost prims = primitives@;
        let ghost s = self.span(bvh.triangle_indices@);
        let ghost indices0 = bvh.triangle_indices@;
        let ghost pool0 = bvh.pool@;
        let ghost ptr = bvh.pool_ptr as int;
        let ghost bin_count = bvh.bin_count;
        let ghost bounds = self.bounds;
        if self.count <= 2 {
            self.is_leaf = true;
            assert(bvh.triangle_indices@ =~= spliced(indices0, self.first as int, s));
            return ;
        }
        self.is_leaf = true;
        self.left = bvh.pool_ptr;
        bvh.pool_ptr += 2;

        if !self.partition_triangles(bvh, primitives) {
            assert(bvh.triangle_indices@ =~= spliced(indices0, self.first as int, s));
            return ;
        }
        let ghost b = split_choice(prims, s, bounds, bin_count).unwrap();
        let ghost ls = halves(prims, s, bin_count, b).0.0;
        let ghost lb = halves(prims, s, bin_count, b).0.1;
        let ghost rs = halves(prims, s, bin_count, b).1.0;
        let ghost rb = halves(prims, s, bin_count, b).1.1;
        let ghost indices1 = bvh.triangle_indices@;
        let ghost pool1 = bvh.pool@;
        proof {
            lemma_halves_proper(prims, s, bounds, bin_count);
            assert forall|k: int| 0 <= k < s.len() implies #[trigger] s[k] < prims.len() by {
                assert(s[k] == indices0[self.first + k]);
            }
            lemma_same_entries_same_limit(ls + rs, s, prims.len() as int);
            assert forall|k: int|
                self.first <= k < self.first + self.count implies #[trigger] indices1[k]
                < prims.len() by {
                assert(indices1[k] == (ls + rs)[k - self.first]);
            }
        }

        let mut left: BVHNode = bvh.pool[self.left];
        assert(left.span(indices1) =~= ls);
        left.subdivide_node(bvh, primitives);
        let ghost pool2 = bvh.pool@;
        bvh.pool.set(self.left, left);
        let ghost indices2 = bvh.triangle_indices@;
        let ghost left_ptr = ptr + 2;
        let ghost right_ptr = bvh.pool_ptr as int;
        proof {
            lemma_subtree_slots_bound(prims, ls, lb, bin_count);
            lemma_final_order_len(prims, ls, lb, bin_count);
            assert forall|k: int|
                self.first + ls.len() <= k < self.first + self.count implies #[trigger] indices2[k]
                == indices1[k] by {}
        }

        let ghost pool2b = bvh.pool@;
        let mut right: BVHNode = bvh.pool[self.left + 1];
        assert(right.span(indices2) =~= rs);
        right.subdivide_node(bvh, primitives);
        let ghost pool3 = bvh.pool@;
        bvh.pool.set(self.left + 1, right);

        self.is_leaf = false;
        proof {
            lemma_final_order_len(prims, rs, rb, bin_count);
            assert(bvh.triangle_indices@ =~= spliced(
                indices0,
                self.first as int,
                final_order(prims, ls, lb, bin_count) + final_order(prims, rs, rb, bin_count),
            ));
            lemma_subtree_frame(
                pool2,
                pool1,
                bvh.pool@,
                pool0,
                prims,
                ls,
                self.first as int,
                lb,
                left_ptr,
                bin_count,
            );
            lemma_subtree_frame(
                pool3,
                pool2b,
                bvh.pool@,
                pool0,
                prims,
                rs,
                self.first + ls.len(),
                rb,
                right_ptr,
                bin_count,
            );
        }
    }

    /// Rearranges the node's indices for a split at the boundary `bin_index`
    /// and makes the two children: each index whose primitive falls in a
    /// slice up to the boundary changes places with the first one that was
    /// not sent to the front yet. The children get the two halves of the
    /// range and the boxes that the bins beside the boundary hold.
    #[verifier::loop_isolation(false)]
    pub fn update_triangles_nodes(
        &self,
        bvh: &mut BVH,
        primitives: &Vec<Box<dyn Primitive>>,
        bin_index: usize,
        binning: Binning,
    )
        requires
            self.in_range(old(bvh).triangle_indices@, primitives@),
            self.left + 1 < old(bvh).pool.len(),
            bin_index < old(bvh).bins_left.len(),
            bin_index < old(bvh).bins_right.len(),
            binning.axis < 3,
            binning.cbmin < binning.cbmax,
            forall|k: int|
                self.first <= k < self.first + self.count ==> binning.cbmin <= primitives@[(
                #[trigger] old(bvh).triangle_indices@[k]) as int].centroid().axis(
                    binning.axis as int,
                ) <= binning.cbmax,
        ensures
            final(bvh).same_shape(old(bvh)),
            final(bvh).pool_ptr == old(bvh).pool_ptr,
            final(bvh).bins == old(bvh).bins,
            final(bvh).bins_left == old(bvh).bins_left,
            final(bvh).bins_right == old(bvh).bins_right,
            ({
                let s = self.span(old(bvh).triangle_indices@);
                let (t, j) = partitioned(primitives@, binning, bin_index as int, s, s.len());
                &&& final(bvh).triangle_indices@ == spliced(
                    old(bvh).triangle_indices@,
                    self.first as int,
                    t,
                )
                &&& final(bvh).pool@ == old(bvh).pool@.update(
                    self.left as int,
                    fresh_child(old(bvh).bins_left[bin_index as int].bounds, self.first as int, j),
                ).update(
                    self.left + 1,
                    fresh_child(
                        old(bvh).bins_right[bin_index as int].bounds,
                        self.first + j,
                        self.count - j,
                    ),
                )
            }),
    {
        let ghost s = self.span(bvh.triangle_indices@);
        let ghost prims = primitives@;
        let mut j: usize = self.first;
        let mut i: usize = self.first;
        while i < self.first + self.count
            invariant
                self.first <= j <= i <= self.first + self.count,
                bvh.same_shape(old(bvh)),
                bvh.pool == old(bvh).pool,
                bvh.pool_ptr == old(bvh).pool_ptr,
                bvh.bins == old(bvh).bins,
                bvh.bins_left == old(bvh).bins_left,
                bvh.bins_right == old(bvh).bins_right,
                j - self.first == partitioned(
                    prims,
                    binning,
                    bin_index as int,
                    s,
                    (i - self.first) as nat,
                ).1,
                forall|k: int|
                    self.first <= k < self.first + self.count ==> #[trigger] bvh.triangle_indices@[k]
                        == partitioned(
                        prims,
                        binning,
                        bin_index as int,
                        s,
                        (i - self.first) as nat,
                    ).0[k - self.first],
                forall|k: int|
                    0 <= k < self.first || self.first + self.count <= k
                        < bvh.triangle_indices.len() ==> bvh.triangle_indices@[k] == old(
                        bvh,
                    ).triangle_indices@[k],
            decreases self.first + self.count - i,
        {
            proof {
                lemma_partitioned_shape(
                    prims,
                    binning,
                    bin_index as int,
                    s,
                    (i - self.first) as nat,
                );
                assert(bvh.triangle_indices@[i as int] == s[i - self.first]);
                assert(s[i - self.first] == old(bvh).triangle_indices@[i as int]);
            }
            let index: usize = bvh.triangle_indices[i];
            let primitive = &primitives[index];
            let ci: i32 = primitive.get_centroid().get(binning.axis);
            let bin_id: usize = binning.bin_id(ci);
            if bin_id <= bin_index {
                let tmp: usize = bvh.triangle_indices[i];
                let front: usize = bvh.triangle_indices[j];
                bvh.triangle_indices.set(i, front);
                bvh.triangle_indices.set(j, tmp);
                j += 1;
            }
            i += 1;
        }
        let left_node_count: usize = j - self.first;
        let left_bounds: AABB = bvh.bins_left[bin_index].bounds;
        let right_bounds: AABB = bvh.bins_right[bin_index].bounds;
        bvh.pool.set(
            self.left,
            BVHNode {
                bounds: left_bounds,
                is_leaf: false,
                left: 0,
                first: self.first,
                count: left_node_count,
                split_axis: 0,
            },
        );
        bvh.pool.set(
            self.left + 1,
            BVHNode {
                bounds: right_bounds,
                is_leaf: false,
                left: 0,
                first: j,
                count: self.count - left_node_count,
                split_axis: 0,
            },
        );
        proof {
            let (t, jj) = partitioned(prims, binning, bin_index as int, s, s.len());
            lemma_partitioned_shape(prims, binning, bin_index as int, s, s.len());
            assert(bvh.triangle_indices@ =~= spliced(
                old(bvh).triangle_indices@,
                self.first as int,
                t,
            ));
        }
    }

    /// Sets the node's box to the box around the primitives `first + i`, for
    /// every `i` that `triangle_indices` lists.
    pub fn update_bounds(
        &mut self,
        primitives: &Vec<Box<dyn Primitive>>,
        triangle_indices: &Vec<usize>,
    )
        requires
            forall|k: int|
                0 <= k < triangle_indices.len() ==> old(self).first + #[trigger] triangle_indices[k]
                    < primitives.len(),
        ensures
            *final(self) == (BVHNode {
                bounds: listed_bounds_upto(
                    primitives@,
                    triangle_indices@,
                    old(self).first as int,
                    triangle_indices.len() as nat,
                ),
                ..*old(self)
            }),
    {
        self.bounds = AABB::new();
        let first: usize = self.first;
        for k in 0..triangle_indices.len()
            invariant
                first == old(self).first,
                *self == (BVHNode {
                    bounds: listed_bounds_upto(
                        primitives@,
                        triangle_indices@,
                        first as int,
                        k as nat,
                    ),
                    ..*old(self)
                }),
                forall|k: int|
                    0 <= k < triangle_indices.len() ==> first + #[trigger] triangle_indices[k]
                        < primitives.len(),
        {
            let triangle = &primitives[first + triangle_indices[k]];
            self.bounds.grow_by_bounds(&triangle.get_bounds());
        }
    }

    /// Seeks a split of the node and, where one is chosen, carries it out.
    ///
    /// The node's axis becomes the longest axis of the box around its
    /// centroids. Where the centroids spread by no more than `EPSILON`
    /// along it, nothing else happens. Else the primitives are counted into
    /// the bins, the bins are summed from both ends, and the best boundary
    /// is sought; where there is one, the indices are rearranged and the
    /// children made.
    #[verifier::loop_isolation(false)]
    pub fn partition_triangles(
        &mut self,
        bvh: &mut BVH,
        primitives: &Vec<Box<dyn Primitive>>,
    ) -> (split: bool)
        requires
            old(bvh).bins_fit(),
            old(self).in_range(old(bvh).triangle_indices@, primitives@),
            old(self).count <= u32::MAX,
            old(self).left + 1 < old(bvh).pool.len(),
        ensures
            final(bvh).same_shape(old(bvh)),
            final(bvh).pool_ptr == old(bvh).pool_ptr,
            ({
                let s = old(self).span(old(bvh).triangle_indices@);
                let g = binning_of(primitives@, s, old(bvh).bin_count);
                let choice = split_choice(primitives@, s, old(self).bounds, old(bvh).bin_count);
                &&& *final(self) == (BVHNode { split_axis: g.axis, ..*old(self) })
                &&& split == (choice is Some)
                &&& final(bvh).scratch() == bins_after_attempt(
                    primitives@,
                    s,
                    old(bvh).bin_count,
                )
                &&& choice is None ==> {
                    &&& final(bvh).triangle_indices@ == old(bvh).triangle_indices@
                    &&& final(bvh).pool@ == old(bvh).pool@
                }
                &&& choice matches Some(b) ==> {
                    let ((ls, lb), (rs, rb)) = halves(primitives@, s, old(bvh).bin_count, b);
                    &&& final(bvh).triangle_indices@ == spliced(
                        old(bvh).triangle_indices@,
                        old(self).first as int,
                        ls + rs,
                    )
                    &&& final(bvh).pool@ == old(bvh).pool@.update(
                        old(self).left as int,
                        fresh_child(lb, old(self).first as int, ls.len() as int),
                    ).update(
                        old(self).left + 1,
                        fresh_child(rb, old(self).first + ls.len(), rs.len() as int),
                    )
                }
            }),
    {
        let ghost prims = primitives@;
        let ghost s = self.span(bvh.triangle_indices@);
        let bin_count: usize = bvh.bin_count;
        proof {
            reveal(split_choice);
            reveal(halves);
        }

        let centroid_bounding_box: AABB = self.centroid_bounds_of(bvh, primitives);
        let l_axis: usize = centroid_bounding_box.longest_axis();
        self.split_axis = l_axis;

        bvh.reset_bins();

        let cbmin: i32 = centroid_bounding_box.bmin.get(l_axis);
        let cbmax: i32 = centroid_bounding_box.bmax.get(l_axis);
        let binning = Binning { axis: l_axis, cbmin, cbmax, bin_count };

        let extent: i64 = cbmax as i64 - cbmin as i64;
        if -EPSILON <= extent && extent <= EPSILON {
            return false;
        }
        proof {
            if self.count > 0 {
                lemma_centroid_bounds_bounded(prims, s, s.len());
            }
        }
        self.fill_bins(bvh, primitives, binning);
        sum_bins_from_left(bvh, Ghost(prims), Ghost(s), Ghost(binning));
        sum_bins_from_right(bvh, Ghost(prims), Ghost(s), Ghost(binning));

        match self.find_best_split(bvh) {
            None => {
                return false;
            },
            Some(best_bin_index) => {
                proof {
                    lemma_split_is_proper(prims, s, self.bounds, bin_count);
                    assert forall|k: int|
                        self.first <= k < self.first + self.count implies binning.cbmin <= prims[(
                    #[trigger] bvh.triangle_indices@[k]) as int].centroid().axis(
                        binning.axis as int,
                    ) <= binning.cbmax by {
                        lemma_members_in_slices(prims, s, bin_count, k - self.first);
                        assert(s[k - self.first] == bvh.triangle_indices@[k]);
                    }
                    lemma_partitioned_shape(prims, binning, best_bin_index as int, s, s.len());
                    let (t, j) = partitioned(prims, binning, best_bin_index as int, s, s.len());
                    assert(t =~= t.subrange(0, j) + t.subrange(j, s.len() as int));
                }
                self.update_triangles_nodes(bvh, primitives, best_bin_index, binning);
                return true;
            },
        }
    }

    /// The box around the centroids of the node's primitives.
    fn centroid_bounds_of(&self, bvh: &BVH, primitives: &Vec<Box<dyn Primitive>>) -> (cb: AABB)
        requires
            self.in_range(bvh.triangle_indices@, primitives@),
        ensures
            cb == centroid_bounds_upto(
                primitives@,
                self.span(bvh.triangle_indices@),
                self.count as nat,
            ),
    {
        let ghost s = self.span(bvh.triangle_indices@);
        let first: usize = self.first;
        let count: usize = self.count;
        let mut cb = AABB::new();
        assert(first + count <= bvh.triangle_indices.len());
        for i in first..(first + count)
            invariant
                first == self.first,
                count == self.count,
                s == self.span(bvh.triangle_indices@),
                self.in_range(bvh.triangle_indices@, primitives@),
                cb == centroid_bounds_upto(primitives@, s, (i - first) as nat),
        {
            assert(s[i - first] == bvh.triangle_indices@[i as int]);
            let primitive = &primitives[bvh.triangle_indices[i]];
            cb.grow_by_point(&primitive.get_centroid());
        }
        cb
    }

    /// Counts each primitive of the node into the bin of its slice, and
    /// grows that bin's box by the primitive's box.
    fn fill_bins(&self, bvh: &mut BVH, primitives: &Vec<Box<dyn Primitive>>, binning: Binning)
        requires
            old(bvh).bins_fit(),
            self.in_range(old(bvh).triangle_indices@, primitives@),
            self.count <= u32::MAX,
            binning == binning_of(
                primitives@,
                self.span(old(bvh).triangle_indices@),
                old(bvh).bin_count,
            ),
            self.count > 0 ==> binning.cbmin < binning.cbmax,
            old(bvh).bins@ == Seq::new(old(bvh).bin_count as nat, |i: int| Bin::empty()),
        ensures
            final(bvh).same_shape(old(bvh)),
            final(bvh).pool == old(bvh).pool,
            final(bvh).pool_ptr == old(bvh).pool_ptr,
            final(bvh).triangle_indices == old(bvh).triangle_indices,
            final(bvh).bins_left == old(bvh).bins_left,
            final(bvh).bins_right == old(bvh).bins_right,
            final(bvh).bins@ == slice_bins(
                primitives@,
                self.span(old(bvh).triangle_indices@),
                binning,
            ),
    {
        let ghost prims = primitives@;
        let ghost s = self.span(bvh.triangle_indices@);
        let first: usize = self.first;
        let count: usize = self.count;
        let bin_count: usize = bvh.bin_count;
        assert(first + count <= bvh.triangle_indices.len());
        for i in first..(first + count)
            invariant
                first == self.first,
                count == self.count,
                bin_count == bvh.bin_count,
                prims == primitives@,
                s == self.span(bvh.triangle_indices@),
                self.in_range(bvh.triangle_indices@, primitives@),
                binning == binning_of(prims, s, bin_count),
                count <= u32::MAX,
                count > 0 ==> binning.cbmin < binning.cbmax,
                bvh.same_shape(old(bvh)),
                bvh.bins_fit(),
                bvh.pool == old(bvh).pool,
                bvh.pool_ptr == old(bvh).pool_ptr,
                bvh.triangle_indices == old(bvh).triangle_indices,
                bvh.bins_left == old(bvh).bins_left,
                bvh.bins_right == old(bvh).bins_right,
                forall|b: int|
                    0 <= b < bin_count ==> #[trigger] bvh.bins@[b] == (Bin {
                        count: range_count_upto(prims, s, binning, b, b, (i - first) as nat) as u32,
                        bounds: range_bounds_upto(prims, s, binning, b, b, (i - first) as nat),
                    }),
        {
            proof {
                lemma_members_in_slices(prims, s, bin_count, i - first);
                assert(s[i - first] == bvh.triangle_indices@[i as int]);
            }
            let primitive = &primitives[bvh.triangle_indices[i]];
            let ci: i32 = primitive.get_centroid().get(binning.axis);
            let bin_id: usize = binning.bin_id(ci);
            proof {
                lemma_range_stats(
                    prims,
                    s,
                    binning,
                    bin_id as int,
                    bin_id as int,
                    (i - first) as nat,
                );
                lemma_range_stats(
                    prims,
                    s,
                    binning,
                    bin_id as int,
                    bin_id as int,
                    (i - first + 1) as nat,
                );
            }
            let mut bin: Bin = bvh.bins[bin_id];
            bin.count += 1;
            bin.bounds.grow_by_bounds(&primitive.get_bounds());
            bvh.bins.set(bin_id, bin);
        }
        assert(bvh.bins@ =~= slice_bins(prims, s, binning));
    }

    /// The nearest hit of the ray among the node's primitives that lies
    /// farther than `EPSILON`, with the primitive's index.
    pub fn intersect_triangles(
        &self,
        ray: &Ray,
        primitives: &Vec<Box<dyn Primitive>>,
        triangle_indices: &Vec<usize>,
    ) -> (nearest: Option<(usize, i64)>)
        requires
            self.in_range(triangle_indices@, primitives@),
        ensures
            nearest == nearest_upto(
                primitives@,
                triangle_indices@,
                self.first as int,
                self.count as nat,
                *ray,
            ),
    {
        let mut nearest_intersection: Option<(usize, i64)> = None;
        let first: usize = self.first;
        let count: usize = self.count;
        assert(first + count <= triangle_indices.len());
        for i in 0..count
            invariant
                first == self.first,
                count == self.count,
                first + count <= triangle_indices.len(),
                self.in_range(triangle_indices@, primitives@),
                nearest_intersection == nearest_upto(
                    primitives@,
                    triangle_indices@,
                    first as int,
                    i as nat,
                    *ray,
                ),
        {
            let primitive_index: usize = triangle_indices[first + i];
            let primitive = &primitives[primitive_index];
            match primitive.intersect(ray) {
                None => {},
                Some(distance) => {
                    if let Some((_, min_distance)) = nearest_intersection {
                        if distance < min_distance && distance > EPSILON {
                            nearest_intersection = Some((primitive_index, distance));
                        }
                    } else if distance > EPSILON {
                        nearest_intersection = Some((primitive_index, distance));
                    }
                },
            }
        }
        nearest_intersection
    }

    /// Searches the node and all below it for a hit of the ray.
    pub fn traverse(&self, ray: &Ray, bvh: &BVH, primitives: &Vec<Box<dyn Primitive>>) -> (hit:
        Option<(usize, i64)>)
        requires
            searchable(bvh.pool@, *self, bvh.triangle_indices@, primitives@),
        ensures
            hit == tree_hit(bvh.pool@, *self, primitives@, bvh.triangle_indices@, *ray),
        decreases depth_left(bvh.pool@, *self),
    {
        if !ray.intersect_bounds(&self.bounds) {
            return None;
        }
        if self.is_leaf {
            return self.intersect_triangles(ray, primitives, &bvh.triangle_indices);
        }
        assert(self.left + 1 < bvh.pool.len());
        let left = &bvh.pool[self.left];
        let right = &bvh.pool[self.left + 1];

        let ray_dir_axis: i32 = ray.direction.get(self.split_axis);

        if ray_dir_axis > 0 {
            match left.traverse(ray, bvh, primitives) {
                Some(hit) => Some(hit),
                None => right.traverse(ray, bvh, primitives),
            }
        } else {
            match right.traverse(ray, bvh, primitives) {
                Some(hit) => Some(hit),
                None => left.traverse(ray, bvh, primitives),
            }
        }
    }

    /// The boundary at which this node is best split, as the bins of `bvh`
    /// stand: the cheapest one that leaves neither side empty and costs less
    /// than the node whole, the first of them where several cost the same.
    pub fn find_best_split(&self, bvh: &BVH) -> (best: Option<usize>)
        requires
            bvh.bin_count >= 1,
            bvh.bins_left.len() == bvh.bin_count - 1,
            bvh.bins_right.len() == bvh.bin_count - 1,
            self.count <= u32::MAX,
        ensures
            best == best_of_bins(
                bvh.bins_left@,
                bvh.bins_right@,
                self.bounds.area() * self.count,
                (bvh.bin_count - 1) as nat,
            ),
    {
        let mut best_bin_index: Option<usize> = None;
        let mut best_cost: i128 = i128::MAX;
        let area: i128 = self.bounds.surface_area();
        proof {
            lemma_area_bound(self.bounds);
            lemma_cost_bound(area as int, self.count as int);
        }
        let cur_cost: i128 = area * (self.count as i128);
        for i in 0..(bvh.bin_count - 1)
            invariant
                bvh.bins_left.len() == bvh.bin_count - 1,
                bvh.bins_right.len() == bvh.bin_count - 1,
                cur_cost == self.bounds.area() * self.count,
                best_bin_index == best_of_bins(
                    bvh.bins_left@,
                    bvh.bins_right@,
                    cur_cost as int,
                    i as nat,
                ),
                best_bin_index matches Some(b) ==> b < i && best_cost == split_cost(
                    bvh.bins_left[b as int],
                    bvh.bins_right[b as int],
                ),
        {
            let bin_left = &bvh.bins_left[i];
            let bin_right = &bvh.bins_right[i];
            let cost: i128 = cost_of(bin_left, bin_right);
            if cost < cur_cost && (bin_left.count > 0 && bin_right.count > 0) && (
            best_bin_index.is_none() || cost < best_cost) {
                best_bin_index = Some(i);
                best_cost = cost;
            }
        }
        best_bin_index
    }
}

impl Default for BVHNode {
    fn default() -> (node: BVHNode)
        ensures
            node == BVHNode::blank(),
    {
        BVHNode {
            bounds: AABB::default(),
            is_leaf: false,
            left: 0,
            first: 0,
            count: 0,
            split_axis: 0,
        }
    }
}

} // verus!
