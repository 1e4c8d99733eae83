use vstd::prelude::*;
use crate::bvh::bin::Bin;
use crate::bvh::bvh_node::{lemma_listed_bounds_enclose, listed_bounds_upto, BVHNode};
use crate::bvh::layout::{
    bins_after, final_order, holds_subtree, lemma_clustered_node_stays_whole,
    lemma_descent_finds_nearest, lemma_descent_loses_no_hit, lemma_final_order_len,
    lemma_subtree_slots_bound, subdivided, subtree_slots,
};
use crate::bvh::search::{counts, distance_of, front_to_back, nearest_upto, searchable, tree_hit};
use crate::primitives::primitive::Primitive;
use crate::ray::Ray;

verus! {

/// Into how many slices a node is cut while a split is sought.
pub const BIN_COUNT: usize = 4;

/// A bounding-volume hierarchy over `triangle_count` primitives: the pool of
/// its nodes, of which node 0 is the root and `pool_ptr` the next free one;
/// the indices of the primitives, in the order of the leaves; and the bins
/// that every search for a split uses anew.
pub struct BVH {
    pub bin_count: usize,
    pub bins: Vec<Bin>,
    pub bins_left: Vec<Bin>,
    pub bins_right: Vec<Bin>,
    pub pool: Vec<BVHNode>,
    pub pool_ptr: usize,
    pub triangle_indices: Vec<usize>,
    pub triangle_count: usize,
}

impl BVH {
    /// There is a bin for each slice, and one on each side for each boundary
    /// between two slices.
    pub open spec fn bins_fit(&self) -> bool {
        &&& self.bin_count >= 2
        &&& self.bins.len() == self.bin_count
        &&& self.bins_left.len() == self.bin_count - 1
        &&& self.bins_right.len() == self.bin_count - 1
    }

    /// The three arrays of bins.
    pub open spec fn scratch(&self) -> (Seq<Bin>, Seq<Bin>, Seq<Bin>) {
        (self.bins@, self.bins_left@, self.bins_right@)
    }

    /// Whatever a build does, it keeps the sizes of the hierarchy.
    pub open spec fn same_shape(&self, other: &BVH) -> bool {
        &&& self.bin_count == other.bin_count
        &&& self.bins.len() == other.bins.len()
        &&& self.bins_left.len() == other.bins_left.len()
        &&& self.bins_right.len() == other.bins_right.len()
        &&& self.pool.len() == other.pool.len()
        &&& self.triangle_indices.len() == other.triangle_indices.len()
        &&& self.triangle_count == other.triangle_count
    }

    /// A hierarchy for the primitives `triangle_index .. triangle_index +
    /// triangle_count`, with nothing built yet.
    pub fn new(triangle_index: usize, triangle_count: usize) -> (bvh: BVH)
        requires
            triangle_count >= 1,
            2 * triangle_count <= usize::MAX,
            triangle_index + triangle_count <= usize::MAX,
        ensures
            bvh.bin_count == BIN_COUNT,
            bvh.bins@ == Seq::new(BIN_COUNT as nat, |i: int| Bin::blank()),
            bvh.bins_left@ == Seq::new((BIN_COUNT - 1) as nat, |i: int| Bin::blank()),
            bvh.bins_right@ == Seq::new((BIN_COUNT - 1) as nat, |i: int| Bin::blank()),
            bvh.pool@ == Seq::new((2 * triangle_count - 1) as nat, |i: int| BVHNode::blank()),
            bvh.pool_ptr == 1,
            bvh.triangle_indices@ == Seq::new(
                triangle_count as nat,
                |i: int| (triangle_index + i) as usize,
            ),
            bvh.triangle_count == triangle_count,
    {
        let bin_count: usize = BIN_COUNT;
        let pool_size: usize = triangle_count * 2 - 1;
        let mut pool: Vec<BVHNode> = Vec::new();
        while pool.len() < pool_size
            invariant
                pool.len() <= pool_size,
                forall|i: int| 0 <= i < pool.len() ==> pool[i] == BVHNode::blank(),
            decreases pool_size - pool.len(),
        {
            pool.push(BVHNode::default());
        }
        let mut triangle_indices: Vec<usize> = Vec::new();
        while triangle_indices.len() < triangle_count
            invariant
                triangle_indices.len() <= triangle_count,
                triangle_index + triangle_count <= usize::MAX,
                forall|i: int|
                    0 <= i < triangle_indices.len() ==> triangle_indices[i] == triangle_index + i,
            decreases triangle_count - triangle_indices.len(),
        {
            triangle_indices.push(triangle_index + triangle_indices.len());
        }
        let mut bins: Vec<Bin> = Vec::new();
        while bins.len() < bin_count
            invariant
                bins.len() <= bin_count,
                forall|i: int| 0 <= i < bins.len() ==> bins[i] == Bin::blank(),
            decreases bin_count - bins.len(),
        {
            bins.push(Bin::default());
        }
        let mut bins_left: Vec<Bin> = Vec::new();
        let mut bins_right: Vec<Bin> = Vec::new();
        while bins_left.len() < bin_count - 1
            invariant
                bin_count >= 1,
                bins_left.len() <= bin_count - 1,
                bins_right.len() == bins_left.len(),
                forall|i: int| 0 <= i < bins_left.len() ==> bins_left[i] == Bin::blank(),
                forall|i: int| 0 <= i < bins_right.len() ==> bins_right[i] == Bin::blank(),
            decreases bin_count - 1 - bins_left.len(),
        {
            bins_left.push(Bin::default());
            bins_right.push(Bin::default());
        }
        let bvh = BVH {
            bin_count,
            bins,
            bins_left,
            bins_right,
            pool,
            pool_ptr: 1,
            triangle_indices,
            triangle_count,
        };
        assert(bvh.bins@ =~= Seq::new(BIN_COUNT as nat, |i: int| Bin::blank()));
        assert(bvh.bins_left@ =~= Seq::new((BIN_COUNT - 1) as nat, |i: int| Bin::blank()));
        assert(bvh.bins_right@ =~= Seq::new((BIN_COUNT - 1) as nat, |i: int| Bin::blank()));
        assert(bvh.pool@ =~= Seq::new(
            (2 * triangle_count - 1) as nat,
            |i: int| BVHNode::blank(),
        ));
        assert(bvh.triangle_indices@ =~= Seq::new(
            triangle_count as nat,
            |i: int| (triangle_index + i) as usize,
        ));
        bvh
    }

    /// The box that a build gives the root: the box around every primitive
    /// that the index array lists.
    pub open spec fn root_bounds(&self, prims: Seq<Box<dyn Primitive>>) -> crate::bvh::aabb::AABB {
        listed_bounds_upto(prims, self.triangle_indices@, 0, self.triangle_indices.len() as nat)
    }

    /// The hierarchy can be built over `prims`: its bins fit, its index array
    /// lists `triangle_count` primitives that are there, and the pool has
    /// room after `pool_ptr` for all the nodes that a build can take.
    pub open spec fn ready(&self, prims: Seq<Box<dyn Primitive>>) -> bool {
        &&& self.bins_fit()
        &&& self.triangle_indices.len() == self.triangle_count
        &&& self.triangle_count <= u32::MAX
        &&& forall|k: int|
            0 <= k < self.triangle_indices.len() ==> #[trigger] self.triangle_indices@[k]
                < prims.len()
        &&& 1 <= self.pool_ptr <= self.pool.len()
        &&& self.triangle_count > 2 ==> self.pool_ptr + 2 * (self.triangle_count - 1)
            <= self.pool.len()
    }

    /// The root as a build sets it up, before it is subdivided: it stands
    /// for the whole index array and has the box around its primitives.
    pub open spec fn root_before(&self, prims: Seq<Box<dyn Primitive>>) -> BVHNode {
        BVHNode {
            bounds: self.root_bounds(prims),
            first: 0,
            count: self.triangle_count,
            ..self.pool@[0]
        }
    }

    /// This hierarchy is what a build over `prims` makes of `before`: node 0
    /// is the root, subdivided; the pool holds all below it, from where
    /// `pool_ptr` stood; the index array holds the final order of the
    /// indices; the bins hold what the last search for a split left; and
    /// the other nodes of the pool are as they were.
    pub open spec fn built_from(&self, before: &BVH, prims: Seq<Box<dyn Primitive>>) -> bool {
        let s = before.triangle_indices@;
        let bounds = before.root_bounds(prims);
        let ptr = before.pool_ptr as int;
        let bin_count = before.bin_count;
        &&& self.same_shape(before)
        &&& self.pool@[0] == subdivided(prims, before.root_before(prims), s, ptr, bin_count)
        &&& self.pool_ptr == ptr + subtree_slots(prims, s, bounds, bin_count)
        &&& self.triangle_indices@ == final_order(prims, s, bounds, bin_count)
        &&& self.scratch() == bins_after(prims, s, bounds, bin_count, before.scratch())
        &&& holds_subtree(self.pool@, before.pool@, prims, s, 0, bounds, ptr, bin_count)
        &&& forall|k: int|
            1 <= k < self.pool.len() && !(ptr <= k < self.pool_ptr) ==> self.pool@[k]
                == before.pool@[k]
    }

    /// Builds the hierarchy: the root, node 0, gets the whole index array and
    /// the box around its primitives, and is subdivided as far as it goes.
    /// A search can then start at the root.
    pub fn build(&mut self, primitives: &Vec<Box<dyn Primitive>>)
        requires
            old(self).ready(primitives@),
        ensures
            final(self).built_from(old(self), primitives@),
            searchable(
                final(self).pool@,
                final(self).pool@[0],
                final(self).triangle_indices@,
                primitives@,
            ),
    {
        let ghost s = self.triangle_indices@;
        let mut root: BVHNode = self.pool[0];
        root.first = 0;
        root.count = self.triangle_count;
        root.update_bounds(primitives, &self.triangle_indices);
        let ghost root0 = root;
        assert(root.span(self.triangle_indices@) =~= s);
        root.subdivide_node(self, primitives);
        let ghost pool1 = self.pool@;
        self.pool.set(0, root);
        proof {

            crate::bvh::layout::lemma_final_order_len(
                primitives@,
                s,
                old(self).root_bounds(primitives@),
                old(self).bin_count,
            );
            assert(self.triangle_indices@ =~= final_order(
                primitives@,
                s,
                old(self).root_bounds(primitives@),
                old(self).bin_count,
            ));
            crate::bvh::layout::lemma_subtree_frame(
                pool1,
                old(self).pool@,
                self.pool@,
                old(self).pool@,
                primitives@,
                s,
                0,
                old(self).root_bounds(primitives@),
                old(self).pool_ptr as int,
                old(self).bin_count,
            );
            crate::bvh::layout::lemma_subtree_slots_bound(
                primitives@,
                s,
                root0.bounds,
                old(self).bin_count,
            );
            assert(self.triangle_indices@.subrange(0, s.len() as int) =~= self.triangle_indices@);
            crate::bvh::layout::lemma_subtree_searchable(
                self.pool@,
                old(self).pool@,
                primitives@,
                self.triangle_indices@,
                s,
                root0,
                old(self).pool_ptr as int,
                old(self).bin_count,
            );
        }
    }

    /// Empties every bin.
    pub fn reset_bins(&mut self)
        ensures
            final(self).bins@ == Seq::new(old(self).bins.len() as nat, |i: int| Bin::empty()),
            final(self).bins_left@ == Seq::new(
                old(self).bins_left.len() as nat,
                |i: int| Bin::empty(),
            ),
            final(self).bins_right@ == Seq::new(
                old(self).bins_right.len() as nat,
                |i: int| Bin::empty(),
            ),
            final(self).bin_count == old(self).bin_count,
            final(self).pool == old(self).pool,
            final(self).pool_ptr == old(self).pool_ptr,
            final(self).triangle_indices == old(self).triangle_indices,
            final(self).triangle_count == old(self).triangle_count,
    {
        let mut i: usize = 0;
        while i < self.bins.len()
            invariant
                i <= self.bins.len(),
                self.bins.len() == old(self).bins.len(),
                self.bins_left == old(self).bins_left,
                self.bins_right == old(self).bins_right,
                self.bin_count == old(self).bin_count,
                self.pool == old(self).pool,
                self.pool_ptr == old(self).pool_ptr,
                self.triangle_indices == old(self).triangle_indices,
                self.triangle_count == old(self).triangle_count,
                forall|k: int| 0 <= k < i ==> self.bins[k] == Bin::empty(),
            decreases self.bins.len() - i,
        {
            let mut bin = self.bins[i];
            bin.clear();
            self.bins.set(i, bin);
            i += 1;
        }
        let mut i: usize = 0;
        while i < self.bins_left.len()
            invariant
                i <= self.bins_left.len(),
                self.bins_left.len() == old(self).bins_left.len(),
                self.bins@ == Seq::new(old(self).bins.len() as nat, |i: int| Bin::empty()),
                self.bins_right == old(self).bins_right,
                self.bin_count == old(self).bin_count,
                self.pool == old(self).pool,
                self.pool_ptr == old(self).pool_ptr,
                self.triangle_indices == old(self).triangle_indices,
                self.triangle_count == old(self).triangle_count,
                forall|k: int| 0 <= k < i ==> self.bins_left[k] == Bin::empty(),
            decreases self.bins_left.len() - i,
        {
            let mut bin = self.bins_left[i];
            bin.clear();
            self.bins_left.set(i, bin);
            i += 1;
        }
        let mut i: usize = 0;
        while i < self.bins_right.len()
            invariant
                i <= self.bins_right.len(),
                self.bins_right.len() == old(self).bins_right.len(),
                self.bins@ == Seq::new(old(self).bins.len() as nat, |i: int| Bin::empty()),
                self.bins_left@ == Seq::new(
                    old(self).bins_left.len() as nat,
                    |i: int| Bin::empty(),
                ),
                self.bin_count == old(self).bin_count,
                self.pool == old(self).pool,
                self.pool_ptr == old(self).pool_ptr,
                self.triangle_indices == old(self).triangle_indices,
                self.triangle_count == old(self).triangle_count,
                forall|k: int| 0 <= k < i ==> self.bins_right[k] == Bin::empty(),
            decreases self.bins_right.len() - i,
        {
            let mut bin = self.bins_right[i];
            bin.clear();
            self.bins_right.set(i, bin);
            i += 1;
        }
    }
}

/// A search of a built hierarchy from its root returns a hit as near as the
/// nearest that a scan of all its primitives keeps, for every ray that
/// meets the box of each primitive it hits and meets the children of every
/// inner node from front to back.
pub proof fn lemma_search_finds_nearest(
    bvh: &BVH,
    before: &BVH,
    prims: Seq<Box<dyn Primitive>>,
    ray: Ray,
)
    requires
        before.ready(prims),
        bvh.built_from(before, prims),
        forall|k: int|
            0 <= k < before.triangle_indices.len() && counts(
                prims,
                #[trigger] before.triangle_indices@[k],
                ray,
            ) ==> ray.hits_box(prims[before.triangle_indices@[k] as int].bounds()),
        front_to_back(bvh.pool@, bvh.pool@[0], prims, bvh.triangle_indices@, ray),
    ensures
        distance_of(tree_hit(bvh.pool@, bvh.pool@[0], prims, bvh.triangle_indices@, ray))
            == distance_of(
            nearest_upto(prims, bvh.triangle_indices@, 0, bvh.triangle_count as nat, ray),
        ),
{
    let s = before.triangle_indices@;
    let root = before.root_before(prims);
    assert forall|k: int| 0 <= k < s.len() implies root.bounds.encloses(
        prims[(#[trigger] s[k]) as int].bounds(),
    ) by {
        lemma_listed_bounds_enclose(prims, s, 0, s.len(), k);
    }
    lemma_subtree_slots_bound(prims, s, root.bounds, before.bin_count);
    lemma_final_order_len(prims, s, root.bounds, before.bin_count);
    assert(bvh.triangle_indices@.subrange(0, s.len() as int) =~= bvh.triangle_indices@);
    lemma_descent_finds_nearest(
        bvh.pool@,
        before.pool@,
        prims,
        bvh.triangle_indices@,
        s,
        root,
        before.pool_ptr as int,
        before.bin_count,
        ray,
    );
}

/// A search of a built hierarchy from its root returns a hit wherever a
/// scan of all its primitives keeps one, for every ray that meets the box
/// of each primitive it hits.
pub proof fn lemma_search_loses_no_hit(
    bvh: &BVH,
    before: &BVH,
    prims: Seq<Box<dyn Primitive>>,
    ray: Ray,
)
    requires
        before.ready(prims),
        bvh.built_from(before, prims),
        forall|k: int|
            0 <= k < before.triangle_indices.len() && counts(
                prims,
                #[trigger] before.triangle_indices@[k],
                ray,
            ) ==> ray.hits_box(prims[before.triangle_indices@[k] as int].bounds()),
    ensures
        tree_hit(bvh.pool@, bvh.pool@[0], prims, bvh.triangle_indices@, ray) is Some
            <==> nearest_upto(prims, bvh.triangle_indices@, 0, bvh.triangle_count as nat, ray)
            is Some,
{
    let s = before.triangle_indices@;
    let root = before.root_before(prims);
    assert forall|k: int| 0 <= k < s.len() implies root.bounds.encloses(
        prims[(#[trigger] s[k]) as int].bounds(),
    ) by {
        lemma_listed_bounds_enclose(prims, s, 0, s.len(), k);
    }
    lemma_subtree_slots_bound(prims, s, root.bounds, before.bin_count);
    lemma_final_order_len(prims, s, root.bounds, before.bin_count);
    assert(bvh.triangle_indices@.subrange(0, s.len() as int) =~= bvh.triangle_indices@);
    lemma_descent_loses_no_hit(
        bvh.pool@,
        before.pool@,
        prims,
        bvh.triangle_indices@,
        s,
        root,
        before.pool_ptr as int,
        before.bin_count,
        ray,
    );
}

/// Over primitives whose centroids all lie at one point a build makes one
/// leaf: the root holds them all, in the order they stood in, and no other
/// node of the pool is written.
pub proof fn lemma_clustered_build_is_one_leaf(
    bvh: &BVH,
    before: &BVH,
    prims: Seq<Box<dyn Primitive>>,
)
    requires
        before.ready(prims),
        bvh.built_from(before, prims),
        forall|i: int, j: int|
            0 <= i < before.triangle_indices.len() && 0 <= j < before.triangle_indices.len()
                ==> prims[(#[trigger] before.triangle_indices@[i]) as int].centroid() == prims[(
            #[trigger] before.triangle_indices@[j]) as int].centroid(),
    ensures
        bvh.pool@[0].is_leaf,
        bvh.pool@[0].first == 0,
        bvh.pool@[0].count == before.triangle_count,
        bvh.triangle_indices@ == before.triangle_indices@,
        forall|k: int| 1 <= k < bvh.pool.len() ==> bvh.pool@[k] == before.pool@[k],
{
    lemma_clustered_node_stays_whole(
        prims,
        before.triangle_indices@,
        before.root_before(prims),
        before.pool_ptr as int,
        before.bin_count,
    );
    crate::bvh::sah::lemma_clustered_is_not_split(
        prims,
        before.triangle_indices@,
        before.root_bounds(prims),
        before.bin_count,
    );
}

} // verus!
