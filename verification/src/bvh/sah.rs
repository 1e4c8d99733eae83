//! The model of a split by the surface-area heuristic: which slice each
//! primitive of a node falls in, what each side of a boundary would hold and
//! cost, which boundary wins, and how the node's indices are rearranged.

use vstd::prelude::*;
use crate::bvh::aabb::AABB;
use crate::bvh::bin::Bin;
use crate::primitives::primitive::Primitive;
use crate::{EPSILON, SCALE};

verus! {

/// How the centroids of a node are cut into `bin_count` slices along `axis`,
/// between the least and the greatest centroid coordinate.
#[derive(Clone, Copy, Debug, PartialEq, Eq, Structural)]
pub struct Binning {
    pub axis: usize,
    pub cbmin: i32,
    pub cbmax: i32,
    pub bin_count: usize,
}

impl Binning {
    /// The slice of coordinate `c`: `bin_count * (1 - EPSILON) / (cbmax - cbmin)`
    /// times `c - cbmin`, rounded down.
    pub open spec fn bin_index(self, c: int) -> int {
        (self.bin_count * (SCALE - EPSILON) * (c - self.cbmin)) / (SCALE * (self.cbmax
            - self.cbmin))
    }

    /// The slice of the coordinate `c`, which lies between the two ends.
    pub fn bin_id(&self, c: i32) -> (id: usize)
        requires
            self.cbmin <= c <= self.cbmax,
            self.cbmin < self.cbmax,
        ensures
            id == self.bin_index(c as int),
            self.bin_count > 0 ==> id < self.bin_count,
    {
        let n: i128 = self.bin_count as i128;
        let d: i128 = c as i128 - self.cbmin as i128;
        let e: i128 = self.cbmax as i128 - self.cbmin as i128;
        let f: i128 = (SCALE - EPSILON) as i128;
        assert(0 <= n * f <= 0x1_0000_0000_0000_0000 * 9_999) by (nonlinear_arith)
            requires
                0 <= n <= 0x1_0000_0000_0000_0000,
                f == 9_999,
        ;
        let nf: i128 = n * f;
        assert(0 <= nf * d <= nf * e <= 0x1_0000_0000_0000_0000 * 9_999 * 0x1_0000_0000)
            by (nonlinear_arith)
            requires
                0 <= nf <= 0x1_0000_0000_0000_0000 * 9_999,
                0 <= d <= e <= 0x1_0000_0000,
        ;
        let num: i128 = nf * d;
        let den: i128 = SCALE as i128 * e;
        let q: i128 = num / den;
        proof {
            lemma_bin_index_range(n as int, d as int, e as int);
        }
        q as usize
    }
}

/// A coordinate between the two ends falls in one of the slices.
pub proof fn lemma_bin_index_range(n: int, d: int, e: int)
    requires
        0 <= n,
        0 <= d <= e,
        0 < e,
    ensures
        0 <= (n * (SCALE - EPSILON) * d) / (SCALE * e),
        n > 0 ==> (n * (SCALE - EPSILON) * d) / (SCALE * e) < n,
        n == 0 ==> (n * (SCALE - EPSILON) * d) / (SCALE * e) == 0,
{
    let num = n * 9_999 * d;
    let den = 10_000 * e;
    assert(0 <= num) by (nonlinear_arith)
        requires
            num == n * 9_999 * d,
            0 <= n,
            0 <= d,
    ;
    assert(n > 0 ==> num < n * den) by (nonlinear_arith)
        requires
            num == n * 9_999 * d,
            den == 10_000 * e,
            0 <= n,
            0 <= d <= e,
            0 < e,
    ;
    assert(0 <= num / den) by (nonlinear_arith)
        requires
            0 <= num,
            0 < den,
    ;
    assert(n > 0 && num < n * den ==> num / den < n) by (nonlinear_arith)
        requires
            0 <= num,
            0 < den,
    ;
    assert(n == 0 ==> num == 0) by (nonlinear_arith)
        requires
            num == n * 9_999 * d,
    ;
}

/// The box around the centroids of the first `n` primitives that `s` names.
pub open spec fn centroid_bounds_upto(
    prims: Seq<Box<dyn Primitive>>,
    s: Seq<usize>,
    n: nat,
) -> AABB
    decreases n,
{
    if n == 0 {
        AABB::empty()
    } else {
        centroid_bounds_upto(prims, s, (n - 1) as nat).grown_by_point(
            prims[s[n - 1] as int].centroid(),
        )
    }
}

/// The box around the centroids of the primitives that `s` names.
pub open spec fn centroid_bounds(prims: Seq<Box<dyn Primitive>>, s: Seq<usize>) -> AABB {
    centroid_bounds_upto(prims, s, s.len())
}

/// The slices for the primitives that `s` names: along the longest axis of
/// the box around their centroids, from its least to its greatest coordinate
/// there.
pub open spec fn binning_of(
    prims: Seq<Box<dyn Primitive>>,
    s: Seq<usize>,
    bin_count: usize,
) -> Binning {
    let cb = centroid_bounds(prims, s);
    let axis = cb.longest_axis_spec();
    Binning {
        axis: axis as usize,
        cbmin: cb.bmin.axis(axis) as i32,
        cbmax: cb.bmax.axis(axis) as i32,
        bin_count,
    }
}

/// The slice that primitive `i` falls in.
pub open spec fn bin_of(prims: Seq<Box<dyn Primitive>>, g: Binning, i: usize) -> int {
    g.bin_index(prims[i as int].centroid().axis(g.axis as int))
}

/// How many of the first `n` primitives that `s` names fall in the slices
/// `lo ..= hi`.
pub open spec fn range_count_upto(
    prims: Seq<Box<dyn Primitive>>,
    s: Seq<usize>,
    g: Binning,
    lo: int,
    hi: int,
    n: nat,
) -> nat
    decreases n,
{
    if n == 0 {
        0
    } else {
        let rest = range_count_upto(prims, s, g, lo, hi, (n - 1) as nat);
        if lo <= bin_of(prims, g, s[n - 1]) <= hi {
            rest + 1
        } else {
            rest
        }
    }
}

/// The box around those of the first `n` primitives that `s` names which
/// fall in the slices `lo ..= hi`.
pub open spec fn range_bounds_upto(
    prims: Seq<Box<dyn Primitive>>,
    s: Seq<usize>,
    g: Binning,
    lo: int,
    hi: int,
    n: nat,
) -> AABB
    decreases n,
{
    if n == 0 {
        AABB::empty()
    } else {
        let rest = range_bounds_upto(prims, s, g, lo, hi, (n - 1) as nat);
        if lo <= bin_of(prims, g, s[n - 1]) <= hi {
            rest.grown_by_bounds(prims[s[n - 1] as int].bounds())
        } else {
            rest
        }
    }
}

/// Count and box of the primitives that `s` names in the slices `lo ..= hi`.
pub open spec fn range_bin(
    prims: Seq<Box<dyn Primitive>>,
    s: Seq<usize>,
    g: Binning,
    lo: int,
    hi: int,
) -> Bin {
    Bin {
        count: range_count_upto(prims, s, g, lo, hi, s.len()) as u32,
        bounds: range_bounds_upto(prims, s, g, lo, hi, s.len()),
    }
}

/// One entry for each slice: what falls in it.
pub open spec fn slice_bins(prims: Seq<Box<dyn Primitive>>, s: Seq<usize>, g: Binning) -> Seq<
    Bin,
> {
    Seq::new(g.bin_count as nat, |b: int| range_bin(prims, s, g, b, b))
}

/// One entry for each boundary `i` between two slices: what lies in the
/// slices up to and with `i`.
pub open spec fn left_bins(prims: Seq<Box<dyn Primitive>>, s: Seq<usize>, g: Binning) -> Seq<
    Bin,
> {
    Seq::new((g.bin_count - 1) as nat, |i: int| range_bin(prims, s, g, 0, i))
}

/// One entry for each boundary `i` between two slices: what lies in the
/// slices after `i`.
pub open spec fn right_bins(prims: Seq<Box<dyn Primitive>>, s: Seq<usize>, g: Binning) -> Seq<
    Bin,
> {
    Seq::new((g.bin_count - 1) as nat, |i: int| range_bin(prims, s, g, i + 1, g.bin_count - 1))
}

/// What a split costs: each side's surface area times its count.
pub open spec fn split_cost(left: Bin, right: Bin) -> int {
    left.bounds.area() * left.count + right.bounds.area() * right.count
}

/// A boundary may be chosen if both sides hold something and the split costs
/// less than leaving the node whole.
pub open spec fn eligible(left: Bin, right: Bin, cur_cost: int) -> bool {
    split_cost(left, right) < cur_cost && left.count > 0 && right.count > 0
}

/// The cheapest eligible boundary among the first `k`, the first of them
/// where several cost the same.
pub open spec fn best_of_bins(left: Seq<Bin>, right: Seq<Bin>, cur_cost: int, k: nat) -> Option<
    usize,
>
    decreases k,
{
    if k == 0 {
        None
    } else {
        let i = (k - 1) as int;
        let before = best_of_bins(left, right, cur_cost, (k - 1) as nat);
        if eligible(left[i], right[i], cur_cost) && (before matches Some(b) ==> split_cost(
            left[i],
            right[i],
        ) < split_cost(left[b as int], right[b as int])) {
            Some(i as usize)
        } else {
            before
        }
    }
}

/// The boundary at which the primitives that `s` names are split, if they
/// are: none where there is no boundary or their centroids do not spread by
/// more than `EPSILON` along the longest axis, else the best of the
/// `bin_count - 1` boundaries against the cost of a node with the box
/// `bounds`.
#[verifier::opaque]
pub open spec fn split_choice(
    prims: Seq<Box<dyn Primitive>>,
    s: Seq<usize>,
    bounds: AABB,
    bin_count: usize,
) -> Option<usize> {
    let g = binning_of(prims, s, bin_count);
    if bin_count < 2 || -EPSILON <= g.cbmax - g.cbmin <= EPSILON {
        None
    } else {
        best_of_bins(
            left_bins(prims, s, g),
            right_bins(prims, s, g),
            bounds.area() * s.len(),
            (bin_count - 1) as nat,
        )
    }
}

/// The indices after the first `n` of them were looked at from the left, and
/// how many were sent to the front: each index whose primitive falls in a
/// slice up to `boundary` changes places with the first index that was not
/// sent there yet.
pub open spec fn partitioned(
    prims: Seq<Box<dyn Primitive>>,
    g: Binning,
    boundary: int,
    s: Seq<usize>,
    n: nat,
) -> (Seq<usize>, int)
    decreases n,
{
    if n == 0 {
        (s, 0)
    } else {
        let (t, j) = partitioned(prims, g, boundary, s, (n - 1) as nat);
        if bin_of(prims, g, t[n - 1]) <= boundary {
            (t.update(n - 1, t[j]).update(j, t[n - 1]), j + 1)
        } else {
            (t, j)
        }
    }
}

/// The box around some centroids holds each of them.
pub proof fn lemma_centroid_bounds_contains(
    prims: Seq<Box<dyn Primitive>>,
    s: Seq<usize>,
    n: nat,
    k: int,
)
    requires
        0 <= k < n,
    ensures
        centroid_bounds_upto(prims, s, n).contains_point(prims[s[k] as int].centroid()),
    decreases n,
{
    if k < n - 1 {
        lemma_centroid_bounds_contains(prims, s, (n - 1) as nat, k);
    }
}

/// Where the centroids spread along the chosen axis, each primitive of the
/// node lies between the two ends and falls in one of the slices.
pub proof fn lemma_members_in_slices(
    prims: Seq<Box<dyn Primitive>>,
    s: Seq<usize>,
    bin_count: usize,
    k: int,
)
    requires
        0 <= k < s.len(),
        binning_of(prims, s, bin_count).cbmin < binning_of(prims, s, bin_count).cbmax,
    ensures
        ({
            let g = binning_of(prims, s, bin_count);
            let c = prims[s[k] as int].centroid().axis(g.axis as int);
            &&& g.axis < 3
            &&& g.cbmin <= c <= g.cbmax
            &&& 0 <= bin_of(prims, g, s[k])
            &&& bin_count > 0 ==> bin_of(prims, g, s[k]) < bin_count
        }),
{
    let g = binning_of(prims, s, bin_count);
    let c = prims[s[k] as int].centroid().axis(g.axis as int);
    lemma_centroid_bounds_contains(prims, s, s.len(), k);
    lemma_bin_index_range(bin_count as int, c - g.cbmin, g.cbmax - g.cbmin);
}

/// A range of slices holds no more primitives than were looked at; where it
/// holds none its box is empty, and where it holds one its box has a least
/// corner that does not exceed its greatest.
pub proof fn lemma_range_stats(
    prims: Seq<Box<dyn Primitive>>,
    s: Seq<usize>,
    g: Binning,
    lo: int,
    hi: int,
    n: nat,
)
    ensures
        range_count_upto(prims, s, g, lo, hi, n) <= n,
        range_count_upto(prims, s, g, lo, hi, n) == 0 ==> range_bounds_upto(prims, s, g, lo, hi, n)
            == AABB::empty(),
        range_count_upto(prims, s, g, lo, hi, n) > 0 ==> range_bounds_upto(
            prims,
            s,
            g,
            lo,
            hi,
            n,
        ).is_bounded(),
    decreases n,
{
    if n > 0 {
        lemma_range_stats(prims, s, g, lo, hi, (n - 1) as nat);
    }
}

/// The box of a range of slices holds the box of each primitive in it.
pub proof fn lemma_range_bounds_enclose(
    prims: Seq<Box<dyn Primitive>>,
    s: Seq<usize>,
    g: Binning,
    lo: int,
    hi: int,
    n: nat,
    k: int,
)
    requires
        0 <= k < n,
        lo <= bin_of(prims, g, s[k]) <= hi,
    ensures
        range_bounds_upto(prims, s, g, lo, hi, n).encloses(prims[s[k] as int].bounds()),
    decreases n,
{
    if k < n - 1 {
        lemma_range_bounds_enclose(prims, s, g, lo, hi, (n - 1) as nat, k);
    }
}

/// Two ranges of slices that follow one another hold together what the
/// range over both holds: the counts add up and the boxes merge.
pub proof fn lemma_range_merge(
    prims: Seq<Box<dyn Primitive>>,
    s: Seq<usize>,
    g: Binning,
    lo: int,
    mid: int,
    hi: int,
    n: nat,
)
    requires
        lo <= mid + 1,
        mid <= hi,
    ensures
        range_count_upto(prims, s, g, lo, hi, n) == range_count_upto(prims, s, g, lo, mid, n)
            + range_count_upto(prims, s, g, mid + 1, hi, n),
        range_bounds_upto(prims, s, g, lo, hi, n) == range_bounds_upto(
            prims,
            s,
            g,
            lo,
            mid,
            n,
        ).merged(range_bounds_upto(prims, s, g, mid + 1, hi, n)),
    decreases n,
{
    if n > 0 {
        let m = (n - 1) as nat;
        lemma_range_merge(prims, s, g, lo, mid, hi, m);
        let x = prims[s[n - 1] as int].bounds();
        crate::bvh::aabb::lemma_grow_then_merge(
            range_bounds_upto(prims, s, g, lo, mid, m),
            range_bounds_upto(prims, s, g, mid + 1, hi, m),
            x,
        );
    }
}

/// Where every primitive falls in a slice from `lo` to `hi`, the range
/// `lo ..= hi` holds them all.
pub proof fn lemma_range_count_all(
    prims: Seq<Box<dyn Primitive>>,
    s: Seq<usize>,
    g: Binning,
    lo: int,
    hi: int,
    n: nat,
)
    requires
        n <= s.len(),
        forall|k: int| 0 <= k < n ==> lo <= bin_of(prims, g, #[trigger] s[k]) <= hi,
    ensures
        range_count_upto(prims, s, g, lo, hi, n) == n,
    decreases n,
{
    if n > 0 {
        lemma_range_count_all(prims, s, g, lo, hi, (n - 1) as nat);
    }
}

/// What the best boundary is: it is one of the first `k`, it is eligible, no
/// eligible boundary costs less, and none before it costs as little.
pub proof fn lemma_best_of_bins_is_least(
    left: Seq<Bin>,
    right: Seq<Bin>,
    cur_cost: int,
    k: nat,
)
    requires
        k <= left.len(),
        k <= right.len(),
        k <= usize::MAX,
    ensures
        match best_of_bins(left, right, cur_cost, k) {
            Some(b) => {
                &&& b < k
                &&& eligible(left[b as int], right[b as int], cur_cost)
                &&& forall|i: int|
                    0 <= i < k && #[trigger] eligible(left[i], right[i], cur_cost) ==> {
                        &&& split_cost(left[b as int], right[b as int]) <= split_cost(
                            left[i],
                            right[i],
                        )
                        &&& i < b ==> split_cost(left[b as int], right[b as int]) < split_cost(
                            left[i],
                            right[i],
                        )
                    }
            },
            None => forall|i: int| 0 <= i < k ==> !#[trigger] eligible(left[i], right[i], cur_cost),
        },
    decreases k,
{
    if k > 0 {
        lemma_best_of_bins_is_least(left, right, cur_cost, (k - 1) as nat);
    }
}

/// What the rearranged indices are after `n` of them were looked at: as many
/// as before; the first `j` fall in a slice up to the boundary and the next
/// up to `n` do not; those from `n` on stand as they stood; and `j` is the
/// number of the first `n` that fall in a slice up to the boundary.
pub proof fn lemma_partitioned_shape(
    prims: Seq<Box<dyn Primitive>>,
    g: Binning,
    boundary: int,
    s: Seq<usize>,
    n: nat,
)
    requires
        n <= s.len(),
    ensures
        ({
            let (t, j) = partitioned(prims, g, boundary, s, n);
            &&& t.len() == s.len()
            &&& 0 <= j <= n
            &&& forall|k: int| n <= k < s.len() ==> t[k] == s[k]
            &&& forall|k: int| 0 <= k < j ==> bin_of(prims, g, #[trigger] t[k]) <= boundary
            &&& forall|k: int| j <= k < n ==> bin_of(prims, g, #[trigger] t[k]) > boundary
            &&& t.to_multiset() == s.to_multiset()
        }),
    decreases n,
{
    if n > 0 {
        lemma_partitioned_shape(prims, g, boundary, s, (n - 1) as nat);
        let (t, j) = partitioned(prims, g, boundary, s, (n - 1) as nat);
        if bin_of(prims, g, t[n - 1]) <= boundary {
            let u = t.update(n - 1, t[j]);
            let v = u.update(j, t[n - 1]);
            lemma_swap_keeps_multiset(t, j, n - 1);
            assert forall|k: int| j + 1 <= k < n implies bin_of(prims, g, #[trigger] v[k])
                > boundary by {
                if k == n - 1 {
                    assert(v[k] == t[j]);
                } else {
                    assert(v[k] == t[k]);
                }
            }
            assert forall|k: int| 0 <= k < j + 1 implies bin_of(prims, g, #[trigger] v[k])
                <= boundary by {
                if k == j {
                    assert(v[k] == t[n - 1]);
                } else {
                    assert(v[k] == t[k]);
                }
            }
        }
    }
}

/// Two entries of a sequence that change places leave the same entries.
pub proof fn lemma_swap_keeps_multiset(t: Seq<usize>, a: int, b: int)
    requires
        0 <= a < t.len(),
        0 <= b < t.len(),
    ensures
        t.update(b, t[a]).update(a, t[b]).to_multiset() == t.to_multiset(),
{
    broadcast use vstd::multiset::group_multiset_axioms;

    let u = t.update(b, t[a]);
    let v = u.update(a, t[b]);
    vstd::seq_lib::to_multiset_update(t, b, t[a]);
    vstd::seq_lib::to_multiset_update(u, a, t[b]);
    vstd::seq_lib::to_multiset_contains(t, t[a]);
    vstd::seq_lib::to_multiset_contains(t, t[b]);
    assert(t.contains(t[a]) && t.contains(t[b]));
    assert(v.to_multiset() =~= t.to_multiset());
}

/// What the three arrays of bins hold once a split of the primitives that
/// `s` names was sought: nothing where their centroids do not spread by more
/// than `EPSILON`, else what falls in each slice and on each side of each
/// boundary.
pub open spec fn bins_after_attempt(
    prims: Seq<Box<dyn Primitive>>,
    s: Seq<usize>,
    bin_count: usize,
) -> (Seq<Bin>, Seq<Bin>, Seq<Bin>) {
    let g = binning_of(prims, s, bin_count);
    if -EPSILON <= g.cbmax - g.cbmin <= EPSILON {
        (
            Seq::new(bin_count as nat, |i: int| Bin::empty()),
            Seq::new((bin_count - 1) as nat, |i: int| Bin::empty()),
            Seq::new((bin_count - 1) as nat, |i: int| Bin::empty()),
        )
    } else {
        (slice_bins(prims, s, g), left_bins(prims, s, g), right_bins(prims, s, g))
    }
}

/// The two halves into which the primitives that `s` names are split at
/// boundary `b`, each with the box around it: first those sent to the front.
#[verifier::opaque]
pub open spec fn halves(
    prims: Seq<Box<dyn Primitive>>,
    s: Seq<usize>,
    bin_count: usize,
    b: usize,
) -> ((Seq<usize>, AABB), (Seq<usize>, AABB)) {
    let g = binning_of(prims, s, bin_count);
    let (t, j) = partitioned(prims, g, b as int, s, s.len());
    (
        (t.subrange(0, j), left_bins(prims, s, g)[b as int].bounds),
        (t.subrange(j, s.len() as int), right_bins(prims, s, g)[b as int].bounds),
    )
}

/// The box around one centroid or more has a least corner that does not
/// exceed its greatest.
pub proof fn lemma_centroid_bounds_bounded(prims: Seq<Box<dyn Primitive>>, s: Seq<usize>, n: nat)
    requires
        n > 0,
    ensures
        centroid_bounds_upto(prims, s, n).is_bounded(),
    decreases n,
{
    if n > 1 {
        lemma_centroid_bounds_bounded(prims, s, (n - 1) as nat);
    }
}

/// Where no primitive falls in a slice below 0, as many indices are sent to
/// the front as there are primitives in the slices from 0 to the boundary.
pub proof fn lemma_partitioned_count(
    prims: Seq<Box<dyn Primitive>>,
    g: Binning,
    boundary: int,
    s: Seq<usize>,
    n: nat,
)
    requires
        n <= s.len(),
        forall|k: int| 0 <= k < n ==> 0 <= bin_of(prims, g, #[trigger] s[k]),
    ensures
        partitioned(prims, g, boundary, s, n).1 == range_count_upto(prims, s, g, 0, boundary, n),
    decreases n,
{
    if n > 0 {
        lemma_partitioned_count(prims, g, boundary, s, (n - 1) as nat);
        lemma_partitioned_shape(prims, g, boundary, s, (n - 1) as nat);
        let (t, j) = partitioned(prims, g, boundary, s, (n - 1) as nat);
        assert(t[n - 1] == s[n - 1]);
    }
}

/// A split that is chosen leaves something on each side: the rearranged
/// indices are as many as before, and more than none and fewer than all of
/// them are sent to the front.
pub proof fn lemma_split_is_proper(
    prims: Seq<Box<dyn Primitive>>,
    s: Seq<usize>,
    bounds: AABB,
    bin_count: usize,
)
    ensures
        split_choice(prims, s, bounds, bin_count) matches Some(b) ==> ({
            let g = binning_of(prims, s, bin_count);
            let (t, j) = partitioned(prims, g, b as int, s, s.len());
            &&& b < bin_count - 1
            &&& g.cbmin < g.cbmax
            &&& t.len() == s.len()
            &&& 0 < j < s.len()
            &&& j == range_count_upto(prims, s, g, 0, b as int, s.len())
            &&& s.len() - j == range_count_upto(prims, s, g, b + 1, bin_count - 1, s.len())
        }),
{
    reveal(split_choice);
    if let Some(b) = split_choice(prims, s, bounds, bin_count) {
        let g = binning_of(prims, s, bin_count);
        let left = left_bins(prims, s, g);
        let right = right_bins(prims, s, g);
        lemma_best_of_bins_is_least(left, right, bounds.area() * s.len(), (bin_count - 1) as nat);
        assert(left[b as int] == range_bin(prims, s, g, 0, b as int));
        assert(right[b as int] == range_bin(prims, s, g, b + 1, bin_count - 1));
        let lc = range_count_upto(prims, s, g, 0, b as int, s.len());
        let rc = range_count_upto(prims, s, g, b + 1, bin_count - 1, s.len());
        assert(lc > 0);
        assert(rc > 0);
        lemma_range_stats(prims, s, g, 0, b as int, s.len());
        assert(s.len() > 0);
        lemma_centroid_bounds_bounded(prims, s, s.len());
        assert(g.cbmin < g.cbmax);
        assert forall|k: int| 0 <= k < s.len() implies 0 <= bin_of(prims, g, #[trigger] s[k])
            <= bin_count - 1 by {
            lemma_members_in_slices(prims, s, bin_count, k);
        }
        lemma_partitioned_count(prims, g, b as int, s, s.len());
        lemma_partitioned_shape(prims, g, b as int, s, s.len());
        lemma_range_merge(prims, s, g, 0, b as int, bin_count - 1, s.len());
        lemma_range_count_all(prims, s, g, 0, bin_count - 1, s.len());
    }
}

/// The two halves of a split that is chosen hold something each, and
/// together the indices that were split, each as often as before.
pub proof fn lemma_halves_proper(
    prims: Seq<Box<dyn Primitive>>,
    s: Seq<usize>,
    bounds: AABB,
    bin_count: usize,
)
    ensures
        split_choice(prims, s, bounds, bin_count) matches Some(b) ==> ({
            let ((ls, lb), (rs, rb)) = halves(prims, s, bin_count, b);
            &&& b < bin_count - 1
            &&& 0 < ls.len() < s.len()
            &&& 0 < rs.len() < s.len()
            &&& ls.len() + rs.len() == s.len()
            &&& (ls + rs).to_multiset() == s.to_multiset()
        }),
{
    reveal(halves);
    if let Some(b) = split_choice(prims, s, bounds, bin_count) {
        lemma_split_is_proper(prims, s, bounds, bin_count);
        let g = binning_of(prims, s, bin_count);
        lemma_partitioned_shape(prims, g, b as int, s, s.len());
        let (t, j) = partitioned(prims, g, b as int, s, s.len());
        assert(t =~= t.subrange(0, j) + t.subrange(j, s.len() as int));
    }
}

/// What holds of every entry of a sequence holds of every entry of a
/// sequence with the same entries.
pub proof fn lemma_same_entries_same_property(
    t: Seq<usize>,
    s: Seq<usize>,
    property: spec_fn(usize) -> bool,
)
    requires
        t.to_multiset() == s.to_multiset(),
        forall|k: int| 0 <= k < s.len() ==> property(#[trigger] s[k]),
    ensures
        forall|k: int| 0 <= k < t.len() ==> property(#[trigger] t[k]),
{
    assert forall|k: int| 0 <= k < t.len() implies property(#[trigger] t[k]) by {
        vstd::seq_lib::to_multiset_contains(t, t[k]);
        vstd::seq_lib::to_multiset_contains(s, t[k]);
        assert(t.contains(t[k]));
        let m = choose|m: int| 0 <= m < s.len() && s[m] == t[k];
        assert(property(s[m]));
    }
}

/// Two sequences that hold the same entries hold entries below the same
/// limits.
pub proof fn lemma_same_entries_same_limit(t: Seq<usize>, s: Seq<usize>, limit: int)
    requires
        t.to_multiset() == s.to_multiset(),
        forall|k: int| 0 <= k < s.len() ==> #[trigger] s[k] < limit,
    ensures
        forall|k: int| 0 <= k < t.len() ==> #[trigger] t[k] < limit,
{
    assert forall|k: int| 0 <= k < t.len() implies #[trigger] t[k] < limit by {
        vstd::seq_lib::to_multiset_contains(t, t[k]);
        vstd::seq_lib::to_multiset_contains(s, t[k]);
        assert(t.contains(t[k]));
        let m = choose|m: int| 0 <= m < s.len() && s[m] == t[k];
        assert(s[m] < limit);
    }
}

/// Each half of a split that is chosen lies in its box: the box of a half
/// holds the box of every primitive in it.
pub proof fn lemma_halves_enclose(
    prims: Seq<Box<dyn Primitive>>,
    s: Seq<usize>,
    bounds: AABB,
    bin_count: usize,
)
    ensures
        split_choice(prims, s, bounds, bin_count) matches Some(b) ==> ({
            let ((ls, lb), (rs, rb)) = halves(prims, s, bin_count, b);
            &&& forall|k: int|
                0 <= k < ls.len() ==> lb.encloses(prims[(#[trigger] ls[k]) as int].bounds())
            &&& forall|k: int|
                0 <= k < rs.len() ==> rb.encloses(prims[(#[trigger] rs[k]) as int].bounds())
        }),
{
    reveal(halves);
    if let Some(b) = split_choice(prims, s, bounds, bin_count) {
        lemma_split_is_proper(prims, s, bounds, bin_count);
        let g = binning_of(prims, s, bin_count);
        lemma_partitioned_shape(prims, g, b as int, s, s.len());
        let (t, j) = partitioned(prims, g, b as int, s, s.len());
        let ((ls, lb), (rs, rb)) = halves(prims, s, bin_count, b);
        assert(lb == range_bounds_upto(prims, s, g, 0, b as int, s.len()));
        assert(rb == range_bounds_upto(prims, s, g, b + 1, bin_count - 1, s.len()));
        assert forall|k: int| 0 <= k < t.len() implies ({
            let m = choose|m: int| 0 <= m < s.len() && s[m] == t[k];
            0 <= m < s.len() && s[m] == #[trigger] t[k] && 0 <= bin_of(prims, g, s[m]) < bin_count
        }) by {
            vstd::seq_lib::to_multiset_contains(t, t[k]);
            vstd::seq_lib::to_multiset_contains(s, t[k]);
            assert(t.contains(t[k]));
            let m = choose|m: int| 0 <= m < s.len() && s[m] == t[k];
            lemma_members_in_slices(prims, s, bin_count, m);
        }
        assert forall|k: int| 0 <= k < ls.len() implies lb.encloses(
            prims[(#[trigger] ls[k]) as int].bounds(),
        ) by {
            assert(ls[k] == t[k]);
            let m = choose|m: int| 0 <= m < s.len() && s[m] == t[k];
            lemma_range_bounds_enclose(prims, s, g, 0, b as int, s.len(), m);
        }
        assert forall|k: int| 0 <= k < rs.len() implies rb.encloses(
            prims[(#[trigger] rs[k]) as int].bounds(),
        ) by {
            assert(rs[k] == t[j + k]);
            let m = choose|m: int| 0 <= m < s.len() && s[m] == t[j + k];
            lemma_range_bounds_enclose(prims, s, g, b + 1, bin_count - 1, s.len(), m);
        }
    }
}

/// Primitives whose centroids all lie at one point are not split.
pub proof fn lemma_clustered_is_not_split(
    prims: Seq<Box<dyn Primitive>>,
    s: Seq<usize>,
    bounds: AABB,
    bin_count: usize,
)
    requires
        forall|i: int, j: int|
            0 <= i < s.len() && 0 <= j < s.len() ==> prims[(#[trigger] s[i]) as int].centroid()
                == prims[(#[trigger] s[j]) as int].centroid(),
    ensures
        split_choice(prims, s, bounds, bin_count) is None,
{
    reveal(split_choice);
    if s.len() > 0 {
        lemma_clustered_bounds(prims, s, s.len());
    } else {
        lemma_split_is_proper(prims, s, bounds, bin_count);
    }
}

/// The box around centroids that all lie at one point is that point.
proof fn lemma_clustered_bounds(prims: Seq<Box<dyn Primitive>>, s: Seq<usize>, n: nat)
    requires
        0 < n <= s.len(),
        forall|i: int, j: int|
            0 <= i < s.len() && 0 <= j < s.len() ==> prims[(#[trigger] s[i]) as int].centroid()
                == prims[(#[trigger] s[j]) as int].centroid(),
    ensures
        centroid_bounds_upto(prims, s, n).bmin == prims[s[0] as int].centroid(),
        centroid_bounds_upto(prims, s, n).bmax == prims[s[0] as int].centroid(),
    decreases n,
{
    if n > 1 {
        lemma_clustered_bounds(prims, s, (n - 1) as nat);
        assert(prims[s[n - 1] as int].centroid() == prims[s[0] as int].centroid());
    } else {
        assert(centroid_bounds_upto(prims, s, 0) == AABB::empty());
    }
}

} // verus!
