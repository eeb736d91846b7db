use vstd::prelude::*;
use vstd::multiset::Multiset;
use rayon::iter::{IndexedParallelIterator, IntoParallelIterator, ParallelIterator};
use crate::arena::{check_capacity, fits, BuildError};
use crate::count::{
    all_enclosed, all_wf, cross, lemma_cross_concat_left, lemma_cross_concat_right,
    lemma_cross_disjoint, lemma_cross_single, lemma_pair_count_bound,
    lemma_pair_count_concat, lemma_pair_count_permutation, lemma_pair_count_single, pair_count,
};
use crate::keys::{
    boxes_of, key_boxes_par, keys_distinct, keys_ordered, lemma_distinct_permutation,
    lemma_sorted_boxes, lemma_sorted_unique, par_sort_by_key,
};
use crate::position::{encloses, hull, AABB};
use crate::sums::{sum_range, union_range, lemma_sum_range_push, lemma_union_range_push};

verus! {

/// The input boxes under node `i` of a complete tree of `n` leaves stored in
/// `nodes`: the leaves sit at `n - 1 .. 2n - 1`, and the children of branch `i`
/// at `2i + 1` and `2i + 2`.
pub open spec fn implicit_leaves(nodes: Seq<AABB>, n: int, i: int) -> Seq<AABB>
    decreases 2 * n - 1 - i,
{
    if i < 0 || i >= 2 * n - 1 || i >= nodes.len() {
        Seq::empty()
    } else if i >= n - 1 {
        seq![nodes[i]]
    } else {
        implicit_leaves(nodes, n, 2 * i + 1) + implicit_leaves(nodes, n, 2 * i + 2)
    }
}

/// The pairs that branch `i` joins.
pub open spec fn implicit_cross(nodes: Seq<AABB>, n: int, i: int) -> nat {
    cross(implicit_leaves(nodes, n, 2 * i + 1), implicit_leaves(nodes, n, 2 * i + 2))
}

/// The pairs joined by the branches `lo .. hi`.
pub open spec fn implicit_branch_sum(nodes: Seq<AABB>, n: int, lo: int, hi: int) -> nat {
    sum_range(|i: int| implicit_cross(nodes, n, i), lo, hi)
}

pub open spec fn implicit_subtree_pairs(nodes: Seq<AABB>, n: int, lo: int, hi: int) -> nat {
    sum_range(|i: int| pair_count(implicit_leaves(nodes, n, i)), lo, hi)
}

pub open spec fn implicit_subtree_boxes(nodes: Seq<AABB>, n: int, lo: int, hi: int) -> Multiset<AABB> {
    union_range(|i: int| implicit_leaves(nodes, n, i).to_multiset(), lo, hi)
}

/// Slot `j` is one of the two children of branch `i`.
pub open spec fn implicit_child(i: int, j: int) -> bool {
    j == 2 * i + 1 || j == 2 * i + 2
}

/// Branch `i` holds the union of its two children.
pub open spec fn implicit_branch_ok(nodes: Seq<AABB>, i: int) -> bool {
    nodes[i] == hull(nodes[2 * i + 1], nodes[2 * i + 2])
}

/// A complete tree of `n` leaves: `2n - 1` well-formed boxes, every branch the
/// union of its children.
pub open spec fn implicit_wf(nodes: Seq<AABB>, n: int) -> bool {
    &&& n > 0 ==> nodes.len() == 2 * n - 1
    &&& n == 0 ==> nodes.len() == 0
    &&& all_wf(nodes)
    &&& forall|i: int| 0 <= i < n - 1 ==> #[trigger] implicit_branch_ok(nodes, i)
}

/// The roots `i .. 2i + 1` of the forest left once the branches `i ..` are
/// joined hold all the leaves, and their own pairs are those joined so far.
proof fn lemma_frontier(nodes: Seq<AABB>, n: int, i: int)
    requires
        nodes.len() == 2 * n - 1,
        0 <= i <= n - 1,
    ensures
        implicit_branch_sum(nodes, n, i, n - 1) == implicit_subtree_pairs(nodes, n, i, 2 * i + 1),
        implicit_subtree_boxes(nodes, n, i, 2 * i + 1) == implicit_subtree_boxes(
            nodes,
            n,
            n - 1,
            2 * n - 1,
        ),
    decreases n - 1 - i,
{
    if i == n - 1 {
        assert forall|j: int| n - 1 <= j < 2 * n - 1 implies #[trigger] pair_count(
            implicit_leaves(nodes, n, j),
        ) == 0 by {
            lemma_pair_count_single(nodes[j]);
        }
        lemma_zero_sum(nodes, n, n - 1, 2 * n - 1);
    } else {
        lemma_frontier(nodes, n, i + 1);
        let a = implicit_leaves(nodes, n, 2 * i + 1);
        let b = implicit_leaves(nodes, n, 2 * i + 2);
        assert(implicit_leaves(nodes, n, i) == a + b);
        lemma_pair_count_concat(a, b);
        vstd::seq_lib::lemma_multiset_commutative(a, b);
        lemma_sum_range_push(|j: int| pair_count(implicit_leaves(nodes, n, j)), i + 1, 2 * i + 1);
        lemma_sum_range_push(|j: int| pair_count(implicit_leaves(nodes, n, j)), i + 1, 2 * i + 2);
        lemma_union_range_push(|j: int| implicit_leaves(nodes, n, j).to_multiset(), i + 1, 2 * i + 1);
        lemma_union_range_push(|j: int| implicit_leaves(nodes, n, j).to_multiset(), i + 1, 2 * i + 2);
        assert(implicit_subtree_boxes(nodes, n, i, 2 * i + 1) =~= implicit_subtree_boxes(
            nodes,
            n,
            i + 1,
            2 * i + 3,
        ));
    }
}

proof fn lemma_zero_sum(nodes: Seq<AABB>, n: int, lo: int, hi: int)
    requires
        forall|j: int| lo <= j < hi ==> #[trigger] pair_count(implicit_leaves(nodes, n, j)) == 0,
    ensures
        implicit_subtree_pairs(nodes, n, lo, hi) == 0,
    decreases hi - lo,
{
    if lo < hi {
        lemma_zero_sum(nodes, n, lo + 1, hi);
    }
}

/// The leaves of the tree, as a multiset, are the boxes stored at `lo .. hi`.
proof fn lemma_leaf_slots(nodes: Seq<AABB>, n: int, lo: int, hi: int)
    requires
        nodes.len() == 2 * n - 1,
        n - 1 <= lo <= hi <= 2 * n - 1,
    ensures
        implicit_subtree_boxes(nodes, n, lo, hi) == nodes.subrange(lo, hi).to_multiset(),
    decreases hi - lo,
{
    broadcast use vstd::seq_lib::group_to_multiset_ensures;
    if lo == hi {
        assert(nodes.subrange(lo, hi) =~= Seq::<AABB>::empty());
        assert(Seq::<AABB>::empty().to_multiset() =~= Multiset::<AABB>::empty());
    } else {
        lemma_leaf_slots(nodes, n, lo + 1, hi);
        assert(nodes.subrange(lo, hi) =~= seq![nodes[lo]] + nodes.subrange(lo + 1, hi));
        vstd::seq_lib::lemma_multiset_commutative(seq![nodes[lo]], nodes.subrange(lo + 1, hi));
    }
}

/// A node's box holds every input box under it.
pub proof fn lemma_implicit_enclosed(nodes: Seq<AABB>, n: int, i: int)
    requires
        implicit_wf(nodes, n),
        0 <= i < 2 * n - 1,
    ensures
        all_enclosed(nodes[i], implicit_leaves(nodes, n, i)),
        all_wf(implicit_leaves(nodes, n, i)),
    decreases 2 * n - 1 - i,
{
    let s = implicit_leaves(nodes, n, i);
    if i >= n - 1 {
        assert(nodes[i].wf());
        assert(s == seq![nodes[i]]);
    } else {
        assert(implicit_branch_ok(nodes, i));
        lemma_implicit_enclosed(nodes, n, 2 * i + 1);
        lemma_implicit_enclosed(nodes, n, 2 * i + 2);
        let sl = implicit_leaves(nodes, n, 2 * i + 1);
        let sr = implicit_leaves(nodes, n, 2 * i + 2);
        assert(s == sl + sr);
        assert(nodes[2 * i + 1].wf() && nodes[2 * i + 2].wf());
        assert forall|k: int| 0 <= k < s.len() implies #[trigger] encloses(nodes[i], s[k]) by {
            if k < sl.len() {
                assert(encloses(nodes[2 * i + 1], sl[k]));
            } else {
                assert(encloses(nodes[2 * i + 2], sr[k - sl.len()]));
            }
        }
        assert forall|k: int| 0 <= k < s.len() implies (#[trigger] s[k]).wf() by {
            if k < sl.len() {
                assert(sl[k].wf());
            } else {
                assert(sr[k - sl.len()].wf());
            }
        }
    }
}

/// A complete binary tree kept implicitly in one array: node `i` has children
/// `2i + 1` and `2i + 2`, and the `n` leaves, sorted by spatial key, fill the tail
/// of the array from index `n - 1`.
pub struct BVH {
    nodes: Vec<AABB>,
    leaf_count: usize,
    boxes: Ghost<Seq<AABB>>,
}

impl View for BVH {
    type V = Seq<AABB>;

    /// The boxes of the last build, in the order they were given.
    closed spec fn view(&self) -> Seq<AABB> {
        self.boxes@
    }
}

impl BVH {
    /// The node array.
    pub closed spec fn array(&self) -> Seq<AABB> {
        self.nodes@
    }

    pub closed spec fn leaves(&self) -> int {
        self.leaf_count as int
    }

    pub closed spec fn wf(&self) -> bool {
        let n = self.leaf_count as int;
        &&& n == self.boxes@.len()
        &&& implicit_wf(self.nodes@, n)
        &&& all_wf(self.boxes@)
        &&& fits(n)
        &&& n > 0 ==> implicit_leaves(self.nodes@, n, 0).to_multiset() == self.boxes@.to_multiset()
        &&& n > 0 ==> self.nodes@.subrange(n - 1, 2 * n - 1).to_multiset() == self.boxes@.to_multiset()
        &&& n > 0 ==> keys_ordered(self.nodes@.subrange(n - 1, 2 * n - 1))
    }

    /// The shape of the tree: `2n - 1` well-formed boxes; the leaf slots
    /// `n - 1 .. 2n - 1` hold exactly the boxes built from, in non-decreasing
    /// spatial-key order; each branch `i < n - 1` holds the union of its
    /// children `2i + 1` and `2i + 2`, and every slot but the root `0` is a child
    /// of exactly one branch, its parent `(j - 1) / 2`.
    pub proof fn lemma_shape(&self)
        requires
            self.wf(),
        ensures
            self.leaves() == self@.len(),
            implicit_wf(self.array(), self.leaves()),
            self.leaves() > 0 ==> self.array().subrange(self.leaves() - 1, 2 * self.leaves() - 1).to_multiset()
                == self@.to_multiset(),
            self.leaves() > 0 ==> keys_ordered(
                self.array().subrange(self.leaves() - 1, 2 * self.leaves() - 1),
            ),
            forall|i: int, j: int|
                0 <= i < self.leaves() - 1 && 0 <= j < self.array().len() ==> (#[trigger] implicit_child(i, j)
                    <==> (j >= 1 && i == (j - 1) / 2)),
            forall|j: int| 1 <= j < self.array().len() ==> 0 <= #[trigger] ((j - 1) / 2) < self.leaves() - 1,
    {
        let n = self.leaves();
        assert forall|j: int| 1 <= j < self.array().len() implies 0 <= #[trigger] ((j - 1) / 2) < n - 1 by {
            assert(self.array().len() == 2 * n - 1);
        }
    }

    /// With distinct spatial keys the array depends only on which boxes were
    /// built from: a rebuild equals a fresh build.
    pub proof fn lemma_same_array(a: &BVH, b: &BVH)
        requires
            a.wf(),
            b.wf(),
            a@.to_multiset() == b@.to_multiset(),
            keys_distinct(a@),
        ensures
            a.array() == b.array(),
    {
        broadcast use vstd::seq_lib::group_to_multiset_ensures;
        assert(a@.len() == a@.to_multiset().len());
        assert(b@.len() == b@.to_multiset().len());
        let n = a.leaf_count as int;
        if n == 0 {
            assert(a.nodes@ =~= b.nodes@);
        } else {
            let la = a.nodes@.subrange(n - 1, 2 * n - 1);
            let lb = b.nodes@.subrange(n - 1, 2 * n - 1);
            lemma_distinct_permutation(a@, la);
            lemma_sorted_unique(la, lb);
            assert forall|i: int| n - 1 <= i < 2 * n - 1 implies #[trigger] a.nodes@[i] == b.nodes@[i] by {
                assert(la[i - (n - 1)] == lb[i - (n - 1)]);
            }
            BVH::lemma_same_suffix(a, b, 0);
            assert(a.nodes@ =~= b.nodes@);
        }
    }

    proof fn lemma_same_suffix(a: &BVH, b: &BVH, k: int)
        requires
            a.wf(),
            b.wf(),
            a.leaf_count == b.leaf_count,
            a.leaf_count > 0,
            0 <= k <= a.leaf_count - 1,
            forall|i: int| a.leaf_count - 1 <= i < 2 * a.leaf_count - 1 ==> #[trigger] a.nodes@[i] == b.nodes@[i],
        ensures
            forall|i: int| k <= i < 2 * a.leaf_count - 1 ==> #[trigger] a.nodes@[i] == b.nodes@[i],
        decreases a.leaf_count - 1 - k,
    {
        let n = a.leaf_count as int;
        if k < n - 1 {
            BVH::lemma_same_suffix(a, b, k + 1);
            assert(implicit_branch_ok(a.nodes@, k));
            assert(implicit_branch_ok(b.nodes@, k));
            assert(a.nodes@[2 * k + 1] == b.nodes@[2 * k + 1]);
            assert(a.nodes@[2 * k + 2] == b.nodes@[2 * k + 2]);
        }
    }

    /// The parent of node `index`.
    pub fn get_parent(index: usize) -> (r: usize)
        requires
            index > 0,
        ensures
            r == (index - 1) / 2,
    {
        (index - 1) / 2
    }

    /// The two children of node `index`.
    pub fn get_childs(index: usize) -> (r: (usize, usize))
        requires
            2 * index + 2 <= usize::MAX,
        ensures
            r.0 == 2 * index + 1,
            r.1 == 2 * index + 2,
    {
        (2 * index + 1, 2 * index + 2)
    }

    /// Whether node `index` of an array of `len` nodes is a leaf.
    pub fn is_leaf(index: usize, len: usize) -> (r: bool)
        ensures
            r == (index >= len / 2),
    {
        index >= len / 2
    }

    /// An empty tree.
    pub fn new() -> (r: BVH)
        ensures
            r.wf(),
            r@ == Seq::<AABB>::empty(),
    {
        BVH { nodes: Vec::new(), leaf_count: 0, boxes: Ghost(Seq::empty()) }
    }

    /// Rebuilds the tree from `leaves`. Fails, leaving the tree as it was, when
    /// the boxes do not fit.
    pub fn build(&mut self, leaves: Vec<AABB>) -> (r: Result<(), BuildError>)
        requires
            old(self).wf(),
            all_wf(leaves@),
        ensures
            r is Ok <==> fits(leaves@.len() as int),
            r is Ok ==> final(self)@ == leaves@,
            r is Err ==> final(self)@ == old(self)@,
            final(self).wf(),
    {
        let n = leaves.len();
        if !check_capacity(n) {
            return Err(BuildError::Capacity);
        }
        if n == 0 {
            self.nodes = Vec::new();
            self.leaf_count = 0;
            self.boxes = Ghost(leaves@);
            return Ok(());
        }
        proof {
            assert(n <= 1 || 2 * n <= n * n) by (nonlinear_arith);
        }
        let mut keyed = key_boxes_par(&leaves);
        proof {
            assert(boxes_of(keyed@) =~= leaves@);
        }
        let ghost unsorted = keyed@;
        par_sort_by_key(&mut keyed);
        proof {
            lemma_sorted_boxes(keyed@, unsorted, leaves@);
        }
        let leaf_start = n - 1;
        let mut nodes: Vec<AABB> = Vec::new();
        let mut i: usize = 0;
        while i < leaf_start
            invariant
                i <= leaf_start,
                nodes@.len() == i,
                all_wf(nodes@),
            decreases leaf_start - i,
        {
            nodes.push(AABB::empty());
            i = i + 1;
        }
        let mut k: usize = 0;
        while k < n
            invariant
                leaf_start == n - 1,
                k <= n,
                keyed@.len() == n,
                nodes@.len() == leaf_start + k,
                all_wf(nodes@),
                all_wf(boxes_of(keyed@)),
                forall|j: int| 0 <= j < k ==> #[trigger] nodes@[leaf_start + j] == keyed@[j].1,
            decreases n - k,
        {
            assert(boxes_of(keyed@)[k as int].wf());
            nodes.push(keyed[k].1);
            k = k + 1;
        }
        proof {
            assert forall|j: int| 0 <= j < n implies #[trigger] nodes@.subrange(leaf_start as int, 2 * n - 1)[j]
                == boxes_of(keyed@)[j] by {
                assert(nodes@[leaf_start + j] == keyed@[j].1);
            }
            assert(nodes@.subrange(leaf_start as int, 2 * n - 1) =~= boxes_of(keyed@));
        }
        let ghost leaf_part = nodes@.subrange(leaf_start as int, 2 * n - 1);
        let mut idx: usize = leaf_start;
        while idx > 0
            invariant
                n >= 1,
                2 * n <= usize::MAX,
                leaf_start == n - 1,
                idx <= leaf_start,
                nodes@.len() == 2 * n - 1,
                all_wf(nodes@),
                nodes@.subrange(leaf_start as int, 2 * n - 1) == leaf_part,
                forall|j: int| idx <= j < n - 1 ==> #[trigger] implicit_branch_ok(nodes@, j),
            decreases idx,
        {
            let i = idx - 1;
            let aabb = nodes[2 * i + 1].union(&nodes[2 * i + 2]);
            proof {
                assert(nodes@[2 * i + 1].wf() && nodes@[2 * i + 2].wf());
            }
            let ghost before = nodes@;
            nodes.set(i, aabb);
            proof {
                assert forall|j: int| i <= j < n - 1 implies #[trigger] implicit_branch_ok(nodes@, j) by {
                    if j > i {
                        assert(implicit_branch_ok(before, j));
                    }
                }
                assert(nodes@.subrange(leaf_start as int, 2 * n - 1) =~= before.subrange(
                    leaf_start as int,
                    2 * n - 1,
                ));
                assert forall|k: int| 0 <= k < nodes@.len() implies (#[trigger] nodes@[k]).wf() by {
                    if k != i {
                        assert(before[k].wf());
                    }
                }
            }
            idx = i;
        }
        proof {
            let nn = n as int;
            lemma_frontier(nodes@, nn, 0);
            lemma_leaf_slots(nodes@, nn, nn - 1, 2 * nn - 1);
            assert(implicit_subtree_boxes(nodes@, nn, 1, 1) == Multiset::<AABB>::empty());
            assert(implicit_subtree_boxes(nodes@, nn, 0, 1) == implicit_leaves(nodes@, nn, 0).to_multiset().add(
                implicit_subtree_boxes(nodes@, nn, 1, 1),
            ));
            assert(implicit_subtree_boxes(nodes@, nn, 0, 1) =~= implicit_leaves(nodes@, nn, 0).to_multiset());
        }
        self.nodes = nodes;
        self.leaf_count = n;
        self.boxes = Ghost(leaves@);
        Ok(())
    }

    /// The sum over the branches, whichever order the parallel traversal takes
    /// them in, counts the pairs under the root: those of the boxes last built.
    pub proof fn lemma_traversals_agree(&self)
        requires
            self.wf(),
            self.leaves() > 0,
        ensures
            implicit_branch_sum(self.array(), self.leaves(), 0, self.leaves() - 1) == pair_count(
                implicit_leaves(self.array(), self.leaves(), 0),
            ),
            pair_count(implicit_leaves(self.array(), self.leaves(), 0)) == pair_count(self@),
    {
        self.lemma_count();
        let n = self.leaf_count as int;
        lemma_frontier(self.nodes@, n, 0);
        assert(implicit_subtree_pairs(self.nodes@, n, 1, 1) == 0);
        assert(implicit_subtree_pairs(self.nodes@, n, 0, 1) == pair_count(implicit_leaves(self.nodes@, n, 0))
            + implicit_subtree_pairs(self.nodes@, n, 1, 1));
        lemma_pair_count_permutation(implicit_leaves(self.nodes@, n, 0), self@);
    }

    proof fn lemma_count(&self)
        requires
            self.wf(),
            self.leaf_count > 0,
        ensures
            implicit_branch_sum(self.nodes@, self.leaf_count as int, 0, self.leaf_count - 1)
                == pair_count(self@),
            pair_count(self@) <= usize::MAX,
            forall|i: int| 0 <= i < self.leaf_count - 1 ==> #[trigger] implicit_cross(self.nodes@, self.leaf_count as int, i) <= usize::MAX,
    {
        let n = self.leaf_count as int;
        lemma_frontier(self.nodes@, n, 0);
        assert(implicit_subtree_pairs(self.nodes@, n, 1, 1) == 0);
        assert(implicit_subtree_pairs(self.nodes@, n, 0, 1) == pair_count(implicit_leaves(self.nodes@, n, 0)));
        lemma_pair_count_permutation(implicit_leaves(self.nodes@, n, 0), self@);
        lemma_pair_count_bound(self@);
        assert forall|i: int| 0 <= i < n - 1 implies #[trigger] implicit_cross(self.nodes@, n, i) <= usize::MAX by {
            crate::sums::lemma_sum_range_term(|j: int| implicit_cross(self.nodes@, n, j), 0, n - 1, i);
        }
    }

    /// The number of intersecting pairs: the pairs each branch joins, the
    /// branches taken in parallel in increasing index order.
    pub fn get_collision_par(&self) -> (r: usize)
        requires
            self.wf(),
        ensures
            r == pair_count(self@),
    {
        if self.leaf_count == 0 {
            return 0;
        }
        proof {
            self.lemma_count();
        }
        par_implicit_sum(self, self.leaf_count - 1)
    }

    /// The number of intersecting pairs, the branches taken in parallel in
    /// decreasing index order.
    pub fn get_collision_rev_par(&self) -> (r: usize)
        requires
            self.wf(),
        ensures
            r == pair_count(self@),
    {
        if self.leaf_count == 0 {
            return 0;
        }
        proof {
            self.lemma_count();
        }
        par_implicit_sum_rev(self, self.leaf_count - 1)
    }

    /// The pairs that branch `i` joins.
    pub fn branch_collisions(&self, i: usize) -> (r: usize)
        requires
            self.wf(),
            i + 1 < self.leaves(),
            implicit_cross(self.array(), self.leaves(), i as int) <= usize::MAX,
        ensures
            r == implicit_cross(self.array(), self.leaves(), i as int),
    {
        let mut output: usize = 0;
        proof {
            let n = self.leaf_count as int;
            assert(n * n <= usize::MAX);
            assert(2 * n <= n * n) by (nonlinear_arith)
                requires n >= 2;
        }
        self.recursive_collision_between_nodes(2 * i + 1, 2 * i + 2, &mut output);
        output
    }

    /// Adds to `output` the intersecting pairs with one box under `left` and the
    /// other under `right`.
    pub fn recursive_collision_between_nodes(&self, left: usize, right: usize, output: &mut usize)
        requires
            self.wf(),
            left < self.array().len(),
            right < self.array().len(),
            *old(output) + cross(
                implicit_leaves(self.array(), self.leaves(), left as int),
                implicit_leaves(self.array(), self.leaves(), right as int),
            ) <= usize::MAX,
        ensures
            *final(output) == *old(output) + cross(
                implicit_leaves(self.array(), self.leaves(), left as int),
                implicit_leaves(self.array(), self.leaves(), right as int),
            ),
        decreases 2 * self.array().len() - left - right,
    {
        let ghost nodes = self.nodes@;
        let ghost n = self.leaf_count as int;
        let len = self.nodes.len();
        let ln = self.nodes[left];
        let rn = self.nodes[right];
        if !ln.intersects(&rn) {
            proof {
                lemma_implicit_enclosed(nodes, n, left as int);
                lemma_implicit_enclosed(nodes, n, right as int);
                lemma_cross_disjoint(
                    ln,
                    implicit_leaves(nodes, n, left as int),
                    rn,
                    implicit_leaves(nodes, n, right as int),
                );
            }
            return ;
        }
        let left_leaf = BVH::is_leaf(left, len);
        let right_leaf = BVH::is_leaf(right, len);
        if left_leaf && right_leaf {
            proof {
                lemma_cross_single(ln, rn);
            }
            *output = *output + 1;
        } else if !left_leaf && right_leaf {
            let (ll, lr) = BVH::get_childs(left);
            proof {
                lemma_cross_concat_left(
                    implicit_leaves(nodes, n, ll as int),
                    implicit_leaves(nodes, n, lr as int),
                    implicit_leaves(nodes, n, right as int),
                );
            }
            self.recursive_collision_between_nodes(ll, right, output);
            self.recursive_collision_between_nodes(lr, right, output);
        } else if left_leaf && !right_leaf {
            let (rl, rr) = BVH::get_childs(right);
            proof {
                lemma_cross_concat_right(
                    implicit_leaves(nodes, n, left as int),
                    implicit_leaves(nodes, n, rl as int),
                    implicit_leaves(nodes, n, rr as int),
                );
            }
            self.recursive_collision_between_nodes(left, rl, output);
            self.recursive_collision_between_nodes(left, rr, output);
        } else {
            let (ll, lr) = BVH::get_childs(left);
            let (rl, rr) = BVH::get_childs(right);
            proof {
                let a = implicit_leaves(nodes, n, ll as int);
                let b = implicit_leaves(nodes, n, lr as int);
                let c = implicit_leaves(nodes, n, rl as int);
                let d = implicit_leaves(nodes, n, rr as int);
                lemma_cross_concat_left(a, b, c + d);
                lemma_cross_concat_right(a, c, d);
                lemma_cross_concat_right(b, c, d);
            }
            self.recursive_collision_between_nodes(ll, rl, output);
            self.recursive_collision_between_nodes(ll, rr, output);
            self.recursive_collision_between_nodes(lr, rl, output);
            self.recursive_collision_between_nodes(lr, rr, output);
        }
    }
}

/// Relies on rayon's `into_par_iter().map().sum()` over a range: the sum of the
/// mapped values, each computed by a verified function.
#[verifier::external_body]
fn par_implicit_sum(tree: &BVH, branches: usize) -> (r: usize)
    requires
        tree.wf(),
        tree.leaves() > 0,
        branches == tree.leaves() - 1,
        forall|i: int| 0 <= i < branches ==> #[trigger] implicit_cross(tree.array(), tree.leaves(), i) <= usize::MAX,
        implicit_branch_sum(tree.array(), tree.leaves(), 0, branches as int) <= usize::MAX,
    ensures
        r == implicit_branch_sum(tree.array(), tree.leaves(), 0, branches as int),
{
    (0..branches).into_par_iter().map(|i| tree.branch_collisions(i)).sum()
}

/// Relies on rayon's `into_par_iter().rev().map().sum()` over a range: the sum
/// of the mapped values, each computed by a verified function, in any order.
#[verifier::external_body]
fn par_implicit_sum_rev(tree: &BVH, branches: usize) -> (r: usize)
    requires
        tree.wf(),
        tree.leaves() > 0,
        branches == tree.leaves() - 1,
        forall|i: int| 0 <= i < branches ==> #[trigger] implicit_cross(tree.array(), tree.leaves(), i) <= usize::MAX,
        implicit_branch_sum(tree.array(), tree.leaves(), 0, branches as int) <= usize::MAX,
    ensures
        r == implicit_branch_sum(tree.array(), tree.leaves(), 0, branches as int),
{
    (0..branches).into_par_iter().rev().map(|i| tree.branch_collisions(i)).sum()
}

} // verus!
