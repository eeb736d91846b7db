use vstd::prelude::*;
use crate::arena::{
    arena_wf, branch_sum, check_capacity, collide_nodes, fits, has_child, leaf_boxes, leaf_nodes, leaf_seq, node_cross,
    node_wf, subtree_boxes, subtree_pairs, visit_nodes, BuildError, Node, NodeKind,
};
use crate::count::{
    all_wf, lemma_pair_count_bound, lemma_pair_count_permutation, pair_count,
};
use crate::keys::{
    boxes_of, key_boxes, key_boxes_par, keys_distinct, keys_ordered,
    lemma_distinct_permutation, lemma_sorted_boxes, lemma_sorted_unique, par_sort_by_key,
    sort_by_key,
};
use crate::position::AABB;

verus! {

/// A tree built by sorting the leaves once by spatial key and then joining the
/// open nodes two by two, oldest first, until one root is left. Leaves occupy the
/// front of the arena and branches follow them.
pub struct BVH {
    nodes: Vec<Node>,
    start_of_branches: usize,
    boxes: Ghost<Seq<AABB>>,
}

impl View for BVH {
    type V = Seq<AABB>;

    /// The boxes of the last build, in the order they were given.
    closed spec fn view(&self) -> Seq<AABB> {
        self.boxes@
    }
}

impl BVH {
    /// The node arena.
    pub closed spec fn arena(&self) -> Seq<Node> {
        self.nodes@
    }

    /// Index of the first branch.
    pub closed spec fn branch_start(&self) -> int {
        self.start_of_branches as int
    }

    pub closed spec fn wf(&self) -> bool {
        let n = self.boxes@.len();
        let nodes = self.nodes@;
        &&& arena_wf(nodes)
        &&& all_wf(self.boxes@)
        &&& fits(n as int)
        &&& self.start_of_branches == n
        &&& n <= nodes.len()
        &&& forall|k: int| 0 <= k < n ==> (#[trigger] nodes[k]).kind == NodeKind::Leaf
        &&& forall|k: int| n <= k < nodes.len() ==> (#[trigger] nodes[k]).kind == NodeKind::Branch(
            (2 * (k - n)) as usize,
            (2 * (k - n) + 1) as usize,
        )
        &&& leaf_boxes(nodes, n as int).to_multiset() == self.boxes@.to_multiset()
        &&& keys_ordered(leaf_boxes(nodes, n as int))
        &&& n == 0 ==> nodes.len() == 0
        &&& n > 0 ==> {
            &&& nodes.len() == 2 * n - 1
            &&& leaf_seq(nodes, nodes.len() - 1).to_multiset() == self.boxes@.to_multiset()
            &&& branch_sum(nodes, n as int, nodes.len() as int) == pair_count(
                leaf_seq(nodes, nodes.len() - 1),
            )
        }
    }

    /// An empty tree.
    pub fn new() -> (r: BVH)
        ensures
            r.wf(),
            r@ == Seq::<AABB>::empty(),
    {
        let r = BVH { nodes: Vec::new(), start_of_branches: 0, boxes: Ghost(Seq::empty()) };
        proof {
            assert(leaf_boxes(r.nodes@, 0) =~= Seq::<AABB>::empty());
        }
        r
    }

    /// Rebuilds the tree from `leaves`, computing the keys and sorting on this
    /// thread. Fails, leaving the tree as it was, when the boxes do not fit.
    pub fn build(&mut self, leaves: Vec<AABB>) -> (r: Result<(), BuildError>)
        requires
            old(self).wf(),
            all_wf(leaves@),
        ensures
            r is Ok <==> fits(leaves@.len() as int),
            r is Ok ==> final(self)@ == leaves@,
            r is Err ==> final(self)@ == old(self)@,
            final(self).wf(),
    {
        self.build_with(leaves, false)
    }

    /// Rebuilds the tree from `leaves`, computing the keys and sorting in
    /// parallel. Fails, leaving the tree as it was, when the boxes do not fit.
    pub fn build_par(&mut self, leaves: Vec<AABB>) -> (r: Result<(), BuildError>)
        requires
            old(self).wf(),
            all_wf(leaves@),
        ensures
            r is Ok <==> fits(leaves@.len() as int),
            r is Ok ==> final(self)@ == leaves@,
            r is Err ==> final(self)@ == old(self)@,
            final(self).wf(),
    {
        self.build_with(leaves, true)
    }

    fn build_with(&mut self, leaves: Vec<AABB>, parallel: bool) -> (r: Result<(), BuildError>)
        requires
            old(self).wf(),
            all_wf(leaves@),
        ensures
            r is Ok <==> fits(leaves@.len() as int),
            r is Ok ==> final(self)@ == leaves@,
            r is Err ==> final(self)@ == old(self)@,
            final(self).wf(),
    {
        let n = leaves.len();
        if !check_capacity(n) {
            return Err(BuildError::Capacity);
        }
        let mut keyed = if parallel { key_boxes_par(&leaves) } else { key_boxes(&leaves) };
        proof {
            assert(boxes_of(keyed@) =~= leaves@);
        }
        let ghost unsorted = keyed@;
        if parallel {
            par_sort_by_key(&mut keyed);
        } else {
            sort_by_key(&mut keyed);
        }
        proof {
            lemma_sorted_boxes(keyed@, unsorted, leaves@);
        }
        let mut nodes = leaf_nodes(&keyed);
        proof {
            assert(leaf_boxes(nodes@, n as int) =~= boxes_of(keyed@));
        }
        let ghost leaf_part = nodes@;
        merge_levels(&mut nodes, n);
        proof {
            assert(leaf_boxes(nodes@, n as int) =~= leaf_boxes(leaf_part, n as int));
        }
        self.nodes = nodes;
        self.start_of_branches = n;
        self.boxes = Ghost(leaves@);
        Ok(())
    }

    /// The number of intersecting pairs, by a recursive visit from the root.
    pub fn get_collision_recursive(&self) -> (r: usize)
        requires
            self.wf(),
        ensures
            r == pair_count(self@),
    {
        let mut output: usize = 0;
        let len = self.nodes.len();
        if len > 0 {
            proof {
                self.lemma_root_count();
                assert(node_wf(self.nodes@, len - 1));
            }
            if let NodeKind::Branch(l, r) = self.nodes[len - 1].kind {
                self.recursive_visit(l, r, &mut output);
            } else {
                proof {
                    crate::count::lemma_pair_count_single(self.nodes@[len - 1].aabb);
                }
            }
        }
        output
    }

    /// The shape of the tree: the `n` leaves first, exactly the boxes built from
    /// in non-decreasing spatial-key order; then `n - 1` branches, branch `n + m`
    /// joining nodes `2m` and `2m + 1` with the union of their boxes. So every
    /// node but the last, the root, is a child of exactly one branch.
    pub proof fn lemma_shape(&self)
        requires
            self.wf(),
        ensures
            self.branch_start() == self@.len(),
            self@.len() == 0 ==> self.arena().len() == 0,
            self@.len() > 0 ==> self.arena().len() == 2 * self@.len() - 1,
            arena_wf(self.arena()),
            forall|k: int| 0 <= k < self@.len() ==> (#[trigger] self.arena()[k]).kind == NodeKind::Leaf,
            leaf_boxes(self.arena(), self@.len() as int).to_multiset() == self@.to_multiset(),
            keys_ordered(leaf_boxes(self.arena(), self@.len() as int)),
            forall|k: int| self@.len() <= k < self.arena().len() ==> (#[trigger] self.arena()[k]).kind
                == NodeKind::Branch(
                (2 * (k - self@.len())) as usize,
                (2 * (k - self@.len()) + 1) as usize,
            ),
            forall|j: int, k: int|
                0 <= j < self.arena().len() - 1 && 0 <= k < self.arena().len() ==> (#[trigger] has_child(
                    self.arena(),
                    k,
                    j,
                ) <==> k == self@.len() + j / 2),
    {
        let n = self@.len() as int;
        let u = self.arena();
        assert forall|j: int, k: int|
            0 <= j < u.len() - 1 && 0 <= k < u.len() implies (#[trigger] has_child(u, k, j) <==> k == n
            + j / 2) by {
            if k >= n {
                assert(u[k].kind == NodeKind::Branch((2 * (k - n)) as usize, (2 * (k - n) + 1) as usize));
            } else {
                assert(u[k].kind == NodeKind::Leaf);
            }
            assert(2 * n * 1 <= usize::MAX || n <= 1) by (nonlinear_arith)
                requires n * n <= usize::MAX;
        }
    }

    /// With distinct spatial keys the arena depends only on which boxes were
    /// built from: a rebuild equals a fresh build, and `build` equals
    /// `build_par`.
    pub proof fn lemma_same_arena(a: &BVH, b: &BVH)
        requires
            a.wf(),
            b.wf(),
            a@.to_multiset() == b@.to_multiset(),
            keys_distinct(a@),
        ensures
            a.arena() == b.arena(),
            a.branch_start() == b.branch_start(),
    {
        broadcast use vstd::seq_lib::group_to_multiset_ensures;
        assert(a@.len() == a@.to_multiset().len());
        assert(b@.len() == b@.to_multiset().len());
        let n = a@.len() as int;
        let la = leaf_boxes(a.nodes@, n);
        let lb = leaf_boxes(b.nodes@, n);
        lemma_distinct_permutation(a@, la);
        lemma_sorted_unique(la, lb);
        BVH::lemma_same_prefix(a, b, a.nodes@.len() as int);
        assert(a.nodes@ =~= b.nodes@);
    }

    proof fn lemma_same_prefix(a: &BVH, b: &BVH, k: int)
        requires
            a.wf(),
            b.wf(),
            a@.len() == b@.len(),
            leaf_boxes(a.nodes@, a@.len() as int) == leaf_boxes(b.nodes@, b@.len() as int),
            0 <= k <= a.nodes@.len(),
        ensures
            forall|i: int| 0 <= i < k ==> #[trigger] a.nodes@[i] == b.nodes@[i],
        decreases k,
    {
        let n = a@.len() as int;
        if k > 0 {
            BVH::lemma_same_prefix(a, b, k - 1);
            let i = k - 1;
            if i < n {
                assert(leaf_boxes(a.nodes@, n)[i] == a.nodes@[i].aabb);
                assert(leaf_boxes(b.nodes@, n)[i] == b.nodes@[i].aabb);
            } else {
                assert(node_wf(a.nodes@, i));
                assert(node_wf(b.nodes@, i));
                let l = 2 * (i - n);
                assert(a.nodes@[l] == b.nodes@[l]);
                assert(a.nodes@[l + 1] == b.nodes@[l + 1]);
            }
        }
    }

    /// The parallel traversal's sum over the branches and the recursive visit
    /// from the root count the same pairs: those of the boxes last built.
    pub proof fn lemma_traversals_agree(&self)
        requires
            self.wf(),
            self.arena().len() > 0,
        ensures
            branch_sum(self.arena(), self.branch_start(), self.arena().len() as int) == pair_count(
                leaf_seq(self.arena(), self.arena().len() - 1),
            ),
            pair_count(leaf_seq(self.arena(), self.arena().len() - 1)) == pair_count(self@),
    {
        self.lemma_root_count();
    }

    proof fn lemma_root_count(&self)
        requires
            self.wf(),
            self.nodes@.len() > 0,
        ensures
            pair_count(leaf_seq(self.nodes@, self.nodes@.len() - 1)) == pair_count(self@),
            pair_count(self@) <= usize::MAX,
    {
        let root = leaf_seq(self.nodes@, self.nodes@.len() - 1);
        lemma_pair_count_permutation(root, self@);
        lemma_pair_count_bound(self@);
    }

    /// The number of intersecting pairs, as the sum over every branch of the
    /// pairs it joins, the branches taken in parallel.
    pub fn get_collision_par(&self) -> (r: usize)
        requires
            self.wf(),
        ensures
            r == pair_count(self@),
    {
        let len = self.nodes.len();
        if len == 0 {
            return 0;
        }
        proof {
            self.lemma_root_count();
            crate::arena::lemma_branch_sum_term(self.nodes@, self.start_of_branches as int, len as int);
        }
        crate::arena::par_branch_sum(&self.nodes, self.start_of_branches, len)
    }

    /// Adds to `output` the intersecting pairs under `left` and `right` taken
    /// together.
    pub fn recursive_visit(&self, left: usize, right: usize, output: &mut usize)
        requires
            self.wf(),
            left < self.arena().len(),
            right < self.arena().len(),
            *old(output) + pair_count(
                leaf_seq(self.arena(), left as int) + leaf_seq(self.arena(), right as int),
            ) <= usize::MAX,
        ensures
            *final(output) == *old(output) + pair_count(
                leaf_seq(self.arena(), left as int) + leaf_seq(self.arena(), right as int),
            ),
    {
        visit_nodes(&self.nodes, left, right, output);
    }

    /// Adds to `output` the intersecting pairs with one box under `left` and the
    /// other under `right`.
    pub fn recursive_collision_between_nodes(&self, left: usize, right: usize, output: &mut usize)
        requires
            self.wf(),
            left < self.arena().len(),
            right < self.arena().len(),
            *old(output) + node_cross(self.arena(), left as int, right as int) <= usize::MAX,
        ensures
            *final(output) == *old(output) + node_cross(self.arena(), left as int, right as int),
    {
        collide_nodes(&self.nodes, left, right, output);
    }
}

/// Joins the open nodes two by two, oldest first, each join appending a branch,
/// until at most one open node is left. The open nodes are those from `begin`
/// to the end of the arena; at the start they are the `n` leaves.
fn merge_levels(nodes: &mut Vec<Node>, n: usize)
    requires
        arena_wf(old(nodes)@),
        old(nodes)@.len() == n,
        fits(n as int),
        forall|k: int| 0 <= k < n ==> (#[trigger] old(nodes)@[k]).kind == NodeKind::Leaf,
        subtree_pairs(old(nodes)@, 0, n as int) == 0,
    ensures
        arena_wf(final(nodes)@),
        n <= final(nodes)@.len(),
        forall|k: int| 0 <= k < n ==> #[trigger] final(nodes)@[k] == old(nodes)@[k],
        forall|k: int| n <= k < final(nodes)@.len() ==> (#[trigger] final(nodes)@[k]).kind
            == NodeKind::Branch((2 * (k - n)) as usize, (2 * (k - n) + 1) as usize),
        n == 0 ==> final(nodes)@.len() == 0,
        n > 0 ==> final(nodes)@.len() == 2 * n - 1,
        n > 0 ==> leaf_seq(final(nodes)@, final(nodes)@.len() - 1).to_multiset() == subtree_boxes(
            old(nodes)@,
            0,
            n as int,
        ),
        n > 0 ==> branch_sum(final(nodes)@, n as int, final(nodes)@.len() as int) == pair_count(
            leaf_seq(final(nodes)@, final(nodes)@.len() - 1),
        ),
{
    let ghost initial = subtree_boxes(nodes@, 0, n as int);
    let ghost start = nodes@;
    let mut begin: usize = 0;
    proof {
        assert(n * n <= usize::MAX);
        assert(n <= 1 || 2 * n <= n * n) by (nonlinear_arith);
        assert(branch_sum(nodes@, n as int, n as int) == 0);
    }
    while nodes.len() - begin >= 2
        invariant
            arena_wf(nodes@),
            fits(n as int),
            n <= 1 || 2 * n <= usize::MAX,
            begin % 2 == 0,
            begin <= nodes@.len(),
            nodes@.len() == n + begin / 2,
            begin / 2 < n || n == 0,
            forall|k: int| 0 <= k < n ==> #[trigger] nodes@[k] == start[k],
            forall|k: int| n <= k < nodes@.len() ==> (#[trigger] nodes@[k]).kind == NodeKind::Branch(
                (2 * (k - n)) as usize,
                (2 * (k - n) + 1) as usize,
            ),
            subtree_boxes(nodes@, begin as int, nodes@.len() as int) == initial,
            branch_sum(nodes@, n as int, nodes@.len() as int) == subtree_pairs(
                nodes@,
                begin as int,
                nodes@.len() as int,
            ),
        decreases nodes@.len() - begin,
    {
        let len = nodes.len();
        let left = begin;
        let right = begin + 1;
        let aabb = nodes[left].aabb.union(&nodes[right].aabb);
        let node = Node { aabb, kind: NodeKind::Branch(left, right) };
        proof {
            crate::arena::lemma_join_front(nodes@, begin as int, node, n as int);
        }
        nodes.push(node);
        begin = begin + 2;
    }
    proof {
        if n > 0 {
            let len = nodes@.len() as int;
            assert(begin == len - 1);
            assert(subtree_boxes(nodes@, len, len) == vstd::multiset::Multiset::<AABB>::empty());
            assert(subtree_boxes(nodes@, begin as int, len) == leaf_seq(nodes@, len - 1).to_multiset().add(
                subtree_boxes(nodes@, len, len),
            ));
            assert(subtree_boxes(nodes@, begin as int, len) =~= leaf_seq(nodes@, len - 1).to_multiset());
            assert(subtree_pairs(nodes@, len, len) == 0);
            assert(subtree_pairs(nodes@, begin as int, len) == pair_count(leaf_seq(nodes@, len - 1))
                + subtree_pairs(nodes@, len, len));
        }
    }
}

} // verus!
