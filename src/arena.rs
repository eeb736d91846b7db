use vstd::prelude::*;
use vstd::multiset::Multiset;
use rayon::iter::{IntoParallelIterator, ParallelIterator};
use crate::count::{
    all_enclosed, all_wf, cross, pair_count, lemma_cross_concat_left, lemma_cross_concat_right,
    lemma_cross_disjoint, lemma_cross_single, lemma_pair_count_concat, lemma_pair_count_single, lemma_multiset_map,
};
use crate::keys::boxes_of;
use crate::sums::{bag_sum, nat_sum, lemma_bag_sum_permutation, lemma_nat_sum_permutation};
use crate::position::{AABB, hull, encloses};
use crate::sums::{
    sum_range, union_range, lemma_sum_range_ext, lemma_sum_range_push, lemma_union_range_ext,
    lemma_union_range_push,
};

verus! {

/// Whether a node wraps one input box or joins two other nodes of the arena.
#[derive(Clone, Copy, Debug, PartialEq, Eq, Structural)]
pub enum NodeKind {
    Leaf,
    Branch(usize, usize),
}

/// A node of an arena: its box, and its children by index.
#[derive(Clone, Copy, Debug, PartialEq, Eq, Structural)]
pub struct Node {
    pub aabb: AABB,
    pub kind: NodeKind,
}

/// Node `i` has a well-formed box; a branch has children of lower index and the
/// exact union of their boxes.
pub open spec fn node_wf(nodes: Seq<Node>, i: int) -> bool {
    &&& nodes[i].aabb.wf()
    &&& match nodes[i].kind {
        NodeKind::Leaf => true,
        NodeKind::Branch(l, r) => l < i && r < i && nodes[i].aabb == hull(
            nodes[l as int].aabb,
            nodes[r as int].aabb,
        ),
    }
}

pub open spec fn arena_wf(nodes: Seq<Node>) -> bool {
    forall|i: int| 0 <= i < nodes.len() ==> #[trigger] node_wf(nodes, i)
}

/// The input boxes under node `i`, left subtree first.
pub open spec fn leaf_seq(nodes: Seq<Node>, i: int) -> Seq<AABB>
    decreases i,
{
    if 0 <= i < nodes.len() {
        match nodes[i].kind {
            NodeKind::Leaf => seq![nodes[i].aabb],
            NodeKind::Branch(l, r) => if l < i && r < i {
                leaf_seq(nodes, l as int) + leaf_seq(nodes, r as int)
            } else {
                Seq::empty()
            },
        }
    } else {
        Seq::empty()
    }
}

/// The intersecting pairs with one box under `a` and the other under `b`.
pub open spec fn node_cross(nodes: Seq<Node>, a: int, b: int) -> nat {
    cross(leaf_seq(nodes, a), leaf_seq(nodes, b))
}

/// The pairs that branch `i` joins: one box under each child (0 for a leaf).
pub open spec fn branch_cross(nodes: Seq<Node>, i: int) -> nat {
    match nodes[i].kind {
        NodeKind::Leaf => 0,
        NodeKind::Branch(l, r) => node_cross(nodes, l as int, r as int),
    }
}

/// The pairs joined by the nodes `lo .. hi`.
pub open spec fn branch_sum(nodes: Seq<Node>, lo: int, hi: int) -> nat {
    sum_range(|i: int| branch_cross(nodes, i), lo, hi)
}

/// The intersecting pairs inside each subtree rooted in `lo .. hi`, summed.
pub open spec fn subtree_pairs(nodes: Seq<Node>, lo: int, hi: int) -> nat {
    sum_range(|i: int| pair_count(leaf_seq(nodes, i)), lo, hi)
}

/// The input boxes under the roots `lo .. hi`.
pub open spec fn subtree_boxes(nodes: Seq<Node>, lo: int, hi: int) -> Multiset<AABB> {
    union_range(|i: int| leaf_seq(nodes, i).to_multiset(), lo, hi)
}

/// A node's box holds every input box under it.
pub proof fn lemma_leaf_seq_enclosed(nodes: Seq<Node>, i: int)
    requires
        arena_wf(nodes),
        0 <= i < nodes.len(),
    ensures
        all_enclosed(nodes[i].aabb, leaf_seq(nodes, i)),
        all_wf(leaf_seq(nodes, i)),
    decreases i,
{
    assert(node_wf(nodes, i));
    match nodes[i].kind {
        NodeKind::Leaf => {
            assert(leaf_seq(nodes, i) =~= seq![nodes[i].aabb]);
        },
        NodeKind::Branch(l, r) => {
            lemma_leaf_seq_enclosed(nodes, l as int);
            lemma_leaf_seq_enclosed(nodes, r as int);
            let sl = leaf_seq(nodes, l as int);
            let sr = leaf_seq(nodes, r as int);
            let s = leaf_seq(nodes, i);
            assert(s == sl + sr);
            assert forall|k: int| 0 <= k < s.len() implies #[trigger] encloses(nodes[i].aabb, s[k]) by {
                if k < sl.len() {
                    assert(encloses(nodes[l as int].aabb, sl[k]));
                } else {
                    assert(encloses(nodes[r as int].aabb, sr[k - sl.len()]));
                }
            }
            assert forall|k: int| 0 <= k < s.len() implies (#[trigger] s[k]).wf() by {
                if k < sl.len() {
                    assert(sl[k].wf());
                } else {
                    assert(sr[k - sl.len()].wf());
                }
            }
        },
    }
}

/// Appending a node leaves the subtrees of the existing nodes as they were.
pub proof fn lemma_leaf_seq_push(nodes: Seq<Node>, n: Node, i: int)
    requires
        0 <= i < nodes.len(),
    ensures
        leaf_seq(nodes.push(n), i) == leaf_seq(nodes, i),
    decreases i,
{
    let ext = nodes.push(n);
    assert(ext[i] == nodes[i]);
    match nodes[i].kind {
        NodeKind::Leaf => {},
        NodeKind::Branch(l, r) => {
            if l < i && r < i {
                lemma_leaf_seq_push(nodes, n, l as int);
                lemma_leaf_seq_push(nodes, n, r as int);
            }
        },
    }
}

/// Appending a node that is well formed keeps the arena well formed, and the
/// sums over the existing nodes as they were.
pub proof fn lemma_push_frame(nodes: Seq<Node>, n: Node, lo: int, hi: int)
    requires
        arena_wf(nodes),
        0 <= lo,
        hi <= nodes.len(),
    ensures
        subtree_boxes(nodes.push(n), lo, hi) == subtree_boxes(nodes, lo, hi),
        subtree_pairs(nodes.push(n), lo, hi) == subtree_pairs(nodes, lo, hi),
        branch_sum(nodes.push(n), lo, hi) == branch_sum(nodes, lo, hi),
        node_wf(nodes.push(n), nodes.len() as int) ==> arena_wf(nodes.push(n)),
{
    let ext = nodes.push(n);
    assert forall|i: int| lo <= i < hi implies #[trigger] leaf_seq(ext, i) == leaf_seq(nodes, i) by {
        lemma_leaf_seq_push(nodes, n, i);
    }
    assert forall|i: int| lo <= i < hi implies #[trigger] branch_cross(ext, i) == branch_cross(nodes, i) by {
        assert(node_wf(nodes, i));
        assert(ext[i] == nodes[i]);
        if let NodeKind::Branch(l, r) = nodes[i].kind {
            lemma_leaf_seq_push(nodes, n, l as int);
            lemma_leaf_seq_push(nodes, n, r as int);
        }
    }
    lemma_union_range_ext(
        |i: int| leaf_seq(ext, i).to_multiset(),
        |i: int| leaf_seq(nodes, i).to_multiset(),
        lo,
        hi,
    );
    lemma_sum_range_ext(
        |i: int| pair_count(leaf_seq(ext, i)),
        |i: int| pair_count(leaf_seq(nodes, i)),
        lo,
        hi,
    );
    lemma_sum_range_ext(|i: int| branch_cross(ext, i), |i: int| branch_cross(nodes, i), lo, hi);
    if node_wf(ext, nodes.len() as int) {
        assert forall|i: int| 0 <= i < ext.len() implies #[trigger] node_wf(ext, i) by {
            if i < nodes.len() {
                assert(node_wf(nodes, i));
                assert(ext[i] == nodes[i]);
            }
        }
    }
}

/// Sums over `lo .. hi + 1` are those over `lo .. hi` and node `hi`.
pub proof fn lemma_sums_push(nodes: Seq<Node>, lo: int, hi: int)
    requires
        lo <= hi,
    ensures
        subtree_boxes(nodes, lo, hi + 1) == subtree_boxes(nodes, lo, hi).add(
            leaf_seq(nodes, hi).to_multiset(),
        ),
        subtree_pairs(nodes, lo, hi + 1) == subtree_pairs(nodes, lo, hi) + pair_count(
            leaf_seq(nodes, hi),
        ),
        branch_sum(nodes, lo, hi + 1) == branch_sum(nodes, lo, hi) + branch_cross(nodes, hi),
{
    lemma_union_range_push(|i: int| leaf_seq(nodes, i).to_multiset(), lo, hi);
    lemma_sum_range_push(|i: int| pair_count(leaf_seq(nodes, i)), lo, hi);
    lemma_sum_range_push(|i: int| branch_cross(nodes, i), lo, hi);
}

/// Node `k` is a branch with `j` as one of its children.
pub open spec fn has_child(nodes: Seq<Node>, k: int, j: int) -> bool {
    match nodes[k].kind {
        NodeKind::Branch(l, r) => l == j || r == j,
        NodeKind::Leaf => false,
    }
}

/// How many times node value `nd` names `j` as a child.
pub open spec fn kid_of(nd: Node, j: int) -> nat {
    match nd.kind {
        NodeKind::Branch(l, r) => (if l == j { 1nat } else { 0nat }) + (if r == j { 1nat } else { 0nat }),
        NodeKind::Leaf => 0,
    }
}

/// How many times the nodes name `j` as a child.
pub open spec fn parent_count(nodes: Seq<Node>, j: int) -> nat {
    nat_sum(nodes.map_values(|nd: Node| kid_of(nd, j)))
}

pub open spec fn leaf_one(nd: Node) -> nat {
    if nd.kind == NodeKind::Leaf { 1 } else { 0 }
}

pub open spec fn leaf_box(nd: Node) -> Multiset<AABB> {
    if nd.kind == NodeKind::Leaf { Multiset::singleton(nd.aabb) } else { Multiset::empty() }
}

/// How many leaves the nodes hold.
pub open spec fn leaf_total(nodes: Seq<Node>) -> nat {
    nat_sum(nodes.map_values(|nd: Node| leaf_one(nd)))
}

/// The boxes of the leaves among the nodes.
pub open spec fn leaf_bag(nodes: Seq<Node>) -> Multiset<AABB> {
    bag_sum(nodes.map_values(|nd: Node| leaf_box(nd)))
}

/// The counts after appending a node.
pub proof fn lemma_counts_push(nodes: Seq<Node>, nd: Node)
    ensures
        forall|j: int| #[trigger] parent_count(nodes.push(nd), j) == parent_count(nodes, j) + kid_of(nd, j),
        leaf_total(nodes.push(nd)) == leaf_total(nodes) + leaf_one(nd),
        leaf_bag(nodes.push(nd)) == leaf_bag(nodes).add(leaf_box(nd)),
{
    assert forall|j: int| #[trigger] parent_count(nodes.push(nd), j) == parent_count(nodes, j) + kid_of(nd, j) by {
        assert(nodes.push(nd).map_values(|x: Node| kid_of(x, j)).drop_last() =~= nodes.map_values(|x: Node| kid_of(x, j)));
    }
    assert(nodes.push(nd).map_values(|x: Node| leaf_one(x)).drop_last() =~= nodes.map_values(|x: Node| leaf_one(x)));
    assert(nodes.push(nd).map_values(|x: Node| leaf_box(x)).drop_last() =~= nodes.map_values(|x: Node| leaf_box(x)));
}

/// The counts depend only on which node values there are.
pub proof fn lemma_counts_permutation(a: Seq<Node>, b: Seq<Node>)
    requires
        a.to_multiset() == b.to_multiset(),
    ensures
        forall|j: int| #[trigger] parent_count(a, j) == parent_count(b, j),
        leaf_total(a) == leaf_total(b),
        leaf_bag(a) == leaf_bag(b),
{
    assert forall|j: int| #[trigger] parent_count(a, j) == parent_count(b, j) by {
        lemma_multiset_map(a, b, |x: Node| kid_of(x, j));
        lemma_nat_sum_permutation(a.map_values(|x: Node| kid_of(x, j)), b.map_values(|x: Node| kid_of(x, j)));
    }
    lemma_multiset_map(a, b, |x: Node| leaf_one(x));
    lemma_nat_sum_permutation(a.map_values(|x: Node| leaf_one(x)), b.map_values(|x: Node| leaf_one(x)));
    lemma_multiset_map(a, b, |x: Node| leaf_box(x));
    lemma_bag_sum_permutation(a.map_values(|x: Node| leaf_box(x)), b.map_values(|x: Node| leaf_box(x)));
}

/// Leaf nodes only: no children, one leaf each, their boxes.
pub proof fn lemma_counts_leaves(nodes: Seq<Node>)
    requires
        forall|k: int| 0 <= k < nodes.len() ==> (#[trigger] nodes[k]).kind == NodeKind::Leaf,
    ensures
        forall|j: int| #[trigger] parent_count(nodes, j) == 0,
        leaf_total(nodes) == nodes.len(),
        leaf_bag(nodes) == nodes.map_values(|nd: Node| nd.aabb).to_multiset(),
    decreases nodes.len(),
{
    broadcast use vstd::seq_lib::group_to_multiset_ensures;
    if nodes.len() == 0 {
        assert forall|j: int| #[trigger] parent_count(nodes, j) == 0 by {
            assert(nodes.map_values(|x: Node| kid_of(x, j)) =~= Seq::<nat>::empty());
        }
        assert(nodes.map_values(|x: Node| leaf_one(x)) =~= Seq::<nat>::empty());
        assert(nodes.map_values(|x: Node| leaf_box(x)) =~= Seq::<Multiset<AABB>>::empty());
        assert(nodes.map_values(|nd: Node| nd.aabb) =~= Seq::<AABB>::empty());
        assert(Seq::<AABB>::empty().to_multiset() =~= Multiset::<AABB>::empty());
    } else {
        let p = nodes.drop_last();
        let x = nodes.last();
        assert(nodes =~= p.push(x));
        lemma_counts_leaves(p);
        lemma_counts_push(p, x);
        assert(nodes.map_values(|nd: Node| nd.aabb) =~= p.map_values(|nd: Node| nd.aabb).push(x.aabb));
        assert(leaf_bag(nodes) =~= nodes.map_values(|nd: Node| nd.aabb).to_multiset());
    }
}

/// No node names an index at or past the end of a well-formed arena.
pub proof fn lemma_no_parent_past_end(nodes: Seq<Node>, j: int)
    requires
        arena_wf(nodes),
        j >= nodes.len(),
    ensures
        parent_count(nodes, j) == 0,
    decreases nodes.len(),
{
    if nodes.len() == 0 {
        assert(nodes.map_values(|x: Node| kid_of(x, j)) =~= Seq::<nat>::empty());
    } else {
        let p = nodes.drop_last();
        let x = nodes.last();
        assert(nodes =~= p.push(x));
        assert forall|i: int| 0 <= i < p.len() implies #[trigger] node_wf(p, i) by {
            assert(node_wf(nodes, i));
        }
        lemma_no_parent_past_end(p, j);
        lemma_counts_push(p, x);
        assert(node_wf(nodes, nodes.len() - 1));
    }
}

/// No node names the last index of a well-formed arena as a child.
pub proof fn lemma_no_parent_last(nodes: Seq<Node>)
    requires
        arena_wf(nodes),
        nodes.len() > 0,
    ensures
        parent_count(nodes, nodes.len() - 1) == 0,
{
    let p = nodes.drop_last();
    let x = nodes.last();
    assert(nodes =~= p.push(x));
    assert forall|i: int| 0 <= i < p.len() implies #[trigger] node_wf(p, i) by {
        assert(node_wf(nodes, i));
    }
    lemma_no_parent_past_end(p, nodes.len() - 1);
    lemma_counts_push(p, x);
    assert(node_wf(nodes, nodes.len() - 1));
}

/// The boxes of the first `n` nodes.
pub open spec fn leaf_boxes(nodes: Seq<Node>, n: int) -> Seq<AABB> {
    nodes.subrange(0, n).map_values(|nd: Node| nd.aabb)
}

/// Why a tree was not built.
#[derive(Clone, Copy, Debug, PartialEq, Eq, Structural)]
pub enum BuildError {
    /// More boxes than the index and count representation holds.
    Capacity,
}

/// `n` boxes fit: `n * n`, which bounds both the node count and the pair count,
/// is representable.
pub open spec fn fits(n: int) -> bool {
    n * n <= usize::MAX
}

/// Whether `n` boxes fit.
pub fn check_capacity(n: usize) -> (r: bool)
    ensures
        r == fits(n as int),
{
    if n == 0 {
        true
    } else {
        let q = usize::MAX / n;
        proof {
            let m = usize::MAX as int;
            let k = n as int;
            let qi = q as int;
            vstd::arithmetic::div_mod::lemma_fundamental_div_mod(m, k);
            assert(qi == m / k);
            assert(0 <= m % k < k);
            assert(k <= qi ==> k * k <= m) by (nonlinear_arith)
                requires k > 0, m == k * qi + m % k, 0 <= m % k;
            assert(k > qi ==> k * k > m) by (nonlinear_arith)
                requires k > 0, m == k * qi + m % k, m % k < k;
        }
        n <= q
    }
}

/// One leaf node per box of `sorted`, in its order.
pub fn leaf_nodes(sorted: &Vec<(u128, AABB)>) -> (r: Vec<Node>)
    requires
        all_wf(boxes_of(sorted@)),
    ensures
        arena_wf(r@),
        r@.len() == sorted@.len(),
        forall|k: int| 0 <= k < r@.len() ==> (#[trigger] r@[k]).kind == NodeKind::Leaf,
        forall|k: int| 0 <= k < r@.len() ==> (#[trigger] r@[k]).aabb == sorted@[k].1,
        subtree_boxes(r@, 0, r@.len() as int) == boxes_of(sorted@).to_multiset(),
        subtree_pairs(r@, 0, r@.len() as int) == 0,
{
    let mut r: Vec<Node> = Vec::new();
    let mut i: usize = 0;
    proof {
        broadcast use vstd::seq_lib::group_to_multiset_ensures;
        assert(boxes_of(sorted@).subrange(0, 0) =~= Seq::<AABB>::empty());
        assert(Seq::<AABB>::empty().to_multiset() =~= Multiset::<AABB>::empty());
    }
    while i < sorted.len()
        invariant
            i <= sorted@.len(),
            all_wf(boxes_of(sorted@)),
            arena_wf(r@),
            r@.len() == i,
            forall|k: int| 0 <= k < i ==> (#[trigger] r@[k]).kind == NodeKind::Leaf,
            forall|k: int| 0 <= k < i ==> (#[trigger] r@[k]).aabb == sorted@[k].1,
            subtree_boxes(r@, 0, i as int) == boxes_of(sorted@).subrange(0, i as int).to_multiset(),
            subtree_pairs(r@, 0, i as int) == 0,
        decreases sorted@.len() - i,
    {
        let b = sorted[i].1;
        let node = Node { aabb: b, kind: NodeKind::Leaf };
        proof {
            assert(boxes_of(sorted@)[i as int] == b);
            assert(b.wf());
            lemma_push_frame(r@, node, 0, i as int);
            lemma_sums_push(r@.push(node), 0, i as int);
            let ext = r@.push(node);
            assert(leaf_seq(ext, i as int) == seq![b]);
            lemma_pair_count_single(b);
            broadcast use vstd::seq_lib::group_to_multiset_ensures;
            assert(boxes_of(sorted@).subrange(0, i + 1) =~= boxes_of(sorted@).subrange(0, i as int).push(b));
            assert(seq![b].to_multiset() =~= Seq::<AABB>::empty().push(b).to_multiset());
            assert(seq![b] =~= Seq::<AABB>::empty().push(b));
        }
        r.push(node);
        i = i + 1;
    }
    proof {
        assert(boxes_of(sorted@).subrange(0, i as int) =~= boxes_of(sorted@));
    }
    r
}

pub proof fn lemma_branch_sum_term(nodes: Seq<Node>, lo: int, hi: int)
    ensures
        forall|i: int| lo <= i < hi ==> #[trigger] branch_cross(nodes, i) <= branch_sum(nodes, lo, hi),
{
    assert forall|i: int| lo <= i < hi implies #[trigger] branch_cross(nodes, i) <= branch_sum(nodes, lo, hi) by {
        crate::sums::lemma_sum_range_term(|j: int| branch_cross(nodes, j), lo, hi, i);
    }
}

/// Appending a branch over the two open nodes `lo` and `lo + 1` of the open
/// nodes `lo ..` moves their boxes into the new node, whose own pairs are those
/// of both plus the pairs it joins.
#[verifier::rlimit(30)]
pub proof fn lemma_join_front(nodes: Seq<Node>, lo: int, node: Node, m: int)
    requires
        arena_wf(nodes),
        0 <= lo,
        0 <= m <= nodes.len(),
        lo + 2 <= nodes.len() <= usize::MAX,
        node == (Node {
            aabb: hull(nodes[lo].aabb, nodes[lo + 1].aabb),
            kind: NodeKind::Branch(lo as usize, (lo + 1) as usize),
        }),
    ensures
        arena_wf(nodes.push(node)),
        subtree_boxes(nodes.push(node), lo + 2, nodes.len() + 1 as int) == subtree_boxes(
            nodes,
            lo,
            nodes.len() as int,
        ),
        subtree_pairs(nodes.push(node), lo + 2, nodes.len() + 1 as int) == subtree_pairs(
            nodes,
            lo,
            nodes.len() as int,
        ) + branch_cross(nodes.push(node), nodes.len() as int),
        branch_sum(nodes.push(node), m, nodes.len() + 1 as int) == branch_sum(
            nodes,
            m,
            nodes.len() as int,
        ) + branch_cross(nodes.push(node), nodes.len() as int),
{
    let len = nodes.len() as int;
    let ext = nodes.push(node);
    let left = lo;
    let right = lo + 1;
    assert(node_wf(nodes, left));
    assert(node_wf(nodes, right));
    assert(ext[len] == node);
    assert(node.kind == NodeKind::Branch(lo as usize, (lo + 1) as usize));
    assert(node_wf(ext, len));
    lemma_push_frame(nodes, node, lo + 2, len);
    lemma_push_frame(nodes, node, m, len);
    lemma_sums_push(ext, lo + 2, len);
    lemma_sums_push(ext, m, len);
    let sl = leaf_seq(nodes, left);
    let sr = leaf_seq(nodes, right);
    lemma_leaf_seq_push(nodes, node, left);
    lemma_leaf_seq_push(nodes, node, right);
    assert(leaf_seq(ext, len) == sl + sr);
    lemma_pair_count_concat(sl, sr);
    vstd::seq_lib::lemma_multiset_commutative(sl, sr);
    assert(subtree_boxes(nodes, lo, len) == sl.to_multiset().add(subtree_boxes(nodes, lo + 1, len)));
    assert(subtree_boxes(nodes, lo + 1, len) == sr.to_multiset().add(subtree_boxes(nodes, lo + 2, len)));
    assert(subtree_pairs(nodes, lo, len) == pair_count(sl) + subtree_pairs(nodes, lo + 1, len));
    assert(subtree_pairs(nodes, lo + 1, len) == pair_count(sr) + subtree_pairs(nodes, lo + 2, len));
    assert(subtree_boxes(ext, lo + 2, len + 1) =~= subtree_boxes(nodes, lo, len));
}

/// The pairs that branch `i` joins, counted by a pairwise descent from its two
/// children.
pub fn branch_collisions(nodes: &Vec<Node>, i: usize) -> (r: usize)
    requires
        arena_wf(nodes@),
        i < nodes@.len(),
        branch_cross(nodes@, i as int) <= usize::MAX,
    ensures
        r == branch_cross(nodes@, i as int),
{
    let mut output: usize = 0;
    assert(node_wf(nodes@, i as int));
    if let NodeKind::Branch(l, r) = nodes[i].kind {
        collide_nodes(nodes, l, r, &mut output);
    }
    output
}

/// Relies on rayon's `into_par_iter().map().sum()` over a range: the sum of the
/// mapped values, each computed by a verified function.
#[verifier::external_body]
pub(crate) fn par_branch_sum(nodes: &Vec<Node>, lo: usize, hi: usize) -> (r: usize)
    requires
        arena_wf(nodes@),
        lo <= hi <= nodes@.len(),
        forall|i: int| lo <= i < hi ==> #[trigger] branch_cross(nodes@, i) <= usize::MAX,
        branch_sum(nodes@, lo as int, hi as int) <= usize::MAX,
    ensures
        r == branch_sum(nodes@, lo as int, hi as int),
{
    (lo..hi).into_par_iter().map(|i| branch_collisions(nodes, i)).sum()
}

/// Counts the intersecting pairs with one box under `left` and the other under
/// `right`, adding them to `output`; disjoint node boxes end the descent.
pub fn collide_nodes(nodes: &Vec<Node>, left: usize, right: usize, output: &mut usize)
    requires
        arena_wf(nodes@),
        left < nodes@.len(),
        right < nodes@.len(),
        *old(output) + node_cross(nodes@, left as int, right as int) <= usize::MAX,
    ensures
        *final(output) == *old(output) + node_cross(nodes@, left as int, right as int),
    decreases left + right,
{
    let ln = nodes[left];
    let rn = nodes[right];
    proof {
        assert(node_wf(nodes@, left as int));
        assert(node_wf(nodes@, right as int));
    }
    if !ln.aabb.intersects(&rn.aabb) {
        proof {
            lemma_leaf_seq_enclosed(nodes@, left as int);
            lemma_leaf_seq_enclosed(nodes@, right as int);
            lemma_cross_disjoint(
                ln.aabb,
                leaf_seq(nodes@, left as int),
                rn.aabb,
                leaf_seq(nodes@, right as int),
            );
        }
        return ;
    }
    match (ln.kind, rn.kind) {
        (NodeKind::Leaf, NodeKind::Leaf) => {
            proof {
                lemma_cross_single(ln.aabb, rn.aabb);
            }
            *output = *output + 1;
        },
        (NodeKind::Branch(ll, lr), NodeKind::Leaf) => {
            proof {
                lemma_cross_concat_left(
                    leaf_seq(nodes@, ll as int),
                    leaf_seq(nodes@, lr as int),
                    leaf_seq(nodes@, right as int),
                );
            }
            collide_nodes(nodes, ll, right, output);
            collide_nodes(nodes, lr, right, output);
        },
        (NodeKind::Leaf, NodeKind::Branch(rl, rr)) => {
            proof {
                lemma_cross_concat_right(
                    leaf_seq(nodes@, left as int),
                    leaf_seq(nodes@, rl as int),
                    leaf_seq(nodes@, rr as int),
                );
            }
            collide_nodes(nodes, left, rl, output);
            collide_nodes(nodes, left, rr, output);
        },
        (NodeKind::Branch(ll, lr), NodeKind::Branch(rl, rr)) => {
            proof {
                let a = leaf_seq(nodes@, ll as int);
                let b = leaf_seq(nodes@, lr as int);
                let c = leaf_seq(nodes@, rl as int);
                let d = leaf_seq(nodes@, rr as int);
                lemma_cross_concat_left(a, b, c + d);
                lemma_cross_concat_right(a, c, d);
                lemma_cross_concat_right(b, c, d);
            }
            collide_nodes(nodes, ll, rl, output);
            collide_nodes(nodes, ll, rr, output);
            collide_nodes(nodes, lr, rl, output);
            collide_nodes(nodes, lr, rr, output);
        },
    }
}

/// Counts the intersecting pairs under `left` and `right` taken together: those
/// inside each subtree and those across, adding them to `output`.
pub fn visit_nodes(nodes: &Vec<Node>, left: usize, right: usize, output: &mut usize)
    requires
        arena_wf(nodes@),
        left < nodes@.len(),
        right < nodes@.len(),
        *old(output) + pair_count(leaf_seq(nodes@, left as int) + leaf_seq(nodes@, right as int))
            <= usize::MAX,
    ensures
        *final(output) == *old(output) + pair_count(
            leaf_seq(nodes@, left as int) + leaf_seq(nodes@, right as int),
        ),
    decreases if left >= right { left } else { right },
{
    let ghost sl = leaf_seq(nodes@, left as int);
    let ghost sr = leaf_seq(nodes@, right as int);
    proof {
        lemma_pair_count_concat(sl, sr);
        assert(node_wf(nodes@, left as int));
        assert(node_wf(nodes@, right as int));
    }
    if let NodeKind::Branch(l, r) = nodes[left].kind {
        assert(sl == leaf_seq(nodes@, l as int) + leaf_seq(nodes@, r as int));
        visit_nodes(nodes, l, r, output);
    } else {
        assert(sl =~= seq![nodes@[left as int].aabb]);
        proof { lemma_pair_count_single(nodes@[left as int].aabb); }
    }
    if let NodeKind::Branch(l, r) = nodes[right].kind {
        assert(sr == leaf_seq(nodes@, l as int) + leaf_seq(nodes@, r as int));
        visit_nodes(nodes, l, r, output);
    } else {
        assert(sr =~= seq![nodes@[right as int].aabb]);
        proof { lemma_pair_count_single(nodes@[right as int].aabb); }
    }
    collide_nodes(nodes, left, right, output);
}

} // verus!
