use vstd::prelude::*;
use vstd::multiset::Multiset;
use crate::arena::{
    arena_wf, check_capacity, fits, leaf_bag, leaf_nodes, leaf_seq, leaf_total, lemma_counts_leaves,
    lemma_counts_permutation, lemma_counts_push, lemma_join_front, node_wf, parent_count,
    subtree_boxes, visit_nodes, BuildError, Node, NodeKind,
};
use crate::count::{all_wf, lemma_multiset_map, lemma_pair_count_bound, lemma_pair_count_permutation,
    lemma_pair_count_single, pair_count};
use crate::keys::{boxes_of, key_boxes, leaf_key, sort_by_key};
use crate::position::AABB;
use crate::sums::{bag_sum, lemma_bag_sum_permutation, lemma_union_range_push};

verus! {

/// The children of every node in `lo .. hi` lie below `bound`.
pub open spec fn children_below(nodes: Seq<Node>, lo: int, hi: int, bound: int) -> bool {
    forall|i: int| lo <= i < hi ==> match (#[trigger] nodes[i]).kind {
        NodeKind::Leaf => true,
        NodeKind::Branch(l, r) => l < bound && r < bound,
    }
}

/// The input boxes under a node value, its children looked up in `nodes`.
pub open spec fn node_leaves(nodes: Seq<Node>, nd: Node) -> Seq<AABB> {
    match nd.kind {
        NodeKind::Leaf => seq![nd.aabb],
        NodeKind::Branch(l, r) => leaf_seq(nodes, l as int) + leaf_seq(nodes, r as int),
    }
}

/// Two arenas that agree below `k` give the same subtrees there.
proof fn lemma_leaf_seq_prefix(a: Seq<Node>, b: Seq<Node>, k: int, i: int)
    requires
        0 <= i < k <= a.len(),
        k <= b.len(),
        forall|j: int| 0 <= j < k ==> #[trigger] a[j] == b[j],
    ensures
        leaf_seq(a, i) == leaf_seq(b, i),
    decreases i,
{
    assert(a[i] == b[i]);
    match a[i].kind {
        NodeKind::Leaf => {},
        NodeKind::Branch(l, r) => {
            if l < i && r < i {
                lemma_leaf_seq_prefix(a, b, k, l as int);
                lemma_leaf_seq_prefix(a, b, k, r as int);
            }
        },
    }
}

/// Over a range whose children lie below its start, the boxes under the range
/// are the union over its node values.
proof fn lemma_boxes_as_bag(nodes: Seq<Node>, lo: int, hi: int)
    requires
        0 <= lo <= hi <= nodes.len(),
        children_below(nodes, lo, hi, lo),
    ensures
        subtree_boxes(nodes, lo, hi) == bag_sum(
            nodes.subrange(lo, hi).map_values(|nd: Node| node_leaves(nodes, nd).to_multiset()),
        ),
    decreases hi - lo,
{
    let f = |nd: Node| node_leaves(nodes, nd).to_multiset();
    if lo == hi {
        assert(nodes.subrange(lo, hi).map_values(f) =~= Seq::<Multiset<AABB>>::empty());
        assert(subtree_boxes(nodes, lo, hi) == Multiset::<AABB>::empty());
    } else {
        lemma_boxes_as_bag(nodes, lo, hi - 1);
        lemma_union_range_push(|i: int| leaf_seq(nodes, i).to_multiset(), lo, hi - 1);
        let s = nodes.subrange(lo, hi).map_values(f);
        assert(s.drop_last() =~= nodes.subrange(lo, hi - 1).map_values(f));
        let nd = nodes[hi - 1];
        assert(s.last() == f(nd));
        match nd.kind {
            NodeKind::Leaf => {
                assert(leaf_seq(nodes, hi - 1) == seq![nd.aabb]);
            },
            NodeKind::Branch(l, r) => {
                assert(l < lo && r < lo);
            },
        }
    }
}

/// Sorts the open nodes `begin ..` by spatial key, in place.
fn sort_open(nodes: &mut Vec<Node>, begin: usize)
    requires
        begin <= old(nodes)@.len(),
        arena_wf(old(nodes)@),
        children_below(old(nodes)@, begin as int, old(nodes)@.len() as int, begin as int),
    ensures
        final(nodes)@.len() == old(nodes)@.len(),
        forall|j: int| 0 <= j < begin ==> #[trigger] final(nodes)@[j] == old(nodes)@[j],
        arena_wf(final(nodes)@),
        children_below(final(nodes)@, begin as int, final(nodes)@.len() as int, begin as int),
        subtree_boxes(final(nodes)@, begin as int, final(nodes)@.len() as int) == subtree_boxes(
            old(nodes)@,
            begin as int,
            old(nodes)@.len() as int,
        ),
        final(nodes)@.to_multiset() == old(nodes)@.to_multiset(),
{
    let len = nodes.len();
    let ghost orig = nodes@;
    let mut keyed: Vec<(u128, Node)> = Vec::new();
    let mut i: usize = begin;
    while i < len
        invariant
            begin <= i <= len,
            len == nodes@.len(),
            nodes@ == orig,
            arena_wf(orig),
            keyed@.len() == i - begin,
            forall|k: int| 0 <= k < keyed@.len() ==> (#[trigger] keyed@[k]).1 == orig[begin + k],
        decreases len - i,
    {
        assert(node_wf(orig, i as int));
        let nd = nodes[i];
        let key = leaf_key(&nd.aabb);
        keyed.push((key, nd));
        i = i + 1;
    }
    let ghost unsorted = keyed@;
    sort_by_key(&mut keyed);
    let ghost pick = |e: (u128, Node)| e.1;
    proof {
        assert(unsorted.map_values(pick) =~= orig.subrange(begin as int, len as int));
        lemma_multiset_map(keyed@, unsorted, pick);
        broadcast use vstd::seq_lib::group_to_multiset_ensures;
        assert(keyed@.len() == keyed@.to_multiset().len());
        assert(unsorted.len() == unsorted.to_multiset().len());
    }
    let mut k: usize = 0;
    while k < keyed.len()
        invariant
            keyed@.len() == len - begin,
            begin <= len,
            nodes@.len() == len,
            k <= keyed@.len(),
            forall|j: int| 0 <= j < begin ==> #[trigger] nodes@[j] == orig[j],
            forall|j: int| begin + k <= j < len ==> #[trigger] nodes@[j] == orig[j],
            forall|j: int| 0 <= j < k ==> #[trigger] nodes@[begin + j] == keyed@[j].1,
        decreases keyed@.len() - k,
    {
        let nd = keyed[k].1;
        nodes.set(begin + k, nd);
        k = k + 1;
    }
    proof {
        let now = nodes@;
        let sub = now.subrange(begin as int, len as int);
        assert forall|t: int| 0 <= t < sub.len() implies #[trigger] sub[t] == keyed@.map_values(pick)[t] by {
            assert(now[begin + t] == keyed@[t].1);
        }
        assert(sub =~= keyed@.map_values(pick));
        broadcast use vstd::seq_lib::group_to_multiset_ensures;
        // every node now in the open range was in it before
        assert forall|j: int| begin <= j < len implies #[trigger] now[j] == sub[j - begin] by {}
        assert forall|j: int| begin <= j < len implies orig.subrange(begin as int, len as int).contains(
            #[trigger] now[j],
        ) by {
            assert(sub.to_multiset().count(sub[j - begin]) > 0);
        }
        assert forall|j: int| 0 <= j < now.len() implies #[trigger] node_wf(now, j) by {
            if j < begin {
                assert(node_wf(orig, j));
                assert(now[j] == orig[j]);
            } else {
                let osub = orig.subrange(begin as int, len as int);
                assert(osub.contains(now[j]));
                let t = choose|t: int| 0 <= t < osub.len() && osub[t] == now[j];
                assert(node_wf(orig, begin + t));
                assert(orig[begin + t] == now[j]);
                match now[j].kind {
                    NodeKind::Leaf => {},
                    NodeKind::Branch(l, r) => {
                        assert(l < begin && r < begin);
                        assert(now[l as int] == orig[l as int]);
                        assert(now[r as int] == orig[r as int]);
                    },
                }
            }
        }
        assert forall|j: int| begin <= j < len implies match (#[trigger] now[j]).kind {
            NodeKind::Leaf => true,
            NodeKind::Branch(l, r) => l < begin && r < begin,
        } by {
            let osub = orig.subrange(begin as int, len as int);
            assert(osub.contains(now[j]));
            let t = choose|t: int| 0 <= t < osub.len() && osub[t] == now[j];
            assert(orig[begin + t] == now[j]);
        }
        lemma_boxes_as_bag(orig, begin as int, len as int);
        lemma_boxes_as_bag(now, begin as int, len as int);
        let f_old = |nd: Node| node_leaves(orig, nd).to_multiset();
        let f_new = |nd: Node| node_leaves(now, nd).to_multiset();
        // the children lie below `begin`, where both arenas agree
        assert forall|t: int| 0 <= t < sub.len() implies #[trigger] f_new(sub[t]) == f_old(sub[t]) by {
            let nd = sub[t];
            assert(now[begin + t] == nd);
            match nd.kind {
                NodeKind::Leaf => {},
                NodeKind::Branch(l, r) => {
                    lemma_leaf_seq_prefix(now, orig, begin as int, l as int);
                    lemma_leaf_seq_prefix(now, orig, begin as int, r as int);
                },
            }
        }
        assert(sub.map_values(f_new) =~= sub.map_values(f_old));
        lemma_multiset_map(sub, orig.subrange(begin as int, len as int), f_old);
        lemma_bag_sum_permutation(sub.map_values(f_old), orig.subrange(begin as int, len as int).map_values(f_old));
        assert(orig =~= orig.subrange(0, begin as int) + orig.subrange(begin as int, len as int));
        assert(now =~= now.subrange(0, begin as int) + sub);
        assert(now.subrange(0, begin as int) =~= orig.subrange(0, begin as int));
        vstd::seq_lib::lemma_multiset_commutative(orig.subrange(0, begin as int), orig.subrange(begin as int, len as int));
        vstd::seq_lib::lemma_multiset_commutative(now.subrange(0, begin as int), sub);
    }
}

/// A tree built level by level: the leaves fill the front of the arena; each
/// level sorts the open nodes at the arena's tail by spatial key and joins
/// neighbours (0-1, 2-3, ...) into branches appended after them, an odd one
/// carried into the next level.
pub struct BVH {
    nodes: Vec<Node>,
    boxes: Ghost<Seq<AABB>>,
}

impl View for BVH {
    type V = Seq<AABB>;

    /// The boxes of the last build, in the order they were given.
    closed spec fn view(&self) -> Seq<AABB> {
        self.boxes@
    }
}

impl BVH {
    /// The node arena.
    pub closed spec fn arena(&self) -> Seq<Node> {
        self.nodes@
    }

    pub closed spec fn wf(&self) -> bool {
        let n = self.boxes@.len();
        let nodes = self.nodes@;
        &&& arena_wf(nodes)
        &&& all_wf(self.boxes@)
        &&& fits(n as int)
        &&& n == 0 ==> nodes.len() == 0
        &&& leaf_total(nodes) == n
        &&& leaf_bag(nodes) == self.boxes@.to_multiset()
        &&& forall|j: int| #![trigger parent_count(nodes, j)] 0 <= j ==> parent_count(nodes, j) == if j < nodes.len() - 1 { 1nat } else { 0nat }
        &&& n > 0 ==> {
            &&& nodes.len() == 2 * n - 1
            &&& leaf_seq(nodes, nodes.len() - 1).to_multiset() == self.boxes@.to_multiset()
        }
    }

    /// The shape of the tree: `2n - 1` nodes, of which exactly `n` are leaves
    /// holding exactly the boxes built from; each branch joins two lower nodes
    /// with the union of their boxes; every node but the last, the root, is
    /// named as a child exactly once, so a branch's two children differ.
    pub proof fn lemma_shape(&self)
        requires
            self.wf(),
        ensures
            self@.len() == 0 ==> self.arena().len() == 0,
            self@.len() > 0 ==> self.arena().len() == 2 * self@.len() - 1,
            arena_wf(self.arena()),
            leaf_total(self.arena()) == self@.len(),
            leaf_bag(self.arena()) == self@.to_multiset(),
            forall|j: int| 0 <= j < self.arena().len() - 1 ==> #[trigger] parent_count(self.arena(), j) == 1,
            self.arena().len() > 0 ==> parent_count(self.arena(), self.arena().len() - 1) == 0,
    {
    }

    /// An empty tree.
    pub fn new() -> (r: BVH)
        ensures
            r.wf(),
            r@ == Seq::<AABB>::empty(),
    {
        let r = BVH { nodes: Vec::new(), boxes: Ghost(Seq::empty()) };
        assert(fits(0));
        assert(arena_wf(r.nodes@));
        proof {
            lemma_counts_leaves(r.nodes@);
            assert(r.nodes@.map_values(|nd: Node| nd.aabb) =~= Seq::<AABB>::empty());
        }
        r
    }

    /// Rebuilds the tree from `leaves`. Fails, leaving the tree as it was, when
    /// the boxes do not fit.
    pub fn build(&mut self, leaves: Vec<AABB>) -> (r: Result<(), BuildError>)
        requires
            old(self).wf(),
            all_wf(leaves@),
        ensures
            r is Ok <==> fits(leaves@.len() as int),
            r is Ok ==> final(self)@ == leaves@,
            r is Err ==> final(self)@ == old(self)@,
            final(self).wf(),
    {
        let n = leaves.len();
        if !check_capacity(n) {
            return Err(BuildError::Capacity);
        }
        let keyed = key_boxes(&leaves);
        proof {
            assert(boxes_of(keyed@) =~= leaves@);
            assert(n <= 1 || 2 * n <= n * n) by (nonlinear_arith);
        }
        let mut nodes = leaf_nodes(&keyed);
        let ghost initial = subtree_boxes(nodes@, 0, n as int);
        proof {
            lemma_counts_leaves(nodes@);
            assert(nodes@.map_values(|nd: Node| nd.aabb) =~= boxes_of(keyed@));
        }
        let mut begin: usize = 0;
        while nodes.len() - begin >= 2
            invariant
                arena_wf(nodes@),
                n <= 1 || 2 * n <= usize::MAX,
                begin % 2 == 0,
                begin <= nodes@.len(),
                nodes@.len() == n + begin / 2,
                begin / 2 < n || n == 0,
                children_below(nodes@, begin as int, nodes@.len() as int, begin as int),
                subtree_boxes(nodes@, begin as int, nodes@.len() as int) == initial,
                leaf_total(nodes@) == n,
                leaf_bag(nodes@) == leaves@.to_multiset(),
                forall|j: int| #![trigger parent_count(nodes@, j)] 0 <= j ==> parent_count(nodes@, j) == if j < begin { 1nat } else { 0nat },
            decreases nodes@.len() - begin,
        {
            let ghost pre = nodes@;
            sort_open(&mut nodes, begin);
            proof {
                lemma_counts_permutation(nodes@, pre);
            }
            let level_end = nodes.len();
            let pairs = (level_end - begin) / 2;
            let mut k: usize = 0;
            while k < pairs
                invariant
                    arena_wf(nodes@),
                    n <= 1 || 2 * n <= usize::MAX,
                    begin % 2 == 0,
                    pairs == (level_end - begin) / 2,
                    begin <= level_end,
                    level_end == n + begin / 2,
                    begin / 2 < n,
                    k <= pairs,
                    nodes@.len() == level_end + k,
                    children_below(nodes@, begin + 2 * k, nodes@.len() as int, begin + 2 * k),
                    subtree_boxes(nodes@, begin + 2 * k, nodes@.len() as int) == initial,
                    leaf_total(nodes@) == n,
                    leaf_bag(nodes@) == leaves@.to_multiset(),
                    forall|j: int| #![trigger parent_count(nodes@, j)] 0 <= j ==> parent_count(nodes@, j) == if j < begin + 2 * k { 1nat } else { 0nat },
                decreases pairs - k,
            {
                let cur = begin + 2 * k;
                let aabb = nodes[cur].aabb.union(&nodes[cur + 1].aabb);
                let node = Node { aabb, kind: NodeKind::Branch(cur, cur + 1) };
                proof {
                    lemma_join_front(nodes@, cur as int, node, 0);
                    lemma_counts_push(nodes@, node);
                    assert(leaf_bag(nodes@.push(node)) =~= leaf_bag(nodes@));
                    let ext = nodes@.push(node);
                    assert forall|i: int| cur + 2 <= i < ext.len() implies match (#[trigger] ext[i]).kind {
                        NodeKind::Leaf => true,
                        NodeKind::Branch(l, r) => l < cur + 2 && r < cur + 2,
                    } by {
                        if i < nodes@.len() {
                            assert(ext[i] == nodes@[i]);
                        }
                    }
                }
                nodes.push(node);
                k = k + 1;
            }
            begin = begin + 2 * pairs;
        }
        proof {
            if n > 0 {
                let len = nodes@.len() as int;
                assert(begin == len - 1);
                assert(subtree_boxes(nodes@, len, len) == Multiset::<AABB>::empty());
                assert(subtree_boxes(nodes@, begin as int, len) == leaf_seq(nodes@, len - 1).to_multiset().add(
                    subtree_boxes(nodes@, len, len),
                ));
                assert(subtree_boxes(nodes@, begin as int, len) =~= leaf_seq(nodes@, len - 1).to_multiset());
            }
        }
        self.nodes = nodes;
        self.boxes = Ghost(leaves@);
        Ok(())
    }

    /// The number of intersecting pairs, by a recursive visit from the root.
    pub fn get_collision(&self) -> (r: usize)
        requires
            self.wf(),
        ensures
            r == pair_count(self@),
    {
        let mut output: usize = 0;
        let len = self.nodes.len();
        if len > 0 {
            proof {
                lemma_pair_count_permutation(leaf_seq(self.nodes@, len - 1), self@);
                lemma_pair_count_bound(self@);
                assert(node_wf(self.nodes@, len - 1));
            }
            if let NodeKind::Branch(l, r) = self.nodes[len - 1].kind {
                visit_nodes(&self.nodes, l, r, &mut output);
            } else {
                proof {
                    lemma_pair_count_single(self.nodes@[len - 1].aabb);
                }
            }
        }
        output
    }
}

} // verus!
