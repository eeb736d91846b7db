use vstd::prelude::*;
use vstd::multiset::Multiset;
use rayon::iter::{IntoParallelIterator, ParallelIterator};
use crate::arena::{
    arena_wf, branch_cross, branch_sum, check_capacity, fits, leaf_seq, lemma_branch_sum_term,
    lemma_leaf_seq_enclosed, lemma_push_frame, lemma_sums_push, node_cross, node_wf, parent_count,
    BuildError,
    Node, NodeKind,
};
use crate::count::{
    all_wf, lemma_cross_concat_left, lemma_cross_concat_right, lemma_cross_disjoint,
    lemma_cross_single, lemma_multiset_map, lemma_pair_count_bound, lemma_pair_count_concat,
    lemma_pair_count_permutation, lemma_pair_count_single, pair_count,
};
use crate::keys::{box_key, leaf_key, sort_by_key};
use crate::position::{hull, AABB};
use crate::sums::{bag_sum, lemma_bag_sum_permutation, lemma_nat_sum_permutation, nat_sum};

verus! {

/// Largest index a `NodeIndex` holds, plus one.
pub const INDEX_LIMIT: usize = 0x8000_0000;

/// An index into either the leaves or the branches: the top bit is clear for a
/// leaf and set for a branch, the other 31 bits hold the index.
#[derive(Clone, Copy, Debug, PartialEq, Eq, Structural)]
pub struct NodeIndex(u32);

impl NodeIndex {
    pub closed spec fn spec_is_leaf(self) -> bool {
        self.0 < 0x8000_0000
    }

    pub closed spec fn spec_index(self) -> nat {
        (self.0 % 0x8000_0000) as nat
    }

    /// Whether this indexes a leaf.
    pub fn is_leaf(&self) -> (r: bool)
        ensures
            r == self.spec_is_leaf(),
    {
        let v = self.0;
        assert(v & 0x8000_0000u32 == 0 <==> v < 0x8000_0000u32) by (bit_vector);
        v & 0x8000_0000u32 == 0
    }

    /// Whether this indexes a branch.
    pub fn is_node(&self) -> (r: bool)
        ensures
            r == !self.spec_is_leaf(),
    {
        !self.is_leaf()
    }

    /// The index of leaf `index`.
    pub fn new_leaf(index: usize) -> (r: NodeIndex)
        requires
            index < INDEX_LIMIT,
        ensures
            r.spec_is_leaf(),
            r.spec_index() == index,
    {
        NodeIndex(index as u32)
    }

    /// The index of branch `index`.
    pub fn new_node(index: usize) -> (r: NodeIndex)
        requires
            index < INDEX_LIMIT,
        ensures
            !r.spec_is_leaf(),
            r.spec_index() == index,
    {
        let i = index as u32;
        let v = i | 0x8000_0000u32;
        assert(v == i + 0x8000_0000u32 && v >= 0x8000_0000u32) by (bit_vector)
            requires i < 0x8000_0000u32, v == i | 0x8000_0000u32;
        NodeIndex(v)
    }

    /// The index, leaf or branch alike.
    pub fn index(&self) -> (r: usize)
        ensures
            r == self.spec_index(),
    {
        let v = self.0;
        let i = v & 0x7FFF_FFFFu32;
        assert(i == v % 0x8000_0000u32) by (bit_vector)
            requires i == v & 0x7FFF_FFFFu32;
        i as usize
    }
}

/// A branch: the union of its children's boxes, and the children.
#[derive(Clone, Copy, Debug, PartialEq, Eq, Structural)]
pub struct Branch {
    pub aabb: AABB,
    pub left: NodeIndex,
    pub right: NodeIndex,
}

/// The position of `x` in the arena that lists the `l` leaves and then the
/// branches.
pub open spec fn flat(l: int, x: NodeIndex) -> int {
    if x.spec_is_leaf() {
        x.spec_index() as int
    } else {
        l + x.spec_index()
    }
}

pub open spec fn branch_node(l: int, b: Branch) -> Node {
    Node {
        aabb: b.aabb,
        kind: NodeKind::Branch(flat(l, b.left) as usize, flat(l, b.right) as usize),
    }
}

pub open spec fn leaf_node(a: AABB) -> Node {
    Node { aabb: a, kind: NodeKind::Leaf }
}

/// The leaves and the branches as one arena: the leaves first.
pub open spec fn unified(leaves: Seq<AABB>, nodes: Seq<Branch>) -> Seq<Node> {
    leaves.map_values(|a: AABB| leaf_node(a)) + nodes.map_values(
        |b: Branch| branch_node(leaves.len() as int, b),
    )
}

/// The open entries' own pairs, summed.
pub open spec fn open_pairs(u: Seq<Node>, l: int, open: Seq<(u128, NodeIndex)>) -> nat {
    nat_sum(open.map_values(|e: (u128, NodeIndex)| pair_count(leaf_seq(u, flat(l, e.1)))))
}

/// The boxes under the open entries.
pub open spec fn open_boxes(u: Seq<Node>, l: int, open: Seq<(u128, NodeIndex)>) -> Multiset<AABB> {
    bag_sum(open.map_values(|e: (u128, NodeIndex)| leaf_seq(u, flat(l, e.1)).to_multiset()))
}

/// `x` indexes one of the `l` leaves, or one of the branches that fill the
/// arena up to `total`.
pub open spec fn valid_index(l: int, total: int, x: NodeIndex) -> bool {
    if x.spec_is_leaf() {
        x.spec_index() < l
    } else {
        l + x.spec_index() < total
    }
}

/// Every open entry indexes a node of the arena.
pub open spec fn open_valid(u: Seq<Node>, l: int, open: Seq<(u128, NodeIndex)>) -> bool {
    forall|k: int| 0 <= k < open.len() ==> #[trigger] valid_index(l, u.len() as int, open[k].1)
}

/// The children of every branch are valid indices of lower position.
pub open spec fn children_valid(l: int, nodes: Seq<Branch>) -> bool {
    forall|j: int| 0 <= j < nodes.len() ==> valid_index(l, l + j, #[trigger] nodes[j].left)
        && valid_index(l, l + j, nodes[j].right)
}

proof fn lemma_flat_bound(l: int, x: NodeIndex)
    requires
        0 <= l,
    ensures
        x.spec_index() < INDEX_LIMIT,
        0 <= flat(l, x),
{
}

proof fn lemma_unified_index(leaves: Seq<AABB>, nodes: Seq<Branch>)
    ensures
        unified(leaves, nodes).len() == leaves.len() + nodes.len(),
        forall|i: int| 0 <= i < leaves.len() ==> #[trigger] unified(leaves, nodes)[i] == leaf_node(leaves[i]),
        forall|j: int| 0 <= j < nodes.len() ==> #[trigger] unified(leaves, nodes)[leaves.len() + j]
            == branch_node(leaves.len() as int, nodes[j]),
{
}

proof fn lemma_unified_push(leaves: Seq<AABB>, nodes: Seq<Branch>, b: Branch)
    ensures
        unified(leaves, nodes.push(b)) == unified(leaves, nodes).push(branch_node(leaves.len() as int, b)),
{
    assert(unified(leaves, nodes.push(b)) =~= unified(leaves, nodes).push(branch_node(leaves.len() as int, b)));
}

/// Pushing an arena node keeps what the open entries stand for.
proof fn lemma_open_frame(u: Seq<Node>, n: Node, l: int, open: Seq<(u128, NodeIndex)>)
    requires
        0 <= l <= u.len(),
        open_valid(u, l, open),
    ensures
        open_pairs(u.push(n), l, open) == open_pairs(u, l, open),
        open_boxes(u.push(n), l, open) == open_boxes(u, l, open),
        open_valid(u.push(n), l, open),
{
    let ext = u.push(n);
    assert forall|k: int| 0 <= k < open.len() implies #[trigger] leaf_seq(ext, flat(l, open[k].1))
        == leaf_seq(u, flat(l, open[k].1)) by {
        lemma_flat_bound(l, open[k].1);
        assert(valid_index(l, u.len() as int, open[k].1));
        crate::arena::lemma_leaf_seq_push(u, n, flat(l, open[k].1));
    }
    assert forall|k: int| 0 <= k < open.len() implies #[trigger] valid_index(l, ext.len() as int, open[k].1) by {
        assert(valid_index(l, u.len() as int, open[k].1));
    }
    assert(open.map_values(|e: (u128, NodeIndex)| pair_count(leaf_seq(ext, flat(l, e.1))))
        =~= open.map_values(|e: (u128, NodeIndex)| pair_count(leaf_seq(u, flat(l, e.1)))));
    assert(open.map_values(|e: (u128, NodeIndex)| leaf_seq(ext, flat(l, e.1)).to_multiset())
        =~= open.map_values(|e: (u128, NodeIndex)| leaf_seq(u, flat(l, e.1)).to_multiset()));
}

/// The open sums after taking the last entry off, or putting one on.
proof fn lemma_open_push(u: Seq<Node>, l: int, open: Seq<(u128, NodeIndex)>, e: (u128, NodeIndex))
    ensures
        open_pairs(u, l, open.push(e)) == open_pairs(u, l, open) + pair_count(leaf_seq(u, flat(l, e.1))),
        open_boxes(u, l, open.push(e)) == open_boxes(u, l, open).add(leaf_seq(u, flat(l, e.1)).to_multiset()),
{
    let f = |e: (u128, NodeIndex)| pair_count(leaf_seq(u, flat(l, e.1)));
    let g = |e: (u128, NodeIndex)| leaf_seq(u, flat(l, e.1)).to_multiset();
    assert(open.push(e).map_values(f).drop_last() =~= open.map_values(f));
    assert(open.push(e).map_values(g).drop_last() =~= open.map_values(g));
}

/// The open sums do not depend on the order of the entries.
proof fn lemma_open_permutation(u: Seq<Node>, l: int, a: Seq<(u128, NodeIndex)>, b: Seq<(u128, NodeIndex)>)
    requires
        a.to_multiset() == b.to_multiset(),
    ensures
        open_pairs(u, l, a) == open_pairs(u, l, b),
        open_boxes(u, l, a) == open_boxes(u, l, b),
        open_valid(u, l, a) ==> open_valid(u, l, b),
{
    let f = |e: (u128, NodeIndex)| pair_count(leaf_seq(u, flat(l, e.1)));
    let g = |e: (u128, NodeIndex)| leaf_seq(u, flat(l, e.1)).to_multiset();
    lemma_multiset_map(a, b, f);
    lemma_multiset_map(a, b, g);
    lemma_nat_sum_permutation(a.map_values(f), b.map_values(f));
    lemma_bag_sum_permutation(a.map_values(g), b.map_values(g));
    if open_valid(u, l, a) {
        broadcast use vstd::seq_lib::group_to_multiset_ensures;
        assert forall|k: int| 0 <= k < b.len() implies #[trigger] valid_index(l, u.len() as int, b[k].1) by {
            assert(b.to_multiset().count(b[k]) > 0);
            assert(a.contains(b[k]));
            let j = choose|j: int| 0 <= j < a.len() && a[j] == b[k];
            assert(valid_index(l, u.len() as int, a[j].1));
        }
    }
}

/// Joining the two last open entries into a new branch appended to the arena,
/// whose entry goes to `fresh`, moves their boxes into the new entry and adds
/// the pairs the branch joins.
#[verifier::rlimit(40)]
proof fn lemma_merge_step(
    u: Seq<Node>,
    l: int,
    rest: Seq<(u128, NodeIndex)>,
    e1: (u128, NodeIndex),
    e2: (u128, NodeIndex),
    fresh: Seq<(u128, NodeIndex)>,
    node: Node,
    e3: (u128, NodeIndex),
)
    requires
        0 <= l <= u.len(),
        u.len() < usize::MAX,
        arena_wf(u),
        open_valid(u, l, rest.push(e2).push(e1)),
        open_valid(u, l, fresh),
        node == (Node {
            aabb: hull(u[flat(l, e1.1)].aabb, u[flat(l, e2.1)].aabb),
            kind: NodeKind::Branch(flat(l, e1.1) as usize, flat(l, e2.1) as usize),
        }),
        !e3.1.spec_is_leaf(),
        l + e3.1.spec_index() == u.len(),
    ensures
        arena_wf(u.push(node)),
        open_valid(u.push(node), l, rest),
        open_valid(u.push(node), l, fresh.push(e3)),
        open_pairs(u.push(node), l, rest) + open_pairs(u.push(node), l, fresh.push(e3)) == open_pairs(
            u,
            l,
            rest.push(e2).push(e1),
        ) + open_pairs(u, l, fresh) + branch_cross(u.push(node), u.len() as int),
        open_boxes(u.push(node), l, rest).add(open_boxes(u.push(node), l, fresh.push(e3)))
            == open_boxes(u, l, rest.push(e2).push(e1)).add(open_boxes(u, l, fresh)),
        branch_sum(u.push(node), l, u.len() + 1 as int) == branch_sum(u, l, u.len() as int) + branch_cross(
            u.push(node),
            u.len() as int,
        ),
{
    let len = u.len() as int;
    let ext = u.push(node);
    let all = rest.push(e2).push(e1);
    let fl = flat(l, e1.1);
    let fr = flat(l, e2.1);
    assert(all[all.len() - 1] == e1);
    assert(all[all.len() - 2] == e2);
    assert(valid_index(l, len, all[all.len() - 1].1));
    assert(valid_index(l, len, all[all.len() - 2].1));
    assert(fl < len);
    assert(fr < len);
    lemma_flat_bound(l, e1.1);
    lemma_flat_bound(l, e2.1);
    assert(node_wf(u, fl));
    assert(node_wf(u, fr));
    assert(ext[len] == node);
    assert(node_wf(ext, len));
    lemma_push_frame(u, node, l, len);
    lemma_sums_push(ext, l, len);
    assert(open_valid(u, l, rest)) by {
        assert forall|k: int| 0 <= k < rest.len() implies #[trigger] valid_index(l, u.len() as int, rest[k].1) by {
            assert(all[k] == rest[k]);
        }
    }
    lemma_open_frame(u, node, l, rest);
    lemma_open_frame(u, node, l, fresh);
    lemma_open_push(u, l, rest, e2);
    lemma_open_push(u, l, rest.push(e2), e1);
    lemma_open_push(ext, l, fresh, e3);
    crate::arena::lemma_leaf_seq_push(u, node, fl);
    crate::arena::lemma_leaf_seq_push(u, node, fr);
    let a = leaf_seq(u, fl);
    let b = leaf_seq(u, fr);
    assert(leaf_seq(ext, len) == a + b);
    lemma_pair_count_concat(a, b);
    vstd::seq_lib::lemma_multiset_commutative(a, b);
    assert forall|k: int| 0 <= k < fresh.push(e3).len() implies #[trigger] valid_index(l, ext.len() as int, fresh.push(e3)[k].1) by {
        if k < fresh.len() {
            assert(fresh.push(e3)[k] == fresh[k]);
            assert(valid_index(l, len, fresh[k].1));
        }
    }
    assert(open_boxes(ext, l, rest).add(open_boxes(ext, l, fresh.push(e3))) =~= open_boxes(u, l, all).add(
        open_boxes(u, l, fresh),
    ));
}

/// Entry `e` stands for arena position `j`.
pub open spec fn at_flat(l: int, e: (u128, NodeIndex), j: int) -> nat {
    if flat(l, e.1) == j { 1 } else { 0 }
}

/// How many entries stand for arena position `j`.
pub open spec fn open_count(l: int, open: Seq<(u128, NodeIndex)>, j: int) -> nat {
    nat_sum(open.map_values(|e: (u128, NodeIndex)| at_flat(l, e, j)))
}

/// Every position of the arena is, exactly once, a child of a branch or an
/// entry of `open` or `fresh`.
pub open spec fn counts_ok(u: Seq<Node>, l: int, open: Seq<(u128, NodeIndex)>, fresh: Seq<(u128, NodeIndex)>) -> bool {
    forall|j: int| #![trigger parent_count(u, j)] 0 <= j ==> parent_count(u, j) + open_count(l, open, j)
        + open_count(l, fresh, j) == if j < u.len() { 1nat } else { 0nat }
}

proof fn lemma_open_count_push(l: int, open: Seq<(u128, NodeIndex)>, e: (u128, NodeIndex))
    ensures
        forall|j: int| #[trigger] open_count(l, open.push(e), j) == open_count(l, open, j) + at_flat(l, e, j),
{
    assert forall|j: int| #[trigger] open_count(l, open.push(e), j) == open_count(l, open, j) + at_flat(l, e, j) by {
        assert(open.push(e).map_values(|x: (u128, NodeIndex)| at_flat(l, x, j)).drop_last()
            =~= open.map_values(|x: (u128, NodeIndex)| at_flat(l, x, j)));
    }
}

proof fn lemma_open_count_empty(l: int)
    ensures
        forall|j: int| #[trigger] open_count(l, Seq::<(u128, NodeIndex)>::empty(), j) == 0,
{
    assert forall|j: int| #[trigger] open_count(l, Seq::<(u128, NodeIndex)>::empty(), j) == 0 by {
        assert(Seq::<(u128, NodeIndex)>::empty().map_values(|x: (u128, NodeIndex)| at_flat(l, x, j))
            =~= Seq::<nat>::empty());
    }
}

proof fn lemma_open_count_permutation(l: int, a: Seq<(u128, NodeIndex)>, b: Seq<(u128, NodeIndex)>)
    requires
        a.to_multiset() == b.to_multiset(),
    ensures
        forall|j: int| #[trigger] open_count(l, a, j) == open_count(l, b, j),
{
    assert forall|j: int| #[trigger] open_count(l, a, j) == open_count(l, b, j) by {
        lemma_multiset_map(a, b, |x: (u128, NodeIndex)| at_flat(l, x, j));
        lemma_nat_sum_permutation(
            a.map_values(|x: (u128, NodeIndex)| at_flat(l, x, j)),
            b.map_values(|x: (u128, NodeIndex)| at_flat(l, x, j)),
        );
    }
}

/// Pops the two last open entries, appends a branch over them, and puts the
/// branch's entry in `fresh`.
fn join_last_two(
    leaves: &Vec<AABB>,
    nodes: &mut Vec<Branch>,
    open: &mut Vec<(u128, NodeIndex)>,
    fresh: &mut Vec<(u128, NodeIndex)>,
)
    requires
        old(open)@.len() >= 2,
        old(nodes)@.len() < INDEX_LIMIT,
        leaves@.len() + old(nodes)@.len() < usize::MAX,
        arena_wf(unified(leaves@, old(nodes)@)),
        children_valid(leaves@.len() as int, old(nodes)@),
        open_valid(unified(leaves@, old(nodes)@), leaves@.len() as int, old(open)@),
        open_valid(unified(leaves@, old(nodes)@), leaves@.len() as int, old(fresh)@),
        counts_ok(unified(leaves@, old(nodes)@), leaves@.len() as int, old(open)@, old(fresh)@),
    ensures
        counts_ok(unified(leaves@, final(nodes)@), leaves@.len() as int, final(open)@, final(fresh)@),
        final(open)@ == old(open)@.subrange(0, old(open)@.len() - 2),
        final(fresh)@.len() == old(fresh)@.len() + 1,
        final(nodes)@.len() == old(nodes)@.len() + 1,
        arena_wf(unified(leaves@, final(nodes)@)),
        children_valid(leaves@.len() as int, final(nodes)@),
        open_valid(unified(leaves@, final(nodes)@), leaves@.len() as int, final(open)@),
        open_valid(unified(leaves@, final(nodes)@), leaves@.len() as int, final(fresh)@),
        open_boxes(unified(leaves@, final(nodes)@), leaves@.len() as int, final(open)@).add(
            open_boxes(unified(leaves@, final(nodes)@), leaves@.len() as int, final(fresh)@),
        ) == open_boxes(unified(leaves@, old(nodes)@), leaves@.len() as int, old(open)@).add(
            open_boxes(unified(leaves@, old(nodes)@), leaves@.len() as int, old(fresh)@),
        ),
        branch_sum(unified(leaves@, final(nodes)@), leaves@.len() as int, (leaves@.len() + final(nodes)@.len()) as int)
            + open_pairs(unified(leaves@, old(nodes)@), leaves@.len() as int, old(open)@)
            + open_pairs(unified(leaves@, old(nodes)@), leaves@.len() as int, old(fresh)@)
            == branch_sum(unified(leaves@, old(nodes)@), leaves@.len() as int, (leaves@.len() + old(nodes)@.len()) as int)
            + open_pairs(unified(leaves@, final(nodes)@), leaves@.len() as int, final(open)@)
            + open_pairs(unified(leaves@, final(nodes)@), leaves@.len() as int, final(fresh)@),
{
    let ghost n = leaves@.len() as int;
    let ghost u = unified(leaves@, nodes@);
    let ghost all = open@;
    let e1 = open.pop().unwrap();
    let e2 = open.pop().unwrap();
    let ghost rest = open@;
    proof {
        assert(all =~= rest.push(e2).push(e1));
        assert(rest =~= all.subrange(0, all.len() - 2));
        lemma_unified_index(leaves@, nodes@);
        assert(valid_index(n, u.len() as int, all[all.len() - 1].1));
        assert(valid_index(n, u.len() as int, all[all.len() - 2].1));
    }
    let left = e1.1;
    let right = e2.1;
    let la = box_at(leaves, nodes, left);
    let ra = box_at(leaves, nodes, right);
    let aabb = la.union(&ra);
    let idx = nodes.len();
    let ni = NodeIndex::new_node(idx);
    proof {
        lemma_flat_bound(n, left);
        lemma_flat_bound(n, right);
        assert(node_wf(u, flat(n, left)));
        assert(node_wf(u, flat(n, right)));
    }
    let key = merge_rank(&aabb);
    let e3 = (key, ni);
    let b = Branch { aabb, left, right };
    proof {
        lemma_merge_step(u, n, rest, e1, e2, fresh@, branch_node(n, b), e3);
        lemma_unified_push(leaves@, nodes@, b);
        crate::arena::lemma_counts_push(u, branch_node(n, b));
        lemma_open_count_push(n, rest, e2);
        lemma_open_count_push(n, rest.push(e2), e1);
        lemma_open_count_push(n, fresh@, e3);
        let u2 = u.push(branch_node(n, b));
        assert forall|j: int| #![trigger parent_count(u2, j)] 0 <= j implies parent_count(u2, j)
            + open_count(n, rest, j) + open_count(n, fresh@.push(e3), j) == if j < u2.len() { 1nat } else { 0nat } by {
            assert(parent_count(u, j) + open_count(n, all, j) + open_count(n, fresh@, j) == if j < u.len() { 1nat } else { 0nat });
        }
        assert forall|k: int| 0 <= k < nodes@.push(b).len() implies valid_index(n, n + k, #[trigger] nodes@.push(b)[k].left)
            && valid_index(n, n + k, nodes@.push(b)[k].right) by {
            if k < nodes@.len() {
                assert(nodes@.push(b)[k] == nodes@[k]);
            }
        }
    }
    nodes.push(b);
    fresh.push(e3);
}

/// The sort rank of an open node: its spatial key reversed, so that an
/// ascending sort leaves the lowest keys at the end of the open list.
fn merge_rank(b: &AABB) -> (r: u128)
    requires
        b.wf(),
    ensures
        r == u128::MAX - box_key(*b),
{
    u128::MAX - leaf_key(b)
}

/// The box of the node `x` indexes.
fn box_at(leaves: &Vec<AABB>, nodes: &Vec<Branch>, x: NodeIndex) -> (r: AABB)
    requires
        valid_index(leaves@.len() as int, (leaves@.len() + nodes@.len()) as int, x),
    ensures
        r == unified(leaves@, nodes@)[flat(leaves@.len() as int, x)].aabb,
{
    proof {
        lemma_unified_index(leaves@, nodes@);
    }
    if x.is_leaf() {
        leaves[x.index()]
    } else {
        nodes[x.index()].aabb
    }
}

/// One open entry per leaf, with its rank, in input order.
fn open_leaves(leaves: &Vec<AABB>) -> (r: Vec<(u128, NodeIndex)>)
    requires
        leaves@.len() <= INDEX_LIMIT,
        all_wf(leaves@),
    ensures
        r@.len() == leaves@.len(),
        open_valid(unified(leaves@, Seq::empty()), leaves@.len() as int, r@),
        open_boxes(unified(leaves@, Seq::empty()), leaves@.len() as int, r@) == leaves@.to_multiset(),
        open_pairs(unified(leaves@, Seq::empty()), leaves@.len() as int, r@) == 0,
        counts_ok(unified(leaves@, Seq::empty()), leaves@.len() as int, r@, Seq::empty()),
{
    let n = leaves.len();
    let ghost u0 = unified(leaves@, Seq::<Branch>::empty());
    proof {
        lemma_unified_index(leaves@, Seq::<Branch>::empty());
    }
    let mut open: Vec<(u128, NodeIndex)> = Vec::new();
    let mut i: usize = 0;
    proof {
        broadcast use vstd::seq_lib::group_to_multiset_ensures;
        assert(leaves@.subrange(0, 0) =~= Seq::<AABB>::empty());
        assert(Seq::<AABB>::empty().to_multiset() =~= Multiset::<AABB>::empty());
        assert(open@.map_values(|e: (u128, NodeIndex)| leaf_seq(u0, flat(n as int, e.1)).to_multiset()) =~= Seq::<Multiset<AABB>>::empty());
        assert(open@.map_values(|e: (u128, NodeIndex)| pair_count(leaf_seq(u0, flat(n as int, e.1)))) =~= Seq::<nat>::empty());
        crate::arena::lemma_counts_leaves(u0);
        lemma_open_count_empty(n as int);
        assert(open@ =~= Seq::<(u128, NodeIndex)>::empty());
    }
    while i < n
        invariant
            n == leaves@.len(),
            n <= INDEX_LIMIT,
            i <= n,
            u0 == unified(leaves@, Seq::<Branch>::empty()),
            all_wf(leaves@),
            open@.len() == i,
            open_valid(u0, n as int, open@),
            open_boxes(u0, n as int, open@) == leaves@.subrange(0, i as int).to_multiset(),
            open_pairs(u0, n as int, open@) == 0,
            forall|j: int| #[trigger] parent_count(u0, j) == 0,
            forall|j: int| #[trigger] open_count(n as int, open@, j) == if 0 <= j < i { 1nat } else { 0nat },
        decreases n - i,
    {
        let b = leaves[i];
        assert(leaves@[i as int].wf());
        let key = merge_rank(&b);
        let e = (key, NodeIndex::new_leaf(i));
        proof {
            lemma_open_push(u0, n as int, open@, e);
            lemma_open_count_push(n as int, open@, e);
            assert(u0[i as int] == leaf_node(b));
            assert(leaf_seq(u0, i as int) == seq![b]);
            lemma_pair_count_single(b);
            broadcast use vstd::seq_lib::group_to_multiset_ensures;
            assert(leaves@.subrange(0, i + 1) =~= leaves@.subrange(0, i as int).push(b));
            assert(seq![b] =~= Seq::<AABB>::empty().push(b));
            assert forall|k: int| 0 <= k < open@.push(e).len() implies #[trigger] valid_index(n as int, u0.len() as int, open@.push(e)[k].1) by {
                if k < open@.len() {
                    assert(open@.push(e)[k] == open@[k]);
                }
            }
        }
        open.push(e);
        i = i + 1;
    }
    proof {
        assert(leaves@.subrange(0, n as int) =~= leaves@);
        lemma_open_count_empty(n as int);
    }
    open
}

/// One round: sorts the open entries by rank, joins them two by two from the
/// end of the order, lowest keys first, and reopens the new branches.
#[verifier::rlimit(40)]
fn merge_round(leaves: &Vec<AABB>, nodes: &mut Vec<Branch>, open: &mut Vec<(u128, NodeIndex)>)
    requires
        leaves@.len() >= 1,
        leaves@.len() <= INDEX_LIMIT,
        2 * leaves@.len() <= usize::MAX,
        old(open)@.len() > 1,
        old(nodes)@.len() + old(open)@.len() == leaves@.len(),
        arena_wf(unified(leaves@, old(nodes)@)),
        children_valid(leaves@.len() as int, old(nodes)@),
        open_valid(unified(leaves@, old(nodes)@), leaves@.len() as int, old(open)@),
        branch_sum(unified(leaves@, old(nodes)@), leaves@.len() as int, (leaves@.len() + old(nodes)@.len()) as int) == open_pairs(
            unified(leaves@, old(nodes)@),
            leaves@.len() as int,
            old(open)@,
        ),
        counts_ok(unified(leaves@, old(nodes)@), leaves@.len() as int, old(open)@, Seq::empty()),
    ensures
        counts_ok(unified(leaves@, final(nodes)@), leaves@.len() as int, final(open)@, Seq::empty()),
        1 <= final(open)@.len() < old(open)@.len(),
        final(nodes)@.len() + final(open)@.len() == leaves@.len(),
        arena_wf(unified(leaves@, final(nodes)@)),
        children_valid(leaves@.len() as int, final(nodes)@),
        open_valid(unified(leaves@, final(nodes)@), leaves@.len() as int, final(open)@),
        open_boxes(unified(leaves@, final(nodes)@), leaves@.len() as int, final(open)@) == open_boxes(
            unified(leaves@, old(nodes)@),
            leaves@.len() as int,
            old(open)@,
        ),
        branch_sum(unified(leaves@, final(nodes)@), leaves@.len() as int, (leaves@.len() + final(nodes)@.len()) as int) == open_pairs(
            unified(leaves@, final(nodes)@),
            leaves@.len() as int,
            final(open)@,
        ),
{
    let n = leaves.len();
    let ghost input_boxes = open_boxes(unified(leaves@, nodes@), n as int, open@);
    let ghost before = open@;
    sort_by_key(open);
    proof {
        lemma_unified_index(leaves@, nodes@);
        lemma_open_permutation(unified(leaves@, nodes@), n as int, before, open@);
        lemma_open_permutation(unified(leaves@, nodes@), n as int, open@, before);
        lemma_open_count_permutation(n as int, open@, before);
        lemma_open_count_empty(n as int);
        broadcast use vstd::seq_lib::group_to_multiset_ensures;
        assert(open@.len() == open@.to_multiset().len());
        assert(before.len() == before.to_multiset().len());
    }
    let node_to_add = open.len() / 2;
    let mut fresh: Vec<(u128, NodeIndex)> = Vec::new();
    let mut j: usize = 0;
    let ghost len0 = open@.len();
    proof {
        let u = unified(leaves@, nodes@);
        assert(fresh@.map_values(|e: (u128, NodeIndex)| leaf_seq(u, flat(n as int, e.1)).to_multiset()) =~= Seq::<Multiset<AABB>>::empty());
        assert(fresh@.map_values(|e: (u128, NodeIndex)| pair_count(leaf_seq(u, flat(n as int, e.1)))) =~= Seq::<nat>::empty());
        assert(open_boxes(u, n as int, open@).add(open_boxes(u, n as int, fresh@)) =~= input_boxes);
    }
    while j < node_to_add
        invariant
            n == leaves@.len(),
            n >= 1,
            n <= INDEX_LIMIT,
            2 * n <= usize::MAX,
            node_to_add == len0 / 2,
            len0 >= 2,
            j <= node_to_add,
            open@.len() == len0 - 2 * j,
            fresh@.len() == j,
            nodes@.len() + open@.len() + fresh@.len() == n,
            arena_wf(unified(leaves@, nodes@)),
            children_valid(n as int, nodes@),
            open_valid(unified(leaves@, nodes@), n as int, open@),
            open_valid(unified(leaves@, nodes@), n as int, fresh@),
            open_boxes(unified(leaves@, nodes@), n as int, open@).add(
                open_boxes(unified(leaves@, nodes@), n as int, fresh@),
            ) == input_boxes,
            branch_sum(unified(leaves@, nodes@), n as int, n + nodes@.len()) == open_pairs(
                unified(leaves@, nodes@),
                n as int,
                open@,
            ) + open_pairs(unified(leaves@, nodes@), n as int, fresh@),
            counts_ok(unified(leaves@, nodes@), n as int, open@, fresh@),
        decreases node_to_add - j,
    {
        join_last_two(leaves, nodes, open, &mut fresh);
        j = j + 1;
    }
    // reopen this round's branches
    while fresh.len() > 0
        invariant
            n == leaves@.len(),
            n >= 1,
            nodes@.len() + open@.len() + fresh@.len() == n,
            open@.len() + fresh@.len() == len0 - node_to_add,
            node_to_add == len0 / 2,
            len0 >= 2,
            arena_wf(unified(leaves@, nodes@)),
            open_valid(unified(leaves@, nodes@), n as int, open@),
            open_valid(unified(leaves@, nodes@), n as int, fresh@),
            open_boxes(unified(leaves@, nodes@), n as int, open@).add(
                open_boxes(unified(leaves@, nodes@), n as int, fresh@),
            ) == input_boxes,
            branch_sum(unified(leaves@, nodes@), n as int, n + nodes@.len()) == open_pairs(
                unified(leaves@, nodes@),
                n as int,
                open@,
            ) + open_pairs(unified(leaves@, nodes@), n as int, fresh@),
            counts_ok(unified(leaves@, nodes@), n as int, open@, fresh@),
        decreases fresh@.len(),
    {
        let ghost u = unified(leaves@, nodes@);
        let ghost f0 = fresh@;
        let e = fresh.pop().unwrap();
        proof {
            assert(f0 =~= fresh@.push(e));
            lemma_open_push(u, n as int, fresh@, e);
            lemma_open_push(u, n as int, open@, e);
            lemma_open_count_push(n as int, fresh@, e);
            lemma_open_count_push(n as int, open@, e);
            assert(valid_index(n as int, u.len() as int, f0[f0.len() - 1]. 1));
            assert forall|k: int| 0 <= k < fresh@.len() implies #[trigger] valid_index(n as int, u.len() as int, fresh@[k].1) by {
                assert(f0[k] == fresh@[k]);
            }
            assert forall|k: int| 0 <= k < open@.push(e).len() implies #[trigger] valid_index(n as int, u.len() as int, open@.push(e)[k].1) by {
                if k < open@.len() {
                    assert(open@.push(e)[k] == open@[k]);
                }
            }
            assert(open_boxes(u, n as int, open@.push(e)).add(open_boxes(u, n as int, fresh@)) =~= open_boxes(u, n as int, open@).add(open_boxes(u, n as int, f0)));
        }
        open.push(e);
    }
    proof {
        lemma_open_count_empty(n as int);
        assert(fresh@ =~= Seq::<(u128, NodeIndex)>::empty());
    }
}

/// With one open entry left, the open sums are that entry's.
proof fn lemma_single_open(u: Seq<Node>, l: int, open: Seq<(u128, NodeIndex)>)
    requires
        open.len() == 1,
    ensures
        open_pairs(u, l, open) == pair_count(leaf_seq(u, flat(l, open[0].1))),
        open_boxes(u, l, open) == leaf_seq(u, flat(l, open[0].1)).to_multiset(),
{
    let f = |e: (u128, NodeIndex)| pair_count(leaf_seq(u, flat(l, e.1)));
    let g = |e: (u128, NodeIndex)| leaf_seq(u, flat(l, e.1)).to_multiset();
    assert(open.map_values(f).drop_last() =~= Seq::<nat>::empty());
    assert(open.map_values(g).drop_last() =~= Seq::<Multiset<AABB>>::empty());
    assert(nat_sum(Seq::<nat>::empty()) == 0);
    assert(bag_sum(Seq::<Multiset<AABB>>::empty()) == Multiset::<AABB>::empty());
    assert(open_boxes(u, l, open) =~= leaf_seq(u, flat(l, open[0].1)).to_multiset());
}

/// A tree built by priority merging: each round sorts all open nodes by spatial
/// key and joins the lowest-key ones two by two, the highest left over when
/// their number is odd; each join's branch reopens for the next round.
pub struct BVH {
    leaves: Vec<AABB>,
    nodes: Vec<Branch>,
    root: NodeIndex,
    boxes: Ghost<Seq<AABB>>,
}

impl View for BVH {
    type V = Seq<AABB>;

    /// The boxes of the last build, in the order they were given.
    closed spec fn view(&self) -> Seq<AABB> {
        self.boxes@
    }
}

/// `n` boxes fit this tree: the count is representable and every index fits
/// a `NodeIndex`.
pub open spec fn fits_tagged(n: int) -> bool {
    fits(n) && n <= INDEX_LIMIT
}

impl BVH {
    /// The leaves and the branches as one arena, leaves first.
    pub closed spec fn arena(&self) -> Seq<Node> {
        unified(self.leaves@, self.nodes@)
    }

    /// The index of the root.
    pub closed spec fn root_index(&self) -> NodeIndex {
        self.root
    }

    /// The number of leaves.
    pub closed spec fn leaf_total(&self) -> int {
        self.leaves@.len() as int
    }

    /// Where a `NodeIndex` points in the arena.
    pub closed spec fn position(&self, x: NodeIndex) -> int {
        flat(self.leaves@.len() as int, x)
    }

    /// `x` indexes a node of the arena.
    pub closed spec fn valid(&self, x: NodeIndex) -> bool {
        valid_index(self.leaves@.len() as int, (self.leaves@.len() + self.nodes@.len()) as int, x)
    }

    pub closed spec fn wf(&self) -> bool {
        let n = self.boxes@.len();
        let u = unified(self.leaves@, self.nodes@);
        let root = flat(n as int, self.root);
        &&& self.leaves@ == self.boxes@
        &&& fits_tagged(n as int)
        &&& all_wf(self.boxes@)
        &&& arena_wf(u)
        &&& children_valid(n as int, self.nodes@)
        &&& n == 0 ==> self.nodes@.len() == 0
        &&& n > 0 ==> {
            &&& self.nodes@.len() == n - 1
            &&& valid_index(n as int, u.len() as int, self.root)
            &&& root == u.len() - 1
            &&& forall|j: int| #![trigger parent_count(u, j)] 0 <= j ==> parent_count(u, j)
                == if j < u.len() - 1 { 1nat } else { 0nat }
            &&& leaf_seq(u, root).to_multiset() == self.boxes@.to_multiset()
            &&& branch_sum(u, n as int, u.len() as int) == pair_count(leaf_seq(u, root))
        }
    }

    /// An empty tree.
    pub fn new() -> (r: BVH)
        ensures
            r.wf(),
            r@ == Seq::<AABB>::empty(),
    {
        let r = BVH { leaves: Vec::new(), nodes: Vec::new(), root: NodeIndex(0), boxes: Ghost(Seq::empty()) };
        assert(unified(r.leaves@, r.nodes@) =~= Seq::<Node>::empty());
        r
    }

    /// The box of the node `x` indexes.
    pub fn get_aabb(&self, x: NodeIndex) -> (r: AABB)
        requires
            self.wf(),
            self.valid(x),
        ensures
            r == self.arena()[self.position(x)].aabb,
    {
        proof {
            lemma_unified_index(self.leaves@, self.nodes@);
        }
        box_at(&self.leaves, &self.nodes, x)
    }

    /// Rebuilds the tree from `leaves`. Fails, leaving the tree as it was, when
    /// the boxes do not fit.
    #[verifier::rlimit(50)]
    pub fn build(&mut self, leaves: Vec<AABB>) -> (r: Result<(), BuildError>)
        requires
            old(self).wf(),
            all_wf(leaves@),
        ensures
            r is Ok <==> fits_tagged(leaves@.len() as int),
            r is Ok ==> final(self)@ == leaves@,
            r is Err ==> final(self)@ == old(self)@,
            final(self).wf(),
    {
        let n = leaves.len();
        if !check_capacity(n) || n > INDEX_LIMIT {
            return Err(BuildError::Capacity);
        }
        let ghost input = leaves@;
        let mut nodes: Vec<Branch> = Vec::new();
        if n == 0 {
            self.leaves = leaves;
            self.nodes = nodes;
            self.root = NodeIndex(0);
            self.boxes = Ghost(input);
            assert(unified(self.leaves@, self.nodes@) =~= Seq::<Node>::empty());
            return Ok(());
        }
        proof {
            assert(n <= 1 || 2 * n <= n * n) by (nonlinear_arith);
            lemma_unified_index(leaves@, nodes@);
        }
        let ghost u0 = unified(leaves@, nodes@);
        assert(arena_wf(u0)) by {
            assert forall|i: int| 0 <= i < u0.len() implies #[trigger] node_wf(u0, i) by {
                assert(u0[i] == leaf_node(leaves@[i]));
                assert(leaves@[i].wf());
            }
        }
        let mut open = open_leaves(&leaves);
        proof {
            assert(branch_sum(u0, n as int, n as int) == 0);
        }
        while open.len() > 1
            invariant
                n == leaves@.len(),
                n >= 1,
                n <= INDEX_LIMIT,
                2 * n <= usize::MAX,
                input == leaves@,
                nodes@.len() + open@.len() == n,
                arena_wf(unified(leaves@, nodes@)),
                children_valid(n as int, nodes@),
                open_valid(unified(leaves@, nodes@), n as int, open@),
                open_boxes(unified(leaves@, nodes@), n as int, open@) == input.to_multiset(),
                branch_sum(unified(leaves@, nodes@), n as int, n + nodes@.len()) == open_pairs(
                    unified(leaves@, nodes@),
                    n as int,
                    open@,
                ),
                open@.len() >= 1,
                counts_ok(unified(leaves@, nodes@), n as int, open@, Seq::empty()),
            decreases open@.len(),
        {
            merge_round(&leaves, &mut nodes, &mut open);
        }
        assert(open@.len() == 1);
        let root = open[0].1;
        proof {
            let u = unified(leaves@, nodes@);
            lemma_unified_index(leaves@, nodes@);
            lemma_single_open(unified(leaves@, nodes@), n as int, open@);
            lemma_open_count_empty(n as int);
            lemma_open_count_push(n as int, Seq::<(u128, NodeIndex)>::empty(), open@[0]);
            assert(open@ =~= Seq::<(u128, NodeIndex)>::empty().push(open@[0]));
            crate::arena::lemma_no_parent_last(u);
            assert(parent_count(u, u.len() - 1) + open_count(n as int, open@, u.len() - 1)
                + open_count(n as int, Seq::empty(), u.len() - 1) == 1);
            assert(flat(n as int, root) == u.len() - 1);
            assert forall|j: int| #![trigger parent_count(u, j)] 0 <= j implies parent_count(u, j)
                == if j < u.len() - 1 { 1nat } else { 0nat } by {
                assert(parent_count(u, j) + open_count(n as int, open@, j) + open_count(n as int, Seq::empty(), j)
                    == if j < u.len() { 1nat } else { 0nat });
            }
        }
        self.leaves = leaves;
        self.nodes = nodes;
        self.root = root;
        self.boxes = Ghost(input);
        Ok(())
    }

    /// What the arena holds at the position of a valid index.
    proof fn lemma_node_facts(&self, x: NodeIndex)
        requires
            self.wf(),
            self.valid(x),
        ensures
            0 <= self.position(x) < self.arena().len(),
            self.arena().len() <= usize::MAX,
            x.spec_is_leaf() ==> leaf_seq(self.arena(), self.position(x)) == seq![
                self.arena()[self.position(x)].aabb,
            ],
            !x.spec_is_leaf() ==> {
                let b = self.nodes@[x.spec_index() as int];
                &&& x.spec_index() < self.nodes@.len()
                &&& self.valid(b.left)
                &&& self.valid(b.right)
                &&& self.position(b.left) < self.position(x)
                &&& self.position(b.right) < self.position(x)
                &&& leaf_seq(self.arena(), self.position(x)) == leaf_seq(
                    self.arena(),
                    self.position(b.left),
                ) + leaf_seq(self.arena(), self.position(b.right))
            },
    {
        let n = self.leaves@.len() as int;
        let u = self.arena();
        lemma_unified_index(self.leaves@, self.nodes@);
        lemma_flat_bound(n, x);
        if n >= 2 {
            assert(2 * n <= n * n) by (nonlinear_arith)
                requires n >= 2;
        }
        let p = flat(n, x);
        if !x.spec_is_leaf() {
            let j = x.spec_index() as int;
            let b = self.nodes@[j];
            assert(valid_index(n, n + j, b.left) && valid_index(n, n + j, b.right));
            lemma_flat_bound(n, b.left);
            lemma_flat_bound(n, b.right);
            assert(u[n + j] == branch_node(n, b));
            assert(node_wf(u, p));
        }
    }

    /// Adds to `output` the intersecting pairs with one box under `left` and the
    /// other under `right`.
    pub fn recursive_collision_between_nodes(&self, left: NodeIndex, right: NodeIndex, output: &mut usize)
        requires
            self.wf(),
            self.valid(left),
            self.valid(right),
            *old(output) + node_cross(self.arena(), self.position(left), self.position(right))
                <= usize::MAX,
        ensures
            *final(output) == *old(output) + node_cross(
                self.arena(),
                self.position(left),
                self.position(right),
            ),
        decreases self.position(left) + self.position(right),
    {
        proof {
            self.lemma_node_facts(left);
            self.lemma_node_facts(right);
        }
        let ghost u = self.arena();
        let ghost pl = self.position(left);
        let ghost pr = self.position(right);
        let la = self.get_aabb(left);
        let ra = self.get_aabb(right);
        if !la.intersects(&ra) {
            proof {
                lemma_leaf_seq_enclosed(u, pl);
                lemma_leaf_seq_enclosed(u, pr);
                lemma_cross_disjoint(la, leaf_seq(u, pl), ra, leaf_seq(u, pr));
            }
            return ;
        }
        match (left.is_leaf(), right.is_leaf()) {
            (true, true) => {
                proof {
                    lemma_cross_single(la, ra);
                }
                *output = *output + 1;
            },
            (true, false) => {
                let rn = self.nodes[right.index()];
                proof {
                    lemma_cross_concat_right(
                        leaf_seq(u, pl),
                        leaf_seq(u, self.position(rn.left)),
                        leaf_seq(u, self.position(rn.right)),
                    );
                }
                self.recursive_collision_between_nodes(left, rn.left, output);
                self.recursive_collision_between_nodes(left, rn.right, output);
            },
            (false, true) => {
                let ln = self.nodes[left.index()];
                proof {
                    lemma_cross_concat_left(
                        leaf_seq(u, self.position(ln.left)),
                        leaf_seq(u, self.position(ln.right)),
                        leaf_seq(u, pr),
                    );
                }
                self.recursive_collision_between_nodes(ln.left, right, output);
                self.recursive_collision_between_nodes(ln.right, right, output);
            },
            (false, false) => {
                let ln = self.nodes[left.index()];
                let rn = self.nodes[right.index()];
                proof {
                    let a = leaf_seq(u, self.position(ln.left));
                    let b = leaf_seq(u, self.position(ln.right));
                    let c = leaf_seq(u, self.position(rn.left));
                    let d = leaf_seq(u, self.position(rn.right));
                    lemma_cross_concat_left(a, b, c + d);
                    lemma_cross_concat_right(a, c, d);
                    lemma_cross_concat_right(b, c, d);
                }
                self.recursive_collision_between_nodes(ln.left, rn.left, output);
                self.recursive_collision_between_nodes(ln.left, rn.right, output);
                self.recursive_collision_between_nodes(ln.right, rn.left, output);
                self.recursive_collision_between_nodes(ln.right, rn.right, output);
            },
        }
    }

    /// Adds to `output` the intersecting pairs under `left` and `right` taken
    /// together.
    pub fn recursive_visit(&self, left: NodeIndex, right: NodeIndex, output: &mut usize)
        requires
            self.wf(),
            self.valid(left),
            self.valid(right),
            *old(output) + pair_count(
                leaf_seq(self.arena(), self.position(left)) + leaf_seq(self.arena(), self.position(right)),
            ) <= usize::MAX,
        ensures
            *final(output) == *old(output) + pair_count(
                leaf_seq(self.arena(), self.position(left)) + leaf_seq(self.arena(), self.position(right)),
            ),
        decreases if self.position(left) >= self.position(right) {
            self.position(left)
        } else {
            self.position(right)
        },
    {
        let ghost u = self.arena();
        let ghost sl = leaf_seq(u, self.position(left));
        let ghost sr = leaf_seq(u, self.position(right));
        proof {
            self.lemma_node_facts(left);
            self.lemma_node_facts(right);
            lemma_pair_count_concat(sl, sr);
        }
        if !left.is_leaf() {
            let node = self.nodes[left.index()];
            self.recursive_visit(node.left, node.right, output);
        } else {
            proof {
                lemma_pair_count_single(u[self.position(left)].aabb);
            }
        }
        if !right.is_leaf() {
            let node = self.nodes[right.index()];
            self.recursive_visit(node.left, node.right, output);
        } else {
            proof {
                lemma_pair_count_single(u[self.position(right)].aabb);
            }
        }
        self.recursive_collision_between_nodes(left, right, output);
    }

    /// The shape of the tree: the leaves are exactly the boxes built from, in
    /// input order; `n - 1` branches follow them, each joining two lower nodes
    /// with the union of their boxes; the root is the last node, and every
    /// other node is named as a child exactly once, so a branch's two children
    /// differ.
    pub proof fn lemma_shape(&self)
        requires
            self.wf(),
        ensures
            self.leaf_total() == self@.len(),
            forall|k: int| 0 <= k < self@.len() ==> #[trigger] self.arena()[k] == leaf_node(self@[k]),
            self@.len() == 0 ==> self.arena().len() == 0,
            self@.len() > 0 ==> self.arena().len() == 2 * self@.len() - 1,
            self@.len() > 0 ==> self.position(self.root_index()) == self.arena().len() - 1,
            arena_wf(self.arena()),
            forall|j: int| 0 <= j < self.arena().len() - 1 ==> #[trigger] parent_count(self.arena(), j) == 1,
            self.arena().len() > 0 ==> parent_count(self.arena(), self.arena().len() - 1) == 0,
    {
        lemma_unified_index(self.leaves@, self.nodes@);
        if self@.len() == 0 {
            assert(self.arena() =~= Seq::<Node>::empty());
        }
    }

    /// The parallel traversal's sum over the branches and the recursive visit
    /// from the root count the same pairs: those of the boxes last built.
    pub proof fn lemma_traversals_agree(&self)
        requires
            self.wf(),
            self@.len() > 0,
        ensures
            branch_sum(self.arena(), self.leaf_total(), self.arena().len() as int) == pair_count(
                leaf_seq(self.arena(), self.position(self.root_index())),
            ),
            pair_count(leaf_seq(self.arena(), self.position(self.root_index()))) == pair_count(self@),
    {
        self.lemma_count();
    }

    proof fn lemma_count(&self)
        requires
            self.wf(),
            self.boxes@.len() > 0,
        ensures
            pair_count(leaf_seq(self.arena(), self.position(self.root))) == pair_count(self@),
            branch_sum(self.arena(), self.leaves@.len() as int, self.arena().len() as int) == pair_count(self@),
            pair_count(self@) <= usize::MAX,
    {
        lemma_unified_index(self.leaves@, self.nodes@);
        lemma_pair_count_permutation(leaf_seq(self.arena(), self.position(self.root)), self@);
        lemma_pair_count_bound(self@);
    }

    /// The number of intersecting pairs, by a recursive visit from the root.
    pub fn get_collision(&self) -> (r: usize)
        requires
            self.wf(),
        ensures
            r == pair_count(self@),
    {
        let mut output: usize = 0;
        if self.leaves.len() == 0 {
            return 0;
        }
        proof {
            self.lemma_count();
            self.lemma_node_facts(self.root);
        }
        if self.root.is_leaf() {
            proof {
                lemma_pair_count_single(self.arena()[self.position(self.root)].aabb);
            }
        } else {
            let node = self.nodes[self.root.index()];
            self.recursive_visit(node.left, node.right, &mut output);
        }
        output
    }

    /// The pairs that the branch at arena position `i` joins.
    pub fn branch_collisions(&self, i: usize) -> (r: usize)
        requires
            self.wf(),
            self.leaf_total() <= i < self.arena().len(),
            branch_cross(self.arena(), i as int) <= usize::MAX,
        ensures
            r == branch_cross(self.arena(), i as int),
    {
        let ghost u = self.arena();
        let j = i - self.leaves.len();
        let x = NodeIndex::new_node(j);
        proof {
            lemma_unified_index(self.leaves@, self.nodes@);
            assert(self.position(x) == i);
            self.lemma_node_facts(x);
            assert(u[i as int] == branch_node(self.leaves@.len() as int, self.nodes@[j as int]));
        }
        let node = self.nodes[j];
        let mut output: usize = 0;
        self.recursive_collision_between_nodes(node.left, node.right, &mut output);
        output
    }

    /// The number of intersecting pairs, as the sum over every branch of the
    /// pairs it joins, the branches taken in parallel.
    pub fn get_collision_par(&self) -> (r: usize)
        requires
            self.wf(),
        ensures
            r == pair_count(self@),
    {
        if self.leaves.len() == 0 {
            proof {
                assert(self.arena().len() == 0);
                assert(pair_count(self@) == 0);
            }
            return 0;
        }
        proof {
            self.lemma_count();
            lemma_branch_sum_term(self.arena(), self.leaves@.len() as int, self.arena().len() as int);
            lemma_unified_index(self.leaves@, self.nodes@);
        }
        let lo = self.leaves.len();
        let hi = lo + self.nodes.len();
        par_branches(self, lo, hi)
    }
}

/// Relies on rayon's `into_par_iter().map().sum()` over a range: the sum of the
/// mapped values, each computed by a verified function.
#[verifier::external_body]
fn par_branches(tree: &BVH, lo: usize, hi: usize) -> (r: usize)
    requires
        tree.wf(),
        lo == tree.leaf_total(),
        hi == tree.arena().len(),
        forall|i: int| lo <= i < hi ==> #[trigger] branch_cross(tree.arena(), i) <= usize::MAX,
        branch_sum(tree.arena(), lo as int, hi as int) <= usize::MAX,
    ensures
        r == branch_sum(tree.arena(), lo as int, hi as int),
{
    (lo..hi).into_par_iter().map(|i| tree.branch_collisions(i)).sum()
}

} // verus!