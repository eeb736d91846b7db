use vstd::prelude::*;
use crate::position::{AABB, overlaps, encloses};
use crate::sums::{sum_range, lemma_sum_range_ext, lemma_sum_range_push};

verus! {

/// How many boxes of `s` intersect `b`.
pub open spec fn hits(b: AABB, s: Seq<AABB>) -> nat
    decreases s.len(),
{
    if s.len() == 0 {
        0
    } else {
        hits(b, s.drop_last()) + if overlaps(b, s.last()) { 1nat } else { 0nat }
    }
}

/// How many pairs `(a, b)`, `a` from `s` and `b` from `t`, intersect.
pub open spec fn cross(s: Seq<AABB>, t: Seq<AABB>) -> nat
    decreases s.len(),
{
    if s.len() == 0 {
        0
    } else {
        cross(s.drop_last(), t) + hits(s.last(), t)
    }
}

/// How many unordered pairs of distinct positions of `s` hold intersecting boxes:
/// the brute-force pairwise count.
pub open spec fn pair_count(s: Seq<AABB>) -> nat
    decreases s.len(),
{
    if s.len() == 0 {
        0
    } else {
        pair_count(s.drop_last()) + hits(s.last(), s.drop_last())
    }
}

/// Every box of `s` lies inside `outer`.
pub open spec fn all_enclosed(outer: AABB, s: Seq<AABB>) -> bool {
    forall|k: int| 0 <= k < s.len() ==> #[trigger] encloses(outer, s[k])
}

/// Every box of `s` is well formed.
pub open spec fn all_wf(s: Seq<AABB>) -> bool {
    forall|k: int| 0 <= k < s.len() ==> (#[trigger] s[k]).wf()
}

pub proof fn lemma_hits_bound(b: AABB, s: Seq<AABB>)
    ensures
        hits(b, s) <= s.len(),
    decreases s.len(),
{
    if s.len() > 0 {
        lemma_hits_bound(b, s.drop_last());
    }
}

pub proof fn lemma_pair_count_bound(s: Seq<AABB>)
    ensures
        pair_count(s) <= s.len() * s.len(),
    decreases s.len(),
{
    if s.len() > 0 {
        lemma_pair_count_bound(s.drop_last());
        lemma_hits_bound(s.last(), s.drop_last());
        let n = s.len() as int;
        assert((n - 1) * (n - 1) + (n - 1) <= n * n) by (nonlinear_arith)
            requires n >= 1;
    }
}

pub proof fn lemma_hits_concat(b: AABB, s: Seq<AABB>, t: Seq<AABB>)
    ensures
        hits(b, s + t) == hits(b, s) + hits(b, t),
    decreases t.len(),
{
    if t.len() == 0 {
        assert(s + t =~= s);
    } else {
        assert((s + t).drop_last() =~= s + t.drop_last());
        lemma_hits_concat(b, s, t.drop_last());
    }
}

pub proof fn lemma_cross_concat_left(s1: Seq<AABB>, s2: Seq<AABB>, t: Seq<AABB>)
    ensures
        cross(s1 + s2, t) == cross(s1, t) + cross(s2, t),
    decreases s2.len(),
{
    if s2.len() == 0 {
        assert(s1 + s2 =~= s1);
    } else {
        assert((s1 + s2).drop_last() =~= s1 + s2.drop_last());
        lemma_cross_concat_left(s1, s2.drop_last(), t);
    }
}

pub proof fn lemma_cross_concat_right(s: Seq<AABB>, t1: Seq<AABB>, t2: Seq<AABB>)
    ensures
        cross(s, t1 + t2) == cross(s, t1) + cross(s, t2),
    decreases s.len(),
{
    if s.len() > 0 {
        lemma_cross_concat_right(s.drop_last(), t1, t2);
        lemma_hits_concat(s.last(), t1, t2);
    }
}

pub proof fn lemma_cross_single(a: AABB, b: AABB)
    ensures
        cross(seq![a], seq![b]) == if overlaps(a, b) { 1nat } else { 0nat },
{
    assert(seq![a].drop_last() =~= Seq::<AABB>::empty());
    assert(seq![b].drop_last() =~= Seq::<AABB>::empty());
    assert(cross(Seq::<AABB>::empty(), seq![b]) == 0);
    assert(hits(a, Seq::<AABB>::empty()) == 0);
}

pub proof fn lemma_hits_single(b: AABB, x: AABB)
    ensures
        hits(b, seq![x]) == if overlaps(b, x) { 1nat } else { 0nat },
{
    assert(seq![x].drop_last() =~= Seq::<AABB>::empty());
    assert(seq![x].last() == x);
    assert(hits(b, Seq::<AABB>::empty()) == 0);
}

pub proof fn lemma_pair_count_single(x: AABB)
    ensures
        pair_count(seq![x]) == 0,
{
    assert(seq![x].drop_last() =~= Seq::<AABB>::empty());
    assert(pair_count(Seq::<AABB>::empty()) == 0);
    assert(hits(x, Seq::<AABB>::empty()) == 0);
}

/// `cross(s, [b])` counts the boxes of `s` that intersect `b`.
pub proof fn lemma_cross_one_right(s: Seq<AABB>, b: AABB)
    ensures
        cross(s, seq![b]) == hits(b, s),
    decreases s.len(),
{
    if s.len() > 0 {
        lemma_cross_one_right(s.drop_last(), b);
        assert(seq![b].drop_last() =~= Seq::<AABB>::empty());
        assert(hits(s.last(), Seq::<AABB>::empty()) == 0);
        assert(hits(b, Seq::<AABB>::empty()) == 0);
    } else {
        assert(cross(s, seq![b]) == 0);
    }
}

pub proof fn lemma_cross_one_left(a: AABB, t: Seq<AABB>)
    ensures
        cross(seq![a], t) == hits(a, t),
{
    assert(seq![a].drop_last() =~= Seq::<AABB>::empty());
    assert(cross(Seq::<AABB>::empty(), t) == 0);
}

pub proof fn lemma_hits_disjoint(a: AABB, outer: AABB, t: Seq<AABB>)
    requires
        all_enclosed(outer, t),
        all_wf(t),
        a.wf(),
        !overlaps(a, outer),
    ensures
        hits(a, t) == 0,
    decreases t.len(),
{
    if t.len() > 0 {
        assert(encloses(outer, t[t.len() - 1]));
        lemma_hits_disjoint(a, outer, t.drop_last());
    }
}

/// Boxes held by two disjoint boxes never intersect.
pub proof fn lemma_cross_disjoint(a: AABB, s: Seq<AABB>, b: AABB, t: Seq<AABB>)
    requires
        all_enclosed(a, s),
        all_enclosed(b, t),
        all_wf(s),
        all_wf(t),
        !overlaps(a, b),
    ensures
        cross(s, t) == 0,
    decreases s.len(),
{
    if s.len() > 0 {
        let x = s.last();
        assert(encloses(a, s[s.len() - 1]));
        lemma_hits_disjoint(x, b, t);
        lemma_cross_disjoint(a, s.drop_last(), b, t);
    }
}

pub proof fn lemma_cross_empty_right(s: Seq<AABB>)
    ensures
        cross(s, Seq::<AABB>::empty()) == 0,
    decreases s.len(),
{
    if s.len() > 0 {
        lemma_cross_empty_right(s.drop_last());
    }
}

/// The pairs of a concatenation: those inside each part and those across.
pub proof fn lemma_pair_count_concat(s: Seq<AABB>, t: Seq<AABB>)
    ensures
        pair_count(s + t) == pair_count(s) + pair_count(t) + cross(s, t),
    decreases t.len(),
{
    if t.len() == 0 {
        assert(s + t =~= s);
        assert(t =~= Seq::<AABB>::empty());
        lemma_cross_empty_right(s);
    } else {
        let t0 = t.drop_last();
        let x = t.last();
        assert((s + t).drop_last() =~= s + t0);
        assert((s + t).last() == x);
        lemma_pair_count_concat(s, t0);
        lemma_hits_concat(x, s, t0);
        assert(t =~= t0 + seq![x]);
        lemma_cross_concat_right(s, t0, seq![x]);
        lemma_cross_one_right(s, x);
        assert(pair_count(s + t) == pair_count(s + t0) + hits(x, s + t0));
        assert(pair_count(t) == pair_count(t0) + hits(x, t0));
        assert(cross(s, t) == cross(s, t0) + hits(x, s));
    }
}

/// `hits` depends only on which boxes `s` holds, not on their order.
pub proof fn lemma_hits_permutation(b: AABB, s: Seq<AABB>, t: Seq<AABB>)
    requires
        s.to_multiset() == t.to_multiset(),
    ensures
        hits(b, s) == hits(b, t),
    decreases s.len(),
{
    broadcast use vstd::seq_lib::group_to_multiset_ensures;
    if s.len() == 0 {
        assert(s.to_multiset().len() == 0);
        assert(t.len() == t.to_multiset().len());
    } else {
        let s0 = s.drop_last();
        let x = s.last();
        assert(s =~= s0.push(x));
        assert(s.to_multiset().count(x) > 0);
        assert(t.contains(x));
        let k = choose|k: int| 0 <= k < t.len() && t[k] == x;
        let u = t.remove(k);
        assert(u.to_multiset() == t.to_multiset().remove(x));
        assert(s0.to_multiset() =~= s.to_multiset().remove(x));
        lemma_hits_permutation(b, s0, u);
        let a = t.subrange(0, k);
        let r = t.subrange(k + 1, t.len() as int);
        assert(u =~= a + r);
        assert(t =~= a + seq![x] + r);
        lemma_hits_concat(b, a, r);
        lemma_hits_concat(b, a + seq![x], r);
        lemma_hits_concat(b, a, seq![x]);
        assert(seq![x].drop_last() =~= Seq::<AABB>::empty());
        lemma_hits_single(b, x);
        assert(hits(b, s) == hits(b, s0) + if overlaps(b, x) { 1nat } else { 0nat });
        assert(hits(b, u) == hits(b, a) + hits(b, r));
        assert(hits(b, t) == hits(b, a) + hits(b, seq![x]) + hits(b, r));
    }
}

/// The pairwise count depends only on which boxes `s` holds, not on their order.
pub proof fn lemma_pair_count_permutation(s: Seq<AABB>, t: Seq<AABB>)
    requires
        s.to_multiset() == t.to_multiset(),
    ensures
        pair_count(s) == pair_count(t),
    decreases s.len(),
{
    broadcast use vstd::seq_lib::group_to_multiset_ensures;
    if s.len() == 0 {
        assert(s.to_multiset().len() == 0);
        assert(t.len() == t.to_multiset().len());
    } else {
        let s0 = s.drop_last();
        let x = s.last();
        assert(s =~= s0.push(x));
        assert(s.to_multiset().count(x) > 0);
        assert(t.contains(x));
        let k = choose|k: int| 0 <= k < t.len() && t[k] == x;
        let u = t.remove(k);
        assert(u.to_multiset() == t.to_multiset().remove(x));
        assert(s0.to_multiset() =~= s.to_multiset().remove(x));
        lemma_pair_count_permutation(s0, u);
        lemma_hits_permutation(x, s0, u);
        let a = t.subrange(0, k);
        let r = t.subrange(k + 1, t.len() as int);
        let xs = seq![x];
        assert(u =~= a + r);
        assert(t =~= a + (xs + r));
        lemma_pair_count_concat(a, r);
        lemma_pair_count_concat(a, xs + r);
        lemma_pair_count_concat(xs, r);
        lemma_cross_concat_right(a, xs, r);
        lemma_cross_one_right(a, x);
        lemma_cross_one_left(x, r);
        lemma_hits_concat(x, a, r);
        assert(xs.drop_last() =~= Seq::<AABB>::empty());
        assert(pair_count(xs) == pair_count(Seq::<AABB>::empty()) + hits(x, Seq::<AABB>::empty()));
        assert(pair_count(s) == pair_count(s0) + hits(x, s0));
        assert(pair_count(u) == pair_count(a) + pair_count(r) + cross(a, r));
    }
}

/// Two sequences that hold the same items still do after mapping each item.
pub proof fn lemma_multiset_map<A, B>(s: Seq<A>, t: Seq<A>, f: spec_fn(A) -> B)
    requires
        s.to_multiset() == t.to_multiset(),
    ensures
        s.map_values(f).to_multiset() == t.map_values(f).to_multiset(),
    decreases s.len(),
{
    broadcast use vstd::seq_lib::group_to_multiset_ensures;
    if s.len() == 0 {
        assert(s.to_multiset().len() == 0);
        assert(t.len() == t.to_multiset().len());
        assert(s.map_values(f) =~= t.map_values(f));
    } else {
        let s0 = s.drop_last();
        let x = s.last();
        assert(s =~= s0.push(x));
        assert(s.to_multiset().count(x) > 0);
        assert(t.contains(x));
        let k = choose|k: int| 0 <= k < t.len() && t[k] == x;
        let u = t.remove(k);
        assert(u.to_multiset() == t.to_multiset().remove(x));
        assert(s0.to_multiset() =~= s.to_multiset().remove(x));
        lemma_multiset_map(s0, u, f);
        assert(s.map_values(f) =~= s0.map_values(f).push(f(x)));
        assert(u.map_values(f) =~= t.map_values(f).remove(k));
        assert(t.map_values(f)[k] == f(x));
        assert(t.map_values(f).to_multiset().count(f(x)) > 0);
        assert(s.map_values(f).to_multiset() =~= t.map_values(f).to_multiset());
    }
}

/// Whether positions `i` and `j` of `s` hold intersecting boxes, as 0 or 1.
pub open spec fn hit_at(s: Seq<AABB>, i: int, j: int) -> nat {
    if overlaps(s[i], s[j]) { 1 } else { 0 }
}

/// The number of index pairs `i < j` of `s` whose boxes intersect.
pub open spec fn pairwise_count(s: Seq<AABB>) -> nat {
    sum_range(|j: int| sum_range(|i: int| hit_at(s, i, j), 0, j), 0, s.len() as int)
}

proof fn lemma_hits_as_sum(s: Seq<AABB>, j: int)
    requires
        0 <= j < s.len(),
    ensures
        hits(s[j], s.subrange(0, j)) == sum_range(|i: int| hit_at(s, i, j), 0, j),
    decreases j,
{
    let t = s.subrange(0, j);
    if j > 0 {
        let t0 = s.subrange(0, j - 1);
        assert(t.drop_last() =~= t0);
        // the same count, with `s` cut before `j - 1`
        let s2 = s.subrange(0, j - 1).push(s[j]);
        assert(s2.subrange(0, j - 1) =~= t0);
        lemma_hits_as_sum(s2, j - 1);
        lemma_sum_range_ext(|i: int| hit_at(s2, i, j - 1), |i: int| hit_at(s, i, j), 0, j - 1);
        lemma_sum_range_push(|i: int| hit_at(s, i, j), 0, j - 1);
        assert(overlaps(s[j], s[j - 1]) == overlaps(s[j - 1], s[j]));
    }
}

/// The brute-force count is the number of intersecting index pairs `i < j`.
pub proof fn lemma_pair_count_is_pairwise(s: Seq<AABB>)
    ensures
        pair_count(s) == pairwise_count(s),
    decreases s.len(),
{
    let n = s.len() as int;
    if n > 0 {
        let s0 = s.drop_last();
        lemma_pair_count_is_pairwise(s0);
        let fs = |j: int| sum_range(|i: int| hit_at(s, i, j), 0, j);
        let f0 = |j: int| sum_range(|i: int| hit_at(s0, i, j), 0, j);
        assert forall|j: int| 0 <= j < n - 1 implies #[trigger] f0(j) == fs(j) by {
            lemma_sum_range_ext(|i: int| hit_at(s0, i, j), |i: int| hit_at(s, i, j), 0, j);
        }
        lemma_sum_range_ext(f0, fs, 0, n - 1);
        lemma_sum_range_push(fs, 0, n - 1);
        lemma_hits_as_sum(s, n - 1);
        assert(s.subrange(0, n - 1) =~= s0);
    }
}

/// The brute-force pairwise count: every unordered pair of positions tested.
pub fn brute_force_count(boxes: &Vec<AABB>) -> (r: usize)
    requires
        boxes@.len() * boxes@.len() <= usize::MAX,
    ensures
        r == pair_count(boxes@),
        r == pairwise_count(boxes@),
{
    proof {
        lemma_pair_count_is_pairwise(boxes@);
    }
    let n = boxes.len();
    let mut total: usize = 0;
    let mut i: usize = 0;
    while i < n
        invariant
            n == boxes@.len(),
            n * n <= usize::MAX,
            i <= n,
            total == pair_count(boxes@.subrange(0, i as int)),
        decreases n - i,
    {
        let b = boxes[i];
        let mut h: usize = 0;
        let mut j: usize = 0;
        while j < i
            invariant
                n == boxes@.len(),
                i < n,
                j <= i,
                b == boxes@[i as int],
                h == hits(b, boxes@.subrange(0, j as int)),
                h <= j,
            decreases i - j,
        {
            proof {
                assert(boxes@.subrange(0, j + 1).drop_last() =~= boxes@.subrange(0, j as int));
            }
            if b.intersects(&boxes[j]) {
                h = h + 1;
            }
            j = j + 1;
        }
        proof {
            let next = boxes@.subrange(0, i + 1);
            assert(next.drop_last() =~= boxes@.subrange(0, i as int));
            assert(next.last() == b);
            lemma_pair_count_bound(next);
            assert((i + 1) * (i + 1) <= n * n) by (nonlinear_arith)
                requires i + 1 <= n;
        }
        total = total + h;
        i = i + 1;
    }
    proof {
        assert(boxes@.subrange(0, n as int) =~= boxes@);
    }
    total
}

} // verus!
