use vstd::prelude::*;
use vstd::multiset::Multiset;
use crate::position::AABB;

verus! {

/// `f(lo) + f(lo + 1) + ... + f(hi - 1)`.
pub open spec fn sum_range(f: spec_fn(int) -> nat, lo: int, hi: int) -> nat
    decreases hi - lo,
{
    if lo >= hi {
        0
    } else {
        f(lo) + sum_range(f, lo + 1, hi)
    }
}

/// The union of the multisets `f(lo), ..., f(hi - 1)`.
pub open spec fn union_range(f: spec_fn(int) -> Multiset<AABB>, lo: int, hi: int) -> Multiset<AABB>
    decreases hi - lo,
{
    if lo >= hi {
        Multiset::empty()
    } else {
        f(lo).add(union_range(f, lo + 1, hi))
    }
}

pub proof fn lemma_sum_range_push(f: spec_fn(int) -> nat, lo: int, hi: int)
    requires
        lo <= hi,
    ensures
        sum_range(f, lo, hi + 1) == sum_range(f, lo, hi) + f(hi),
    decreases hi - lo,
{
    if lo < hi {
        lemma_sum_range_push(f, lo + 1, hi);
    } else {
        assert(sum_range(f, lo + 1, hi + 1) == 0);
    }
}

pub proof fn lemma_union_range_push(f: spec_fn(int) -> Multiset<AABB>, lo: int, hi: int)
    requires
        lo <= hi,
    ensures
        union_range(f, lo, hi + 1) =~= union_range(f, lo, hi).add(f(hi)),
    decreases hi - lo,
{
    if lo < hi {
        lemma_union_range_push(f, lo + 1, hi);
    } else {
        assert(union_range(f, lo + 1, hi + 1) == Multiset::<AABB>::empty());
    }
}

pub proof fn lemma_sum_range_term(f: spec_fn(int) -> nat, lo: int, hi: int, i: int)
    requires
        lo <= i < hi,
    ensures
        f(i) <= sum_range(f, lo, hi),
    decreases hi - lo,
{
    if lo < i {
        lemma_sum_range_term(f, lo + 1, hi, i);
    }
}

pub proof fn lemma_sum_range_ext(f: spec_fn(int) -> nat, g: spec_fn(int) -> nat, lo: int, hi: int)
    requires
        forall|i: int| lo <= i < hi ==> #[trigger] f(i) == g(i),
    ensures
        sum_range(f, lo, hi) == sum_range(g, lo, hi),
    decreases hi - lo,
{
    if lo < hi {
        lemma_sum_range_ext(f, g, lo + 1, hi);
    }
}

pub proof fn lemma_union_range_ext(
    f: spec_fn(int) -> Multiset<AABB>,
    g: spec_fn(int) -> Multiset<AABB>,
    lo: int,
    hi: int,
)
    requires
        forall|i: int| lo <= i < hi ==> #[trigger] f(i) == g(i),
    ensures
        union_range(f, lo, hi) == union_range(g, lo, hi),
    decreases hi - lo,
{
    if lo < hi {
        lemma_union_range_ext(f, g, lo + 1, hi);
    }
}

/// The sum of a sequence of naturals.
pub open spec fn nat_sum(s: Seq<nat>) -> nat
    decreases s.len(),
{
    if s.len() == 0 {
        0
    } else {
        nat_sum(s.drop_last()) + s.last()
    }
}

/// The union of a sequence of multisets.
pub open spec fn bag_sum(s: Seq<Multiset<AABB>>) -> Multiset<AABB>
    decreases s.len(),
{
    if s.len() == 0 {
        Multiset::empty()
    } else {
        bag_sum(s.drop_last()).add(s.last())
    }
}

pub proof fn lemma_nat_sum_concat(a: Seq<nat>, b: Seq<nat>)
    ensures
        nat_sum(a + b) == nat_sum(a) + nat_sum(b),
    decreases b.len(),
{
    if b.len() == 0 {
        assert(a + b =~= a);
    } else {
        assert((a + b).drop_last() =~= a + b.drop_last());
        lemma_nat_sum_concat(a, b.drop_last());
    }
}

pub proof fn lemma_bag_sum_concat(a: Seq<Multiset<AABB>>, b: Seq<Multiset<AABB>>)
    ensures
        bag_sum(a + b) =~= bag_sum(a).add(bag_sum(b)),
    decreases b.len(),
{
    if b.len() == 0 {
        assert(a + b =~= a);
    } else {
        assert((a + b).drop_last() =~= a + b.drop_last());
        lemma_bag_sum_concat(a, b.drop_last());
    }
}

/// A sum does not depend on the order of its terms.
pub proof fn lemma_nat_sum_permutation(s: Seq<nat>, t: Seq<nat>)
    requires
        s.to_multiset() == t.to_multiset(),
    ensures
        nat_sum(s) == nat_sum(t),
    decreases s.len(),
{
    broadcast use vstd::seq_lib::group_to_multiset_ensures;
    if s.len() == 0 {
        assert(s.to_multiset().len() == 0);
        assert(t.len() == t.to_multiset().len());
    } else {
        let s0 = s.drop_last();
        let x = s.last();
        assert(s =~= s0.push(x));
        assert(s.to_multiset().count(x) > 0);
        assert(t.contains(x));
        let k = choose|k: int| 0 <= k < t.len() && t[k] == x;
        let u = t.remove(k);
        assert(u.to_multiset() == t.to_multiset().remove(x));
        assert(s0.to_multiset() =~= s.to_multiset().remove(x));
        lemma_nat_sum_permutation(s0, u);
        let a = t.subrange(0, k);
        let r = t.subrange(k + 1, t.len() as int);
        assert(u =~= a + r);
        assert(t =~= (a + seq![x]) + r);
        lemma_nat_sum_concat(a, r);
        lemma_nat_sum_concat(a + seq![x], r);
        lemma_nat_sum_concat(a, seq![x]);
        assert(seq![x].drop_last() =~= Seq::<nat>::empty());
        assert(seq![x].last() == x);
        assert(nat_sum(Seq::<nat>::empty()) == 0);
        assert(nat_sum(seq![x]) == nat_sum(seq![x].drop_last()) + x);
    }
}

/// A union does not depend on the order of its terms.
pub proof fn lemma_bag_sum_permutation(s: Seq<Multiset<AABB>>, t: Seq<Multiset<AABB>>)
    requires
        s.to_multiset() == t.to_multiset(),
    ensures
        bag_sum(s) == bag_sum(t),
    decreases s.len(),
{
    broadcast use vstd::seq_lib::group_to_multiset_ensures;
    if s.len() == 0 {
        assert(s.to_multiset().len() == 0);
        assert(t.len() == t.to_multiset().len());
    } else {
        let s0 = s.drop_last();
        let x = s.last();
        assert(s =~= s0.push(x));
        assert(s.to_multiset().count(x) > 0);
        assert(t.contains(x));
        let k = choose|k: int| 0 <= k < t.len() && t[k] == x;
        let u = t.remove(k);
        assert(u.to_multiset() == t.to_multiset().remove(x));
        assert(s0.to_multiset() =~= s.to_multiset().remove(x));
        lemma_bag_sum_permutation(s0, u);
        let a = t.subrange(0, k);
        let r = t.subrange(k + 1, t.len() as int);
        assert(u =~= a + r);
        assert(t =~= (a + seq![x]) + r);
        lemma_bag_sum_concat(a, r);
        lemma_bag_sum_concat(a + seq![x], r);
        lemma_bag_sum_concat(a, seq![x]);
        assert(seq![x].drop_last() =~= Seq::<Multiset<AABB>>::empty());
        assert(seq![x].last() == x);
        assert(bag_sum(Seq::<Multiset<AABB>>::empty()) == Multiset::<AABB>::empty());
        assert(bag_sum(seq![x]) == bag_sum(seq![x].drop_last()).add(x));
        assert(bag_sum(seq![x]) =~= x);
        assert(bag_sum(t) =~= bag_sum(u).add(x));
    }
}

} // verus!
