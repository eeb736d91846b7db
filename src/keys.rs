use vstd::prelude::*;
use rayon::iter::{IndexedParallelIterator, IntoParallelRefIterator, ParallelIterator};
use rayon::slice::ParallelSliceMut;
use crate::count::all_wf;
use crate::morton::{hilbert_key, to_hilbert};
use crate::position::{AABB, block_of, mid_of, BlockPos};

verus! {

/// The block that holds the center of a box.
pub open spec fn center_block(b: AABB) -> BlockPos {
    BlockPos {
        x: block_of(mid_of(b.min.x as int, b.max.x as int)) as i32,
        y: block_of(mid_of(b.min.y as int, b.max.y as int)) as i32,
        z: block_of(mid_of(b.min.z as int, b.max.z as int)) as i32,
    }
}

/// The spatial key of a box: the Hilbert key of the block that holds its center.
pub open spec fn box_key(b: AABB) -> u128 {
    hilbert_key(center_block(b))
}

/// A box with its spatial key.
pub open spec fn keyed_ok(p: (u128, AABB)) -> bool {
    p.0 == box_key(p.1)
}

/// Keys in non-decreasing order.
pub open spec fn keys_sorted<T>(s: Seq<(u128, T)>) -> bool {
    forall|i: int, j: int| 0 <= i < j < s.len() ==> #[trigger] s[i].0 <= #[trigger] s[j].0
}

/// The boxes of a keyed sequence.
pub open spec fn boxes_of(s: Seq<(u128, AABB)>) -> Seq<AABB> {
    s.map_values(|p: (u128, AABB)| p.1)
}

/// Boxes in non-decreasing order of spatial key.
pub open spec fn keys_ordered(s: Seq<AABB>) -> bool {
    forall|i: int, j: int| 0 <= i < j < s.len() ==> box_key(#[trigger] s[i]) <= box_key(#[trigger] s[j])
}

/// Sorting the keyed boxes leaves the same boxes, well formed, in key order.
pub proof fn lemma_sorted_boxes(keyed: Seq<(u128, AABB)>, unsorted: Seq<(u128, AABB)>, leaves: Seq<AABB>)
    requires
        keyed.to_multiset() == unsorted.to_multiset(),
        keys_sorted(keyed),
        unsorted.len() == leaves.len(),
        forall|k: int| 0 <= k < unsorted.len() ==> #[trigger] unsorted[k] == (box_key(leaves[k]), leaves[k]),
        all_wf(leaves),
    ensures
        keyed.len() == leaves.len(),
        boxes_of(keyed).to_multiset() == leaves.to_multiset(),
        all_wf(boxes_of(keyed)),
        keys_ordered(boxes_of(keyed)),
{
    broadcast use vstd::seq_lib::group_to_multiset_ensures;
    assert(boxes_of(unsorted) =~= leaves);
    crate::count::lemma_multiset_map(keyed, unsorted, |p: (u128, AABB)| p.1);
    assert(keyed.len() == keyed.to_multiset().len());
    assert(unsorted.len() == unsorted.to_multiset().len());
    assert forall|k: int| 0 <= k < keyed.len() implies #[trigger] keyed_ok(keyed[k]) && keyed[k].1.wf() by {
        assert(keyed.to_multiset().count(keyed[k]) > 0);
        assert(unsorted.contains(keyed[k]));
        let t = choose|t: int| 0 <= t < unsorted.len() && unsorted[t] == keyed[k];
        assert(unsorted[t] == (box_key(leaves[t]), leaves[t]));
    }
    assert forall|k: int| 0 <= k < boxes_of(keyed).len() implies (#[trigger] boxes_of(keyed)[k]).wf() by {
        assert(keyed_ok(keyed[k]) && keyed[k].1.wf());
    }
    assert forall|i: int, j: int| 0 <= i < j < boxes_of(keyed).len() implies box_key(
        #[trigger] boxes_of(keyed)[i],
    ) <= box_key(#[trigger] boxes_of(keyed)[j]) by {
        assert(keyed_ok(keyed[i]) && keyed_ok(keyed[j]));
        assert(keyed[i].0 <= keyed[j].0);
    }
}

/// No two positions of `s` hold boxes with the same spatial key.
pub open spec fn keys_distinct(s: Seq<AABB>) -> bool {
    forall|i: int, j: int| 0 <= i < j < s.len() ==> box_key(#[trigger] s[i]) != box_key(#[trigger] s[j])
}

/// Distinct keys depend only on which boxes there are.
pub proof fn lemma_distinct_permutation(s: Seq<AABB>, t: Seq<AABB>)
    requires
        s.to_multiset() == t.to_multiset(),
        keys_distinct(s),
    ensures
        keys_distinct(t),
{
    broadcast use vstd::seq_lib::group_to_multiset_ensures;
    assert forall|i: int, j: int| 0 <= i < j < t.len() implies box_key(#[trigger] t[i]) != box_key(#[trigger] t[j]) by {
        if box_key(t[i]) == box_key(t[j]) {
            assert(t.to_multiset().count(t[i]) > 0);
            assert(s.contains(t[i]));
            let p = choose|p: int| 0 <= p < s.len() && s[p] == t[i];
            assert(t.to_multiset().count(t[j]) > 0);
            assert(s.contains(t[j]));
            let q = choose|q: int| 0 <= q < s.len() && s[q] == t[j];
            if p != q {
                if p < q {
                    assert(box_key(s[p]) != box_key(s[q]));
                } else {
                    assert(box_key(s[q]) != box_key(s[p]));
                }
            } else {
                // the same box twice in `t`, so twice in `s`
                let tr = t.remove(j);
                assert(tr[i] == t[i]);
                assert(tr.to_multiset().count(t[i]) > 0);
                assert(t.to_multiset().remove(t[j]).count(t[i]) > 0);
                assert(s.to_multiset().count(s[p]) >= 2);
                let sr = s.remove(p);
                assert(sr.to_multiset().count(s[p]) > 0);
                assert(sr.contains(s[p]));
                let r = choose|r: int| 0 <= r < sr.len() && sr[r] == s[p];
                let r2 = if r < p { r } else { r + 1 };
                assert(s[r2] == s[p]);
                if r2 < p {
                    assert(box_key(s[r2]) != box_key(s[p]));
                } else {
                    assert(box_key(s[p]) != box_key(s[r2]));
                }
            }
        }
    }
}

/// Two key-ordered sequences of the same boxes, with distinct keys, are equal.
pub proof fn lemma_sorted_unique(a: Seq<AABB>, b: Seq<AABB>)
    requires
        a.to_multiset() == b.to_multiset(),
        keys_ordered(a),
        keys_ordered(b),
        keys_distinct(a),
    ensures
        a == b,
    decreases a.len(),
{
    broadcast use vstd::seq_lib::group_to_multiset_ensures;
    assert(a.len() == a.to_multiset().len());
    assert(b.len() == b.to_multiset().len());
    if a.len() == 0 {
        assert(a =~= b);
    } else {
        let n = a.len() as int;
        let x = a.last();
        let y = b.last();
        assert(a.to_multiset().count(x) > 0);
        assert(b.contains(x));
        let t = choose|t: int| 0 <= t < n && b[t] == x;
        assert(b.to_multiset().count(y) > 0);
        assert(a.contains(y));
        let s = choose|s: int| 0 <= s < n && a[s] == y;
        if t < n - 1 {
            assert(box_key(b[t]) <= box_key(b[n - 1]));
        }
        if s < n - 1 {
            assert(box_key(a[s]) <= box_key(a[n - 1]));
        }
        if s < n - 1 {
            assert(box_key(a[s]) != box_key(a[n - 1]));
        }
        assert(x == y);
        let a0 = a.drop_last();
        let b0 = b.drop_last();
        assert(a =~= a0.push(x));
        assert(b =~= b0.push(x));
        assert(a0.to_multiset() =~= a.to_multiset().remove(x));
        assert(b0.to_multiset() =~= b.to_multiset().remove(x));
        lemma_sorted_unique(a0, b0);
    }
}

/// The spatial key of a box.
pub fn leaf_key(b: &AABB) -> (r: u128)
    requires
        b.wf(),
    ensures
        r == box_key(*b),
{
    let c = b.center();
    to_hilbert(c.block_pos())
}

/// Each box with its spatial key, in input order.
pub fn key_boxes(leaves: &Vec<AABB>) -> (r: Vec<(u128, AABB)>)
    requires
        all_wf(leaves@),
    ensures
        r@.len() == leaves@.len(),
        forall|k: int| 0 <= k < r@.len() ==> #[trigger] r@[k] == (box_key(leaves@[k]), leaves@[k]),
{
    let mut r: Vec<(u128, AABB)> = Vec::new();
    let mut i: usize = 0;
    while i < leaves.len()
        invariant
            i <= leaves@.len(),
            all_wf(leaves@),
            r@.len() == i,
            forall|k: int| 0 <= k < i ==> #[trigger] r@[k] == (box_key(leaves@[k]), leaves@[k]),
        decreases leaves@.len() - i,
    {
        let b = leaves[i];
        assert(leaves@[i as int].wf());
        let key = leaf_key(&b);
        r.push((key, b));
        i = i + 1;
    }
    r
}

/// Relies on rayon's `par_iter().map().collect()` on a slice: one result per
/// item, in the slice's order.
#[verifier::external_body]
pub(crate) fn key_boxes_par(leaves: &Vec<AABB>) -> (r: Vec<(u128, AABB)>)
    requires
        all_wf(leaves@),
    ensures
        r@.len() == leaves@.len(),
        forall|k: int| 0 <= k < r@.len() ==> #[trigger] r@[k] == (box_key(leaves@[k]), leaves@[k]),
{
    leaves.par_iter().map(|b| (leaf_key(b), *b)).collect()
}

/// Relies on std's `sort_unstable_by_key` on a slice: the same items, in key order.
#[verifier::external_body]
pub(crate) fn sort_by_key<T>(v: &mut Vec<(u128, T)>)
    ensures
        final(v)@.to_multiset() == old(v)@.to_multiset(),
        keys_sorted(final(v)@),
{
    v.sort_unstable_by_key(|p| p.0);
}

/// Relies on rayon's `par_sort_unstable_by_key` on a slice: the same items, in
/// key order.
#[verifier::external_body]
pub(crate) fn par_sort_by_key<T: Send>(v: &mut Vec<(u128, T)>)
    ensures
        final(v)@.to_multiset() == old(v)@.to_multiset(),
        keys_sorted(final(v)@),
{
    v.par_sort_unstable_by_key(|p| p.0);
}

} // verus!
