//! Sums over link lists `[src, dst, bandwidth]`: how many links, and how
//! much bandwidth, leave or reach a node.

use vstd::prelude::*;

verus! {

/// `w(s[0]) + ... + w(s[len - 1])`.
pub open spec fn link_sum(s: Seq<[u32; 3]>, w: spec_fn([u32; 3]) -> int) -> int
    decreases s.len(),
{
    if s.len() == 0 {
        0
    } else {
        link_sum(s.drop_last(), w) + w(s.last())
    }
}

/// Counts the links that leave node `x`.
pub open spec fn count_from(x: int) -> spec_fn([u32; 3]) -> int {
    |l: [u32; 3]| if l[0] == x { 1int } else { 0int }
}

/// Counts the links that reach node `x`.
pub open spec fn count_into(x: int) -> spec_fn([u32; 3]) -> int {
    |l: [u32; 3]| if l[1] == x { 1int } else { 0int }
}

/// Adds up the bandwidth of the links that leave node `x`.
pub open spec fn bandwidth_from(x: int) -> spec_fn([u32; 3]) -> int {
    |l: [u32; 3]| if l[0] == x { l[2] as int } else { 0int }
}

/// Adds up the bandwidth of the links that reach node `x`.
pub open spec fn bandwidth_into(x: int) -> spec_fn([u32; 3]) -> int {
    |l: [u32; 3]| if l[1] == x { l[2] as int } else { 0int }
}

/// Appending one link adds its weight.
pub proof fn lemma_link_sum_push(s: Seq<[u32; 3]>, e: [u32; 3], w: spec_fn([u32; 3]) -> int)
    ensures
        link_sum(s.push(e), w) == link_sum(s, w) + w(e),
{
    assert(s.push(e).drop_last() =~= s);
}

/// Removing one link takes its weight away.
pub proof fn lemma_link_sum_remove(s: Seq<[u32; 3]>, k: int, w: spec_fn([u32; 3]) -> int)
    requires
        0 <= k < s.len(),
    ensures
        link_sum(s, w) == link_sum(s.remove(k), w) + w(s[k]),
    decreases s.len(),
{
    if k == s.len() - 1 {
        assert(s.remove(k) =~= s.drop_last());
    } else {
        let t = s.drop_last();
        lemma_link_sum_remove(t, k, w);
        assert(s.remove(k) =~= t.remove(k).push(s.last()));
        lemma_link_sum_push(t.remove(k), s.last(), w);
    }
}

/// Sums depend only on which links there are, not on their order.
pub proof fn lemma_link_sum_permutation(
    s1: Seq<[u32; 3]>,
    s2: Seq<[u32; 3]>,
    w: spec_fn([u32; 3]) -> int,
)
    requires
        s1.to_multiset() == s2.to_multiset(),
    ensures
        link_sum(s1, w) == link_sum(s2, w),
    decreases s1.len(),
{
    broadcast use vstd::seq_lib::group_to_multiset_ensures;
    broadcast use vstd::multiset::group_multiset_axioms;

    if s1.len() == 0 {
        assert(s1.to_multiset().len() == s1.len());
        assert(s2.to_multiset().len() == s2.len());
    } else {
        let e = s1.last();
        let s1p = s1.drop_last();
        assert(s1 =~= s1p.push(e));
        assert(s1.to_multiset().count(e) > 0);
        assert(s2.contains(e));
        let k = choose|k: int| 0 <= k < s2.len() && s2[k] == e;
        let s2p = s2.remove(k);
        assert(s2p.to_multiset() =~= s1p.to_multiset());
        lemma_link_sum_permutation(s1p, s2p, w);
        lemma_link_sum_remove(s2, k, w);
    }
}

/// The sum over two lists is the sum of their sums.
pub proof fn lemma_link_sum_concat(s1: Seq<[u32; 3]>, s2: Seq<[u32; 3]>, w: spec_fn([u32; 3]) -> int)
    ensures
        link_sum(s1 + s2, w) == link_sum(s1, w) + link_sum(s2, w),
    decreases s2.len(),
{
    if s2.len() > 0 {
        lemma_link_sum_concat(s1, s2.drop_last(), w);
        assert((s1 + s2).drop_last() =~= s1 + s2.drop_last());
    } else {
        assert(s1 + s2 =~= s1);
    }
}

/// When every link leaving `x` has bandwidth `b`, the bandwidth leaving `x`
/// is `b` times the number of those links.
pub proof fn lemma_uniform_bandwidth_from(s: Seq<[u32; 3]>, x: int, b: int)
    requires
        forall|i: int| 0 <= i < s.len() && s[i][0] == x ==> s[i][2] == b,
    ensures
        link_sum(s, bandwidth_from(x)) == b * link_sum(s, count_from(x)),
    decreases s.len(),
{
    if s.len() > 0 {
        lemma_uniform_bandwidth_from(s.drop_last(), x, b);
        let c = link_sum(s.drop_last(), count_from(x));
        assert(b * c + b == b * (c + 1)) by (nonlinear_arith);
        assert(b * c + 0 == b * (c + 0)) by (nonlinear_arith);
    } else {
        assert(b * 0 == 0) by (nonlinear_arith);
    }
}

/// When every link reaching `x` has bandwidth `b`, the bandwidth reaching
/// `x` is `b` times the number of those links.
pub proof fn lemma_uniform_bandwidth_into(s: Seq<[u32; 3]>, x: int, b: int)
    requires
        forall|i: int| 0 <= i < s.len() && s[i][1] == x ==> s[i][2] == b,
    ensures
        link_sum(s, bandwidth_into(x)) == b * link_sum(s, count_into(x)),
    decreases s.len(),
{
    if s.len() > 0 {
        lemma_uniform_bandwidth_into(s.drop_last(), x, b);
        let c = link_sum(s.drop_last(), count_into(x));
        assert(b * c + b == b * (c + 1)) by (nonlinear_arith);
        assert(b * c + 0 == b * (c + 0)) by (nonlinear_arith);
    } else {
        assert(b * 0 == 0) by (nonlinear_arith);
    }
}

/// Links of weight zero add up to zero.
pub proof fn lemma_link_sum_zero(s: Seq<[u32; 3]>, w: spec_fn([u32; 3]) -> int)
    requires
        forall|i: int| 0 <= i < s.len() ==> w(#[trigger] s[i]) == 0,
    ensures
        link_sum(s, w) == 0,
    decreases s.len(),
{
    if s.len() > 0 {
        lemma_link_sum_zero(s.drop_last(), w);
    }
}

/// A positive sum of non-negative weights has a link of positive weight.
pub proof fn lemma_link_sum_witness(s: Seq<[u32; 3]>, w: spec_fn([u32; 3]) -> int)
    requires
        forall|i: int| 0 <= i < s.len() ==> w(#[trigger] s[i]) >= 0,
        link_sum(s, w) > 0,
    ensures
        exists|i: int| 0 <= i < s.len() && w(#[trigger] s[i]) > 0,
    decreases s.len(),
{
    if w(s.last()) <= 0 {
        lemma_link_sum_witness(s.drop_last(), w);
        let i = choose|i: int| 0 <= i < s.len() - 1 && w(#[trigger] s.drop_last()[i]) > 0;
        assert(s[i] == s.drop_last()[i]);
    } else {
        assert(w(s[s.len() - 1]) > 0);
    }
}

/// When link `i` leaves node `i`, exactly one link leaves each node of
/// `0 .. len` and none leaves any other node.
pub proof fn lemma_count_from_numbered(s: Seq<[u32; 3]>, x: int)
    requires
        forall|i: int| 0 <= i < s.len() ==> (#[trigger] s[i])[0] == i,
    ensures
        link_sum(s, count_from(x)) == (if 0 <= x < s.len() {
            1int
        } else {
            0
        }),
    decreases s.len(),
{
    if s.len() > 0 {
        let t = s.drop_last();
        assert forall|i: int| 0 <= i < t.len() implies (#[trigger] t[i])[0] == i by {
            assert(t[i] == s[i]);
        }
        lemma_count_from_numbered(t, x);
        assert(s.last()[0] == s.len() - 1);
    }
}

} // verus!
