//! Ordering of provider summaries, fastest first.

use vstd::prelude::*;
use crate::summary::ProviderSummary;

verus! {

broadcast use vstd::seq_lib::group_filter_ensures;

/// The statistic providers are ranked by.
#[derive(Debug, Clone, Copy, PartialEq, Eq, Structural)]
pub enum RankKey {
    Median,
    Average,
}

/// The value of `s` that `key` ranks by.
pub open spec fn rank_value(s: ProviderSummary, key: RankKey) -> u64 {
    match key {
        RankKey::Median => s.median_ns,
        RankKey::Average => s.avg_ns,
    }
}

/// Holds of the summaries whose ranking value is `v`.
pub open spec fn valued(key: RankKey, v: u64) -> spec_fn(ProviderSummary) -> bool {
    |s: ProviderSummary| rank_value(s, key) == v
}

/// `r` is `s` sorted by `key`, smallest first, with summaries of equal value
/// left in their order in `s`.
pub open spec fn ranked_by(r: Seq<ProviderSummary>, s: Seq<ProviderSummary>, key: RankKey) -> bool {
    &&& r.len() == s.len()
    &&& forall|i: int, j: int|
        0 <= i < j < r.len() ==> rank_value(r[i], key) <= rank_value(r[j], key)
    &&& same_groups(r, s, key)
}

/// For every ranking value, `a` and `b` hold the same summaries of that value
/// in the same order.
pub open spec fn same_groups(a: Seq<ProviderSummary>, b: Seq<ProviderSummary>, key: RankKey) -> bool {
    forall|v: u64| #[trigger] a.filter(valued(key, v)) == b.filter(valued(key, v))
}

fn key_of(s: &ProviderSummary, key: RankKey) -> (r: u64)
    ensures
        r == rank_value(*s, key),
{
    match key {
        RankKey::Median => s.median_ns,
        RankKey::Average => s.avg_ns,
    }
}

proof fn lemma_filter_none(s: Seq<ProviderSummary>, key: RankKey, v: u64)
    requires
        forall|i: int| 0 <= i < s.len() ==> rank_value(#[trigger] s[i], key) != v,
    ensures
        s.filter(valued(key, v)) == Seq::<ProviderSummary>::empty(),
{
    s.lemma_all_neg_filter_empty(valued(key, v));
    assert(s.filter(valued(key, v)) =~= Seq::<ProviderSummary>::empty());
}

/// Sorts the summaries by `key`, smallest first; summaries of equal value
/// keep their order.
pub fn rank(summaries: Vec<ProviderSummary>, key: RankKey) -> (r: Vec<ProviderSummary>)
    ensures
        ranked_by(r@, summaries@, key),
{
    let ghost s = summaries@;
    let mut v = summaries;
    let n = v.len();
    assert(v@.subrange(0, 0) =~= s.subrange(0, 0));
    for i in 0..n
        invariant
            n == s.len(),
            v@.len() == n,
            v@.subrange(i as int, n as int) == s.subrange(i as int, n as int),
            forall|a: int, b: int|
                0 <= a < b < i ==> rank_value(v@[a], key) <= rank_value(v@[b], key),
            same_groups(v@.subrange(0, i as int), s.subrange(0, i as int), key),
    {
        let ghost before = v@;
        let ghost p = before.subrange(0, i as int);
        assert(before[i as int] == s[i as int]) by {
            assert(before.subrange(i as int, n as int)[0] == s.subrange(i as int, n as int)[0]);
        }
        let x = v.remove(i);
        let kx = key_of(&x, key);
        let mut j: usize = 0;
        while j < i && key_of(&v[j], key) <= kx
            invariant
                j <= i,
                i < n,
                before.len() == n,
                v@ == before.remove(i as int),
                forall|k: int| 0 <= k < j ==> rank_value(v@[k], key) <= kx,
            decreases i - j,
        {
            j = j + 1;
        }
        v.insert(j, x);
        proof {
            let q = v@.subrange(0, i + 1);
            assert(q =~= p.subrange(0, j as int) + seq![x] + p.subrange(j as int, i as int));
            assert forall|k: int| j <= k < i implies rank_value(#[trigger] p[k], key) > kx by {
                if j < i {
                    assert(rank_value(p[j as int], key) > kx);
                    if k > j {
                        assert(rank_value(p[j as int], key) <= rank_value(p[k], key));
                    }
                }
            }
            assert forall|a: int, b: int|
                0 <= a < b < i + 1 implies rank_value(v@[a], key) <= rank_value(v@[b], key) by {
                if b < j {
                    assert(v@[a] == p[a] && v@[b] == p[b]);
                } else if a > j {
                    assert(v@[a] == p[a - 1] && v@[b] == p[b - 1]);
                } else if a < j && b > j {
                    assert(v@[a] == p[a] && v@[b] == p[b - 1]);
                } else if a == j {
                    assert(v@[b] == p[b - 1]);
                } else {
                    assert(v@[a] == p[a]);
                }
            }
            assert(p =~= p.subrange(0, j as int) + p.subrange(j as int, i as int));
            assert(s.subrange(0, i + 1) =~= s.subrange(0, i as int).push(x));
            assert forall|w: u64| #[trigger]
                (v@.subrange(0, i + 1).filter(valued(key, w))) == s.subrange(0, i + 1).filter(
                    valued(key, w),
                ) by {
                let f = valued(key, w);
                let lo = p.subrange(0, j as int);
                let hi = p.subrange(j as int, i as int);
                assert(p.filter(f) == s.subrange(0, i as int).filter(f));
                assert(lo + seq![x] =~= lo.push(x));
                Seq::filter_distributes_over_add(lo.push(x), hi, f);
                Seq::filter_distributes_over_add(lo, hi, f);
                s.subrange(0, i as int).lemma_filter_push(x, f);
                lo.lemma_filter_push(x, f);
                if rank_value(x, key) == w {
                    lemma_filter_none(hi, key, w);
                    assert(lo.filter(f) + hi.filter(f) =~= lo.filter(f));
                    assert(lo.filter(f).push(x) + hi.filter(f) =~= lo.filter(f).push(x));
                }
                assert(v@.subrange(0, i + 1).filter(f) == s.subrange(0, i + 1).filter(f));
            }
            assert(v@.subrange(i + 1, n as int) =~= before.subrange(i + 1, n as int));
            assert(s.subrange(i + 1, n as int) =~= s.subrange(i as int, n as int).subrange(1, n - i));
        }
    }
    assert(v@.subrange(0, n as int) =~= v@);
    assert(s.subrange(0, n as int) =~= s);
    v
}

/// The first of a ranked list, or `None` when it is empty.
pub fn fastest(ranked: &Vec<ProviderSummary>) -> (r: Option<&ProviderSummary>)
    ensures
        r is None <==> ranked@.len() == 0,
        r matches Some(x) ==> *x == ranked@[0],
{
    if ranked.len() == 0 {
        None
    } else {
        Some(&ranked[0])
    }
}

/// The first of a ranking has the smallest value among all the summaries
/// ranked.
pub proof fn lemma_first_is_fastest(r: Seq<ProviderSummary>, s: Seq<ProviderSummary>, key: RankKey)
    requires
        ranked_by(r, s, key),
        r.len() > 0,
    ensures
        forall|i: int| 0 <= i < s.len() ==> rank_value(r[0], key) <= rank_value(#[trigger] s[i], key),
{
    assert forall|i: int| 0 <= i < s.len() implies rank_value(r[0], key) <= rank_value(
        #[trigger] s[i],
        key,
    ) by {
        let w = rank_value(s[i], key);
        let f = valued(key, w);
        s.lemma_filter_contains_rev(f, s[i]);
        assert(s.contains(s[i]));
        assert(r.filter(f).contains(s[i]));
        r.lemma_filter_contains_rev(f, s[i]);
        assert(r.contains(s[i]));
        let m = choose|m: int| 0 <= m < r.len() && r[m] == s[i];
        if m > 0 {
            assert(rank_value(r[0], key) <= rank_value(r[m], key));
        }
    }
}

} // verus!
