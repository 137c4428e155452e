//! Quartiles by linear interpolation between order statistics.
//!
//! The `q`-th quartile of `n` sorted values sits at position `q (n - 1) / 4`,
//! counted from zero. Where that position falls between two neighbours the
//! quartile lies the same fraction of the way from the lower to the upper
//! one. The fraction is a multiple of a quarter, so four times the quartile
//! is always an integer: quartiles are carried in quarters of a tick.

use vstd::prelude::*;
use vstd::relations::{sorted_by, total_ordering};
use vstd::seq_lib::{lemma_multiset_commutative, lemma_sorted_unique, to_multiset_build};

verus! {

/// The order by which samples are sorted.
pub open spec fn leq() -> spec_fn(i64, i64) -> bool {
    |a: i64, b: i64| a <= b
}

/// Whether `s` never descends.
pub open spec fn ascending(s: Seq<i64>) -> bool {
    forall|i: int, j: int| 0 <= i <= j < s.len() ==> s[i] <= s[j]
}

/// The values of `s` in ascending order.
pub open spec fn sorted(s: Seq<i64>) -> Seq<i64> {
    s.sort_by(leq())
}

/// `sorted(s)` is ascending and holds exactly the values of `s`, each as
/// often as `s` does.
pub proof fn lemma_sorted(s: Seq<i64>)
    ensures
        ascending(sorted(s)),
        sorted(s).to_multiset() == s.to_multiset(),
        sorted(s).len() == s.len(),
{
    assert(total_ordering(leq()));
    s.lemma_sort_by_ensures(leq());
    s.to_multiset_ensures();
    sorted(s).to_multiset_ensures();
    assert(ascending(sorted(s))) by {
        assert forall|i: int, j: int| 0 <= i <= j < sorted(s).len() implies sorted(s)[i] <= sorted(
            s,
        )[j] by {
            if i < j {
                assert(leq()(sorted(s)[i], sorted(s)[j]));
            }
        }
    }
}

/// An ascending rearrangement of `s` is `sorted(s)`: there is only one.
pub proof fn lemma_sorted_is_unique(s: Seq<i64>, t: Seq<i64>)
    requires
        ascending(t),
        t.to_multiset() == s.to_multiset(),
    ensures
        t == sorted(s),
{
    assert(total_ordering(leq()));
    s.lemma_sort_by_ensures(leq());
    assert(sorted_by(t, leq()));
    lemma_sorted_unique(t, sorted(s), leq());
}

/// Merges two ascending vectors into one.
fn merge(a: &Vec<i64>, b: &Vec<i64>) -> (out: Vec<i64>)
    requires
        ascending(a@),
        ascending(b@),
    ensures
        ascending(out@),
        out@.to_multiset() == a@.to_multiset().add(b@.to_multiset()),
{
    let mut out: Vec<i64> = Vec::new();
    let mut i: usize = 0;
    let mut j: usize = 0;
    assert(a@.take(0) =~= Seq::<i64>::empty());
    assert(b@.take(0) =~= Seq::<i64>::empty());
    assert(Seq::<i64>::empty().to_multiset() =~= vstd::multiset::Multiset::<i64>::empty()) by {
        Seq::<i64>::empty().to_multiset_ensures();
    }
    while i < a.len() || j < b.len()
        invariant
            i <= a.len(),
            j <= b.len(),
            ascending(a@),
            ascending(b@),
            ascending(out@),
            out@.to_multiset() =~= a@.take(i as int).to_multiset().add(
                b@.take(j as int).to_multiset(),
            ),
            forall|k: int| 0 <= k < out.len() && i < a.len() ==> out[k] <= a[i as int],
            forall|k: int| 0 <= k < out.len() && j < b.len() ==> out[k] <= b[j as int],
        decreases a.len() - i + b.len() - j,
    {
        let from_a = if i < a.len() && j < b.len() {
            a[i] <= b[j]
        } else {
            i < a.len()
        };
        if from_a {
            proof {
                assert(a@.take(i + 1) =~= a@.take(i as int).push(a@[i as int]));
                to_multiset_build(a@.take(i as int), a@[i as int]);
                to_multiset_build(out@, a@[i as int]);
            }
            out.push(a[i]);
            i += 1;
        } else {
            proof {
                assert(b@.take(j + 1) =~= b@.take(j as int).push(b@[j as int]));
                to_multiset_build(b@.take(j as int), b@[j as int]);
                to_multiset_build(out@, b@[j as int]);
            }
            out.push(b[j]);
            j += 1;
        }
    }
    assert(a@.take(i as int) =~= a@);
    assert(b@.take(j as int) =~= b@);
    out
}

/// Sorts the part of `v` from `lo` up to, not including, `hi`.
fn sort_range(v: &[i64], lo: usize, hi: usize) -> (out: Vec<i64>)
    requires
        lo <= hi <= v.len(),
    ensures
        ascending(out@),
        out@.to_multiset() == v@.subrange(lo as int, hi as int).to_multiset(),
    decreases hi - lo,
{
    if hi - lo <= 1 {
        let mut out: Vec<i64> = Vec::new();
        if lo < hi {
            out.push(v[lo]);
        }
        assert(out@ =~= v@.subrange(lo as int, hi as int));
        out
    } else {
        let mid: usize = lo + (hi - lo) / 2;
        let left = sort_range(v, lo, mid);
        let right = sort_range(v, mid, hi);
        proof {
            let l = v@.subrange(lo as int, mid as int);
            let r = v@.subrange(mid as int, hi as int);
            assert(v@.subrange(lo as int, hi as int) =~= l + r);
            lemma_multiset_commutative(l, r);
        }
        merge(&left, &right)
    }
}

/// Returns the values of `v` in ascending order.
pub fn sort(v: &[i64]) -> (out: Vec<i64>)
    ensures
        out@ == sorted(v@),
{
    let out = sort_range(v, 0, v.len());
    proof {
        assert(v@.subrange(0, v.len() as int) =~= v@);
        lemma_sorted_is_unique(v@, out@);
    }
    out
}

/// The `q`-th quartile, in quarters of a tick, of the ascending sequence `s`.
///
/// The position `q (s.len() - 1) / 4` is split into its whole part `lo` and
/// the number `r` of quarters left over; the quartile lies `r` quarters of
/// the way from `s[lo]` to `s[lo + 1]`.
pub open spec fn quartile_of_sorted(s: Seq<i64>, q: int) -> int
    recommends
        s.len() > 0,
        1 <= q <= 3,
{
    let rank = q * (s.len() - 1);
    let lo = rank / 4;
    let r = rank % 4;
    if r == 0 {
        4 * s[lo]
    } else {
        4 * s[lo] + r * (s[lo + 1] - s[lo])
    }
}

/// The `q`-th quartile, in quarters of a tick, of a sample in any order.
pub open spec fn quartile(sample: Seq<i64>, q: int) -> int
    recommends
        sample.len() > 0,
        1 <= q <= 3,
{
    quartile_of_sorted(sorted(sample), q)
}

/// A quartile of an ascending sequence lies between the two order statistics
/// around its position, hence between the least and the greatest value.
pub proof fn lemma_quartile_between(s: Seq<i64>, q: int)
    requires
        ascending(s),
        s.len() > 0,
        1 <= q <= 3,
    ensures
        ({
            let rank = q * (s.len() - 1);
            &&& 0 <= rank / 4 < s.len()
            &&& rank % 4 != 0 ==> rank / 4 + 1 < s.len()
            &&& 4 * s[rank / 4] <= quartile_of_sorted(s, q)
            &&& rank % 4 != 0 ==> quartile_of_sorted(s, q) <= 4 * s[rank / 4 + 1]
        }),
        4 * s[0] <= quartile_of_sorted(s, q) <= 4 * s[s.len() - 1],
{
    let n1 = s.len() - 1;
    let rank = q * n1;
    assert(rank == if q == 1 { n1 } else if q == 2 { 2 * n1 } else { 3 * n1 });
    let lo = rank / 4;
    let r = rank % 4;
    let d = s[lo + 1] - s[lo];
    if r != 0 {
        assert(d >= 0);
        assert(r * d == if r == 1 { d } else if r == 2 { 2 * d } else { 3 * d });
    }
}

/// The quartiles of an ascending sequence ascend with `q`.
pub proof fn lemma_quartiles_ascend(s: Seq<i64>, p: int, q: int)
    requires
        ascending(s),
        s.len() > 0,
        1 <= p <= q <= 3,
    ensures
        quartile_of_sorted(s, p) <= quartile_of_sorted(s, q),
{
    let n1 = s.len() - 1;
    let rp = p * n1;
    let rq = q * n1;
    assert(rp == if p == 1 { n1 } else if p == 2 { 2 * n1 } else { 3 * n1 });
    assert(rq == if q == 1 { n1 } else if q == 2 { 2 * n1 } else { 3 * n1 });
    lemma_quartile_between(s, p);
    lemma_quartile_between(s, q);
    if rp / 4 == rq / 4 {
        let d = s[rp / 4 + 1] - s[rp / 4];
        let a = rp % 4;
        let b = rq % 4;
        if b != 0 {
            assert(d >= 0);
            assert(a * d == if a == 0 { 0 } else if a == 1 { d } else if a == 2 { 2 * d } else { 3 * d });
            assert(b * d == if b == 1 { d } else if b == 2 { 2 * d } else { 3 * d });
        }
    } else {
        assert(rp / 4 + 1 <= rq / 4);
    }
}

/// The first quartile of a sample is never above its third.
pub proof fn lemma_interquartile_range(sample: Seq<i64>)
    requires
        sample.len() > 0,
    ensures
        quartile(sample, 1) <= quartile(sample, 2) <= quartile(sample, 3),
        4 * i64::MIN <= quartile(sample, 1),
        quartile(sample, 3) <= 4 * i64::MAX,
{
    lemma_sorted(sample);
    let s = sorted(sample);
    lemma_quartiles_ascend(s, 1, 2);
    lemma_quartiles_ascend(s, 2, 3);
    lemma_quartile_between(s, 1);
    lemma_quartile_between(s, 3);
}

/// The `q`-th quartile of the ascending vector `s`.
fn quartile_at(s: &Vec<i64>, q: u8) -> (r: i128)
    requires
        ascending(s@),
        s.len() > 0,
        1 <= q <= 3,
    ensures
        r == quartile_of_sorted(s@, q as int),
{
    let n1: u128 = (s.len() - 1) as u128;
    let rank: u128 = if q == 1 {
        n1
    } else if q == 2 {
        2 * n1
    } else {
        3 * n1
    };
    assert(rank == (q as int) * (s.len() - 1)) by (nonlinear_arith)
        requires
            n1 == s.len() - 1,
            rank == if q == 1 { n1 as int } else if q == 2 { 2 * n1 } else { 3 * n1 },
            1 <= q <= 3,
    ;
    let lo: usize = (rank / 4) as usize;
    let rem: u128 = rank % 4;
    let low: i128 = s[lo] as i128;
    if rem == 0 {
        4 * low
    } else {
        let d: i128 = s[lo + 1] as i128 - low;
        let part: i128 = if rem == 1 {
            d
        } else if rem == 2 {
            2 * d
        } else {
            3 * d
        };
        assert(part == (rem as int) * (s@[lo as int + 1] - s@[lo as int])) by (nonlinear_arith)
            requires
                d == s@[lo as int + 1] - s@[lo as int],
                part == if rem == 1 { d as int } else if rem == 2 { 2 * d } else { 3 * d },
                1 <= rem <= 3,
        ;
        4 * low + part
    }
}

/// Computes the three quartiles of `sample`, in quarters of a tick.
///
/// An empty sample has no quartiles.
pub fn quartiles(sample: &[i64]) -> (r: Option<(i128, i128, i128)>)
    ensures
        r is None <==> sample@.len() == 0,
        r matches Some(t) ==> {
            &&& t.0 == quartile(sample@, 1)
            &&& t.1 == quartile(sample@, 2)
            &&& t.2 == quartile(sample@, 3)
        },
{
    if sample.len() == 0 {
        return None;
    }
    let s = sort(sample);
    proof {
        lemma_sorted(sample@);
    }
    Some((quartile_at(&s, 1), quartile_at(&s, 2), quartile_at(&s, 3)))
}

} // verus!
