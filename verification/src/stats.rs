//! Percentile summaries over a metric's history.
//!
//! The history is first filtered to strictly-positive values (idle samples
//! are excluded from ranking, though they stay in the raw history), then
//! sorted ascending. A percentile is estimated by linear-rank interpolation:
//! rank `p/100 * (count-1)`, with linear interpolation between the two
//! neighbouring order statistics at a fractional rank. Interpolation is
//! exact over micro-units except for a final floor division by 100.

use vstd::prelude::*;
use vstd::multiset::Multiset;
use vstd::relations::{sorted_by, total_ordering};
use vstd::seq_lib::lemma_sorted_unique;

verus! {

/// Ascending order: every element is at most every later one.
pub open spec fn sorted_asc(s: Seq<i64>) -> bool {
    forall|i: int, j: int| 0 <= i <= j < s.len() ==> s[i] <= s[j]
}

/// The ascending order on `i64` as a relation.
pub open spec fn asc_leq() -> spec_fn(i64, i64) -> bool {
    |a: i64, b: i64| a <= b
}

/// The strictly-positive values of `s`, in order.
pub open spec fn positives_of(s: Seq<i64>) -> Seq<i64> {
    s.filter(|v: i64| v > 0)
}

/// `s` rearranged into ascending order.
pub open spec fn sorted_of(s: Seq<i64>) -> Seq<i64> {
    s.sort_by(asc_leq())
}

/// The sequence a metric's percentiles are ranked over: the history
/// filtered to strictly-positive values, sorted ascending.
pub open spec fn summary_input(history: Seq<i64>) -> Seq<i64> {
    sorted_of(positives_of(history))
}

/// Linear interpolation between `a` and `b` at weight `w` of 100,
/// floored to an integer.
pub open spec fn interp(a: int, b: int, w: int) -> int {
    (a * (100 - w) + b * w) / 100
}

/// The value of the ascending sequence `s` at rank `r` hundredths of an
/// index: the order statistic at `r / 100`, interpolated toward the next
/// one by the fractional part.
pub open spec fn rank_value(s: Seq<i64>, r: int) -> int {
    let lo = r / 100;
    let w = r % 100;
    if w == 0 {
        s[lo] as int
    } else {
        interp(s[lo] as int, s[lo + 1] as int, w)
    }
}

/// The `p`th percentile of the ascending sequence `s` by linear-rank
/// interpolation; 0 when `s` is empty.
pub open spec fn percentile_of(s: Seq<i64>, p: int) -> int {
    if s.len() == 0 {
        0
    } else {
        rank_value(s, p * (s.len() - 1))
    }
}

/// An interpolated value lies between its two endpoints.
proof fn lemma_interp_bounds(a: int, b: int, w: int)
    requires
        a <= b,
        0 <= w <= 100,
    ensures
        a <= interp(a, b, w) <= b,
{
    let num = a * (100 - w) + b * w;
    assert(100 * a <= num <= 100 * b) by (nonlinear_arith)
        requires
            a <= b,
            0 <= w <= 100,
            num == a * (100 - w) + b * w,
    ;
    vstd::arithmetic::div_mod::lemma_div_multiples_vanish(a, 100);
    vstd::arithmetic::div_mod::lemma_div_multiples_vanish(b, 100);
    vstd::arithmetic::div_mod::lemma_div_is_ordered(100 * a, num, 100);
    vstd::arithmetic::div_mod::lemma_div_is_ordered(num, 100 * b, 100);
}

/// Bounds on the rank and its split into index and weight: the low index
/// stays inside the sequence, and strictly inside it when the rank has a
/// fractional part.
proof fn lemma_rank_bounds(n: int, p: int)
    requires
        n >= 1,
        0 <= p <= 100,
    ensures
        0 <= p * (n - 1) <= 100 * (n - 1),
        0 <= p * (n - 1) / 100 <= n - 1,
        p * (n - 1) % 100 != 0 ==> p * (n - 1) / 100 <= n - 2,
        0 <= p * (n - 1) % 100 < 100,
{
    let r = p * (n - 1);
    assert(0 <= r <= 100 * (n - 1)) by (nonlinear_arith)
        requires
            n >= 1,
            0 <= p <= 100,
            r == p * (n - 1),
    ;
    vstd::arithmetic::div_mod::lemma_div_is_ordered(0, r, 100);
    vstd::arithmetic::div_mod::lemma_div_is_ordered(r, 100 * (n - 1), 100);
    vstd::arithmetic::div_mod::lemma_div_multiples_vanish(n - 1, 100);
    vstd::arithmetic::div_mod::lemma_fundamental_div_mod(r, 100);
    vstd::arithmetic::div_mod::lemma_mod_bound(r, 100);
    let lo = r / 100;
    let w = r % 100;
    if w != 0 && lo > n - 2 {
        assert(lo == n - 1);
        assert(r == 100 * (n - 1) + w);
        assert(false);
    }
}

/// Computes the `p`th percentile of an ascending sequence, exactly as
/// `percentile_of` describes; 0 for an empty sequence, and the single
/// element itself for a one-element sequence.
pub fn percentile(sorted: &Vec<i64>, p: u8) -> (r: i64)
    requires
        sorted_asc(sorted@),
        p <= 100,
    ensures
        r as int == percentile_of(sorted@, p as int),
{
    let n = sorted.len();
    if n == 0 {
        return 0;
    }
    proof {
        lemma_rank_bounds(n as int, p as int);
    }
    let rank: u128 = (p as u128) * ((n - 1) as u128);
    proof {
        assert(rank == (p as int) * (n - 1)) by (nonlinear_arith)
            requires
                rank == (p as u128) * ((n - 1) as u128),
                p <= 100,
                n >= 1,
        ;
    }
    let lo = (rank / 100) as usize;
    let w: u128 = rank % 100;
    if w == 0 {
        sorted[lo]
    } else {
        let a = sorted[lo];
        let b = sorted[lo + 1];
        proof {
            assert(a <= b);
            lemma_interp_bounds(a as int, b as int, (rank % 100) as int);
        }
        let off: i128 = 9_223_372_036_854_775_808;
        let ao: u128 = ((a as i128) + off) as u128;
        let bo: u128 = ((b as i128) + off) as u128;
        proof {
            assert(ao as int * ((100 - w) as int) + bo as int * (w as int) <= 18_446_744_073_709_551_615
                * 100) by (nonlinear_arith)
                requires
                    0 <= ao as int <= 18_446_744_073_709_551_615,
                    0 <= bo as int <= 18_446_744_073_709_551_615,
                    0 <= (w as int) && (w as int) < 100,
            ;
        }
        let num: u128 = ao * (100 - w) + bo * w;
        let q: u128 = num / 100;
        let res: i64 = ((q as i128) - off) as i64;
        proof {
            let wi = w as int;
            let k = off as int;
            assert(ao as int == a + k && bo as int == b + k);
            assert(num == (a + k) * (100 - wi) + (b + k) * wi) by (nonlinear_arith)
                requires
                    num == ao * (100 - w) + bo * w,
                    ao as int == a + k,
                    bo as int == b + k,
                    wi == w as int,
                    0 <= w < 100,
                    0 <= ao as int <= 18_446_744_073_709_551_615,
                    0 <= bo as int <= 18_446_744_073_709_551_615,
            ;
            assert((a + k) * (100 - wi) + (b + k) * wi == a * (100 - wi) + b * wi + 100 * k)
                by (nonlinear_arith);
            vstd::arithmetic::div_mod::lemma_hoist_over_denominator(
                a * (100 - wi) + b * wi,
                k,
                100,
            );
            assert(q as int == interp(a as int, b as int, wi) + k);
            assert(res as int == interp(a as int, b as int, wi));
        }
        res
    }
}

/// A percentile of an empty history is 0.
pub proof fn lemma_percentile_empty(p: int)
    ensures
        percentile_of(Seq::<i64>::empty(), p) == 0,
{
}

/// Every percentile of a one-element sequence is that element.
pub proof fn lemma_percentile_single(s: Seq<i64>, p: int)
    requires
        s.len() == 1,
        0 <= p <= 100,
    ensures
        percentile_of(s, p) == s[0],
{
    assert(p * (s.len() - 1) == 0) by (nonlinear_arith)
        requires
            s.len() == 1,
    ;
}

/// The rank value never leaves the band between the order statistics it
/// interpolates.
proof fn lemma_rank_value_band(s: Seq<i64>, r: int)
    requires
        sorted_asc(s),
        s.len() >= 1,
        0 <= r <= 100 * (s.len() - 1),
    ensures
        0 <= r / 100 < s.len(),
        s[r / 100] <= rank_value(s, r),
        r % 100 == 0 ==> rank_value(s, r) == s[r / 100],
        r % 100 != 0 ==> r / 100 + 1 < s.len() && rank_value(s, r) <= s[r / 100 + 1],
{
    let n = s.len() as int;
    vstd::arithmetic::div_mod::lemma_div_is_ordered(0, r, 100);
    vstd::arithmetic::div_mod::lemma_div_is_ordered(r, 100 * (n - 1), 100);
    vstd::arithmetic::div_mod::lemma_div_multiples_vanish(n - 1, 100);
    vstd::arithmetic::div_mod::lemma_fundamental_div_mod(r, 100);
    vstd::arithmetic::div_mod::lemma_mod_bound(r, 100);
    let lo = r / 100;
    let w = r % 100;
    if w != 0 {
        if lo > n - 2 {
            assert(r == 100 * (n - 1) + w);
            assert(false);
        }
        lemma_interp_bounds(s[lo] as int, s[lo + 1] as int, w);
    }
}

/// Monotonicity of the rank value in the rank, over an ascending sequence.
proof fn lemma_rank_value_monotonic(s: Seq<i64>, r1: int, r2: int)
    requires
        sorted_asc(s),
        s.len() >= 1,
        0 <= r1 <= r2 <= 100 * (s.len() - 1),
    ensures
        rank_value(s, r1) <= rank_value(s, r2),
{
    let lo1 = r1 / 100;
    let lo2 = r2 / 100;
    let w1 = r1 % 100;
    let w2 = r2 % 100;
    lemma_rank_value_band(s, r1);
    lemma_rank_value_band(s, r2);
    vstd::arithmetic::div_mod::lemma_div_is_ordered(r1, r2, 100);
    vstd::arithmetic::div_mod::lemma_fundamental_div_mod(r1, 100);
    vstd::arithmetic::div_mod::lemma_fundamental_div_mod(r2, 100);
    if lo1 == lo2 {
        if w1 == 0 {
            // rank_value(s, r1) is s[lo1], a lower bound of rank_value(s, r2).
        } else {
            let a = s[lo1] as int;
            let b = s[lo1 + 1] as int;
            assert(w1 <= w2);
            assert(a * (100 - w1) + b * w1 <= a * (100 - w2) + b * w2) by (nonlinear_arith)
                requires
                    a <= b,
                    w1 <= w2,
            ;
            vstd::arithmetic::div_mod::lemma_div_is_ordered(
                a * (100 - w1) + b * w1,
                a * (100 - w2) + b * w2,
                100,
            );
        }
    } else {
        // lo1 < lo2: pass through the order statistics between the bands.
        if w1 == 0 {
            assert(rank_value(s, r1) == s[lo1]);
            assert(s[lo1] <= s[lo2]);
        } else {
            assert(rank_value(s, r1) <= s[lo1 + 1]);
            assert(s[lo1 + 1] <= s[lo2]);
        }
    }
}

/// The percentile estimate is monotonic in `p` over any fixed, non-empty
/// ascending input: for `p1 <= p2`, the `p1`th percentile is at most the
/// `p2`th (so p50 <= p90 <= p99).
pub proof fn lemma_percentile_monotonic(s: Seq<i64>, p1: int, p2: int)
    requires
        sorted_asc(s),
        s.len() >= 1,
        0 <= p1 <= p2 <= 100,
    ensures
        percentile_of(s, p1) <= percentile_of(s, p2),
{
    let n = s.len() as int;
    assert(0 <= p1 * (n - 1) <= p2 * (n - 1) <= 100 * (n - 1)) by (nonlinear_arith)
        requires
            n >= 1,
            0 <= p1 <= p2 <= 100,
    ;
    lemma_rank_value_monotonic(s, p1 * (n - 1), p2 * (n - 1));
}

/// Copies out the strictly-positive values of `values`, in order.
pub fn filter_positive(values: &Vec<i64>) -> (r: Vec<i64>)
    ensures
        r@ == positives_of(values@),
{
    let mut out: Vec<i64> = Vec::new();
    let mut i: usize = 0;
    proof {
        assert(values@.take(0).filter(|v: i64| v > 0) =~= Seq::<i64>::empty()) by {
            reveal(Seq::filter);
        }
    }
    while i < values.len()
        invariant
            i <= values.len(),
            out@ == values@.take(i as int).filter(|v: i64| v > 0),
        decreases values.len() - i,
    {
        let v = values[i];
        proof {
            reveal(Seq::filter);
            assert(values@.take(i + 1).drop_last() =~= values@.take(i as int));
            assert(values@.take(i + 1).last() == values@[i as int]);
        }
        if v > 0 {
            out.push(v);
        }
        i += 1;
    }
    proof {
        assert(values@.take(values@.len() as int) =~= values@);
    }
    out
}

/// Sorts into ascending order (selection sort), returning exactly the
/// ascending rearrangement `sorted_of` describes.
pub fn sort_ascending(values: &Vec<i64>) -> (r: Vec<i64>)
    ensures
        r@ == sorted_of(values@),
        sorted_asc(r@),
        r@.to_multiset() == values@.to_multiset(),
        r@.len() == values@.len(),
{
    broadcast use vstd::seq_lib::group_to_multiset_ensures;
    broadcast use vstd::multiset::group_multiset_axioms;

    let mut rest: Vec<i64> = values.clone();
    let mut out: Vec<i64> = Vec::new();
    proof {
        assert(out@.to_multiset().add(rest@.to_multiset()) =~= values@.to_multiset());
    }
    while rest.len() > 0
        invariant
            sorted_asc(out@),
            out@.to_multiset().add(rest@.to_multiset()) == values@.to_multiset(),
            out@.len() + rest@.len() == values@.len(),
            forall|i: int, j: int|
                0 <= i < out@.len() && 0 <= j < rest@.len() ==> out@[i] <= rest@[j],
        decreases rest.len(),
    {
        let mut min_idx: usize = 0;
        let mut k: usize = 1;
        while k < rest.len()
            invariant
                min_idx < k <= rest.len(),
                rest.len() > 0,
                forall|j: int| 0 <= j < k ==> rest@[min_idx as int] <= rest@[j],
            decreases rest.len() - k,
        {
            if rest[k] < rest[min_idx] {
                min_idx = k;
            }
            k += 1;
        }
        let ghost prev_rest = rest@;
        let ghost prev_out = out@;
        let v = rest.remove(min_idx);
        out.push(v);
        proof {
            prev_rest.to_multiset_ensures();
            prev_out.to_multiset_ensures();
            assert(v == prev_rest[min_idx as int]);
            assert(forall|j: int| 0 <= j < prev_rest.len() ==> v <= prev_rest[j]);
            assert(rest@ == prev_rest.remove(min_idx as int));
            assert(prev_rest.remove(min_idx as int).to_multiset() =~= prev_rest.to_multiset().remove(
                v));
            assert(prev_out.push(v).to_multiset() =~= prev_out.to_multiset().insert(v));
            assert(prev_rest.contains(v));
            assert(prev_rest.to_multiset().count(v) > 0);
            assert(out@.to_multiset().add(rest@.to_multiset()) =~= values@.to_multiset());
            assert(forall|i: int, j: int|
                0 <= i < out@.len() && 0 <= j < rest@.len() ==> out@[i] <= rest@[j]);
        }
    }
    proof {
        assert(rest@.to_multiset() =~= Multiset::<i64>::empty());
        assert(out@.to_multiset() =~= values@.to_multiset());
        let leq = asc_leq();
        assert(total_ordering(leq));
        values@.lemma_sort_by_ensures(leq);
        assert(sorted_by(out@, leq));
        lemma_sorted_unique(out@, values@.sort_by(leq), leq);
    }
    out
}

/// Filters a raw history to its strictly-positive values and sorts them
/// ascending: the input the percentile estimator ranks over.
pub fn positive_sorted(history: &Vec<i64>) -> (r: Vec<i64>)
    ensures
        r@ == summary_input(history@),
        sorted_asc(r@),
{
    let pos = filter_positive(history);
    sort_ascending(&pos)
}

} // verus!
