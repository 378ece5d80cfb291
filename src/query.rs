use vstd::prelude::*;

use crate::cluster::{lemma_prefix_mono, prefix, total};

verus! {

/// Where a quantile query lands among the centroids, ordered by mean.
#[derive(Clone, Copy, Debug, PartialEq, Eq)]
pub enum Located {
    /// Fewer than three centroids: there is nothing to interpolate between, and the
    /// query answers the sentinel zero.
    Degenerate,
    /// The target weight falls inside centroid `index`, which starts after
    /// `cum_weight`; the local slope is `mean[right] - mean[left]`, halved where
    /// `halved` holds.
    Straddle { index: usize, cum_weight: u64, left: usize, right: usize, halved: bool },
    /// No centroid ends past the target weight: the query answers the last mean.
    PastEnd,
}

/// The answer for the straddling centroid `i` of `m`, after weight `cum`: the first
/// centroid takes its slope towards the second, the last one from the one before
/// it, an interior one half the span between its two neighbours.
pub open spec fn straddle(i: int, m: int, cum: int) -> Located {
    if i == 0 {
        Located::Straddle { index: 0, cum_weight: cum as u64, left: 0, right: 1, halved: false }
    } else if i == m - 1 {
        Located::Straddle {
            index: i as usize,
            cum_weight: cum as u64,
            left: (i - 1) as usize,
            right: i as usize,
            halved: false,
        }
    } else {
        Located::Straddle {
            index: i as usize,
            cum_weight: cum as u64,
            left: (i - 1) as usize,
            right: (i + 1) as usize,
            halved: true,
        }
    }
}

/// Scan from centroid `i`, with `cum` the weight before it, for the first centroid
/// whose end lies past `target`.
pub open spec fn scan(ws: Seq<u64>, target: int, i: int, cum: int) -> Located
    decreases ws.len() - i,
{
    if i < 0 || i >= ws.len() {
        Located::PastEnd
    } else if cum + ws[i] > target {
        straddle(i, ws.len() as int, cum)
    } else {
        scan(ws, target, i + 1, cum + ws[i])
    }
}

/// Where the target weight lands among centroids of weights `ws`.
pub open spec fn located(ws: Seq<u64>, target: int) -> Located {
    if ws.len() < 3 {
        Located::Degenerate
    } else {
        scan(ws, target, 0, 0)
    }
}

/// Finds the centroid that straddles the target weight `target`, which is the
/// query's quantile times the total weight, rounded down: with integer weights a
/// centroid ends past the exact target exactly when it ends past its floor.
pub fn locate(ws: &Vec<u64>, target: i64) -> (r: Located)
    requires
        total(ws@) <= u64::MAX,
    ensures
        r == located(ws@, target as int),
{
    let m = ws.len();
    if m < 3 {
        return Located::Degenerate;
    }
    let mut cum: u64 = 0;
    let mut i: usize = 0;
    while i < m
        invariant
            i <= m,
            m == ws.len(),
            m >= 3,
            total(ws@) <= u64::MAX,
            cum == prefix(ws@, i as int),
            scan(ws@, target as int, 0, 0) == scan(ws@, target as int, i as int, cum as int),
        decreases m - i,
    {
        proof {
            lemma_prefix_mono(ws@, i as int + 1, m as int);
        }
        let end = cum + ws[i];
        if target < 0 || end > target as u64 {
            if i == 0 {
                return Located::Straddle { index: 0, cum_weight: cum, left: 0, right: 1, halved: false };
            } else if i == m - 1 {
                return Located::Straddle { index: i, cum_weight: cum, left: i - 1, right: i, halved: false };
            } else {
                return Located::Straddle { index: i, cum_weight: cum, left: i - 1, right: i + 1, halved: true };
            }
        }
        cum = end;
        i = i + 1;
    }
    Located::PastEnd
}

proof fn lemma_scan_index(ws: Seq<u64>, target: int, i: int, cum: int)
    requires
        0 <= i,
        ws.len() <= usize::MAX,
    ensures
        scan(ws, target, i, cum) is Straddle ==> scan(ws, target, i, cum)->index >= i,
        scan(ws, target, i, cum) is Straddle || scan(ws, target, i, cum) is PastEnd,
    decreases ws.len() - i,
{
    if i < ws.len() && cum + ws[i] <= target {
        lemma_scan_index(ws, target, i + 1, cum + ws[i]);
    }
}

proof fn lemma_scan_monotone(ws: Seq<u64>, a: int, b: int, i: int, cum: int)
    requires
        0 <= i,
        ws.len() <= usize::MAX,
        a <= b,
        scan(ws, a, i, cum) is Straddle,
    ensures
        scan(ws, b, i, cum) is PastEnd || (scan(ws, b, i, cum) is Straddle && scan(ws, a, i, cum)->index
            <= scan(ws, b, i, cum)->index),
    decreases ws.len() - i,
{
    if i < ws.len() {
        if cum + ws[i] > b {
        } else if cum + ws[i] > a {
            assert(scan(ws, a, i, cum)->index == i);
            lemma_scan_index(ws, b, i + 1, cum + ws[i]);
        } else {
            lemma_scan_monotone(ws, a, b, i + 1, cum + ws[i]);
        }
    }
}

/// A larger target never lands on an earlier centroid: it lands on the same one or
/// a later one, or past the end.
pub proof fn lemma_located_monotone(ws: Seq<u64>, a: int, b: int)
    requires
        ws.len() <= usize::MAX,
        a <= b,
        located(ws, a) is Straddle,
    ensures
        located(ws, b) is PastEnd || (located(ws, b) is Straddle && located(ws, a)->index <= located(
            ws,
            b,
        )->index),
{
    lemma_scan_monotone(ws, a, b, 0, 0);
}

proof fn lemma_scan_past_end(ws: Seq<u64>, i: int)
    requires
        0 <= i <= ws.len(),
    ensures
        scan(ws, total(ws), i, prefix(ws, i)) is PastEnd,
    decreases ws.len() - i,
{
    if i < ws.len() {
        lemma_prefix_mono(ws, i + 1, ws.len() as int);
        lemma_scan_past_end(ws, i + 1);
    }
}

/// The two ends of the query range: with three or more centroids of positive
/// weight, a target of zero lands in the first centroid, before any weight, and
/// interpolates towards the second; a target of the total weight lands past the
/// end, which answers the last mean.
pub proof fn lemma_located_ends(ws: Seq<u64>)
    requires
        ws.len() >= 3,
        forall|j: int| 0 <= j < ws.len() ==> #[trigger] ws[j] >= 1,
    ensures
        located(ws, 0) == (Located::Straddle { index: 0, cum_weight: 0, left: 0, right: 1, halved: false }),
        located(ws, total(ws)) is PastEnd,
{
    assert(ws[0] >= 1);
    lemma_scan_past_end(ws, 0);
}

} // verus!
