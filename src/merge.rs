use vstd::prelude::*;

use crate::cluster::{
    Cluster, DigestError, cluster_pass, clusters, lemma_clusters_conserve, prefix, total, weight_of,
};

verus! {

/// How many of the first `k` steps take from the first list.
pub open spec fn taken(t: Seq<bool>, k: int) -> int
    decreases k,
{
    if k <= 0 {
        0
    } else {
        taken(t, k - 1) + if t[k - 1] {
            1int
        } else {
            0int
        }
    }
}

/// `t` interleaves a list of `a_len` items with one of `b_len` items: one step per
/// item, `true` taking the next item of the first list.
pub open spec fn interleaves(a_len: int, b_len: int, t: Seq<bool>) -> bool {
    t.len() == a_len + b_len && taken(t, t.len() as int) == a_len
}

/// The items of `a` and `b` in the order that `t` takes them.
pub open spec fn woven(a: Seq<u64>, b: Seq<u64>, t: Seq<bool>) -> Seq<u64> {
    Seq::new(
        t.len(),
        |k: int|
            if t[k] {
                a[taken(t, k)]
            } else {
                b[k - taken(t, k)]
            },
    )
}

proof fn lemma_taken_mono(t: Seq<bool>, k: int, l: int)
    requires
        0 <= k <= l <= t.len(),
    ensures
        0 <= taken(t, k) <= taken(t, l),
        taken(t, k) <= k,
        k - taken(t, k) <= l - taken(t, l),
    decreases l,
{
    if l > k {
        lemma_taken_mono(t, k, l - 1);
    } else if k > 0 {
        lemma_taken_mono(t, k - 1, k - 1);
    }
}

proof fn lemma_woven_prefix(a: Seq<u64>, b: Seq<u64>, t: Seq<bool>, k: int)
    requires
        0 <= k <= t.len(),
    ensures
        prefix(woven(a, b, t), k) == prefix(a, taken(t, k)) + prefix(b, k - taken(t, k)),
    decreases k,
{
    if k > 0 {
        lemma_woven_prefix(a, b, t, k - 1);
        lemma_taken_mono(t, k - 1, k - 1);
    }
}

/// Interleaving keeps every item once: the woven list weighs what both lists weigh.
pub proof fn lemma_woven_total(a: Seq<u64>, b: Seq<u64>, t: Seq<bool>)
    requires
        interleaves(a.len() as int, b.len() as int, t),
    ensures
        total(woven(a, b, t)) == total(a) + total(b),
{
    lemma_woven_prefix(a, b, t, t.len() as int);
}

/// Merge conservation: reclustering two digests' centroids, interleaved in any
/// order, gives clusters that weigh the sum of both digests' total weights.
pub proof fn lemma_merge_conserves(a: Seq<u64>, b: Seq<u64>, t: Seq<bool>, ks: Seq<u64>, unit: u64)
    requires
        interleaves(a.len() as int, b.len() as int, t),
        t.len() <= usize::MAX,
        total(a) + total(b) <= u64::MAX,
    ensures
        weight_of(clusters(woven(a, b, t), ks, unit)) == total(a) + total(b),
{
    lemma_woven_total(a, b, t);
    lemma_clusters_conserve(woven(a, b, t), ks, unit);
}

/// The weights of `a` and `b` in the order that `take_a` gives, or `None` where
/// `take_a` is not an interleaving of the two.
pub fn interleave(a: &Vec<u64>, b: &Vec<u64>, take_a: &Vec<bool>) -> (r: Option<Vec<u64>>)
    ensures
        match r {
            Some(v) => interleaves(a.len() as int, b.len() as int, take_a@) && v@ == woven(
                a@,
                b@,
                take_a@,
            ),
            None => !interleaves(a.len() as int, b.len() as int, take_a@),
        },
{
    let n = take_a.len();
    if n < a.len() || n - a.len() != b.len() {
        return None;
    }
    let mut out: Vec<u64> = Vec::new();
    let mut i: usize = 0;
    let mut k: usize = 0;
    while k < n
        invariant
            k <= n,
            n == take_a.len(),
            n == a.len() + b.len(),
            i == taken(take_a@, k as int),
            i <= a.len(),
            k - i <= b.len(),
            out@ == woven(a@, b@, take_a@).subrange(0, k as int),
        decreases n - k,
    {
        proof {
            lemma_taken_mono(take_a@, k as int, k as int + 1);
            lemma_taken_mono(take_a@, k as int + 1, n as int);
        }
        if take_a[k] {
            if i >= a.len() {
                return None;
            }
            out.push(a[i]);
            i = i + 1;
        } else {
            if k - i >= b.len() {
                return None;
            }
            out.push(b[k - i]);
        }
        k = k + 1;
        assert(out@ =~= woven(a@, b@, take_a@).subrange(0, k as int));
    }
    assert(out@ =~= woven(a@, b@, take_a@));
    Some(out)
}

/// Merges two digests, given by their centroid weights: `take_a` is the order of
/// their centroids by mean (`true` takes the next centroid of `a`), and `ks[i]` is the
/// scale coordinate of the rank reached once the `i`-th centroid of that order is
/// counted, as for `cluster_pass`. The interleaved centroids are reclustered by one
/// pass that counts cumulative weight in place of sample index.
pub fn merge(a: &Vec<u64>, b: &Vec<u64>, take_a: &Vec<bool>, ks: &Vec<u64>, unit: u64) -> (r: Result<
    Vec<Cluster>,
    DigestError,
>)
    requires
        ks.len() == a.len() + b.len(),
        total(a@) + total(b@) <= u64::MAX,
    ensures
        match r {
            Ok(cs) => interleaves(a.len() as int, b.len() as int, take_a@) && a.len() + b.len() > 0
                && cs@ == clusters(woven(a@, b@, take_a@), ks@, unit),
            Err(DigestError::MismatchedOrder) => !interleaves(a.len() as int, b.len() as int, take_a@),
            Err(DigestError::InvalidInput) => interleaves(a.len() as int, b.len() as int, take_a@)
                && a.len() + b.len() == 0,
        },
{
    match interleave(a, b, take_a) {
        None => Err(DigestError::MismatchedOrder),
        Some(ws) => {
            proof {
                lemma_woven_total(a@, b@, take_a@);
            }
            cluster_pass(&ws, ks, unit)
        },
    }
}

} // verus!
