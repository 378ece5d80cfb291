use vstd::prelude::*;

verus! {

/// A run of consecutive items merged into one centroid: the items
/// `first .. first + count` of the input, of total weight `weight`.
#[derive(Clone, Copy, Debug, PartialEq, Eq)]
pub struct Cluster {
    pub first: usize,
    pub count: usize,
    pub weight: u64,
}

/// Why a digest could not be built.
#[derive(Clone, Copy, Debug, PartialEq, Eq)]
pub enum DigestError {
    /// There are no samples to summarise.
    InvalidInput,
    /// The order given for two centroid lists does not take each centroid once.
    MismatchedOrder,
}

/// Total weight of the first `i` items.
pub open spec fn prefix(ws: Seq<u64>, i: int) -> int
    decreases i,
{
    if i <= 0 {
        0
    } else {
        prefix(ws, i - 1) + ws[i - 1]
    }
}

/// Total weight of all items.
pub open spec fn total(ws: Seq<u64>) -> int {
    prefix(ws, ws.len() as int)
}

/// Total weight held by a sequence of clusters.
pub open spec fn weight_of(cs: Seq<Cluster>) -> int
    decreases cs.len(),
{
    if cs.len() == 0 {
        0
    } else {
        weight_of(cs.drop_last()) + cs.last().weight
    }
}

/// The cut rule: coordinate `k` on the scale lies more than one `unit` past `k_lower`.
pub open spec fn cuts(k: u64, k_lower: u64, unit: u64) -> bool {
    k as int - k_lower as int > unit as int
}

/// State of the left-to-right pass after the first `i` items: the closed clusters,
/// the scale coordinate of the last cut, the first item of the open cluster and
/// the weight gathered in it.
pub open spec fn pass(ws: Seq<u64>, ks: Seq<u64>, unit: u64, i: int) -> (Seq<Cluster>, u64, int, int)
    decreases i,
{
    if i <= 0 {
        (Seq::empty(), 0, 0, 0)
    } else {
        let (done, k_lower, start, acc) = pass(ws, ks, unit, i - 1);
        let acc = acc + ws[i - 1];
        if cuts(ks[i - 1], k_lower, unit) {
            (
                done.push(Cluster { first: start as usize, count: (i - start) as usize, weight: acc as u64 }),
                ks[i - 1],
                i,
                0,
            )
        } else {
            (done, k_lower, start, acc)
        }
    }
}

/// The clusters of the whole pass, the open cluster at the end included.
pub open spec fn clusters(ws: Seq<u64>, ks: Seq<u64>, unit: u64) -> Seq<Cluster> {
    let n = ws.len() as int;
    let (done, k_lower, start, acc) = pass(ws, ks, unit, n);
    if start < n {
        done.push(Cluster { first: start as usize, count: (n - start) as usize, weight: acc as u64 })
    } else {
        done
    }
}

/// The clusters are consecutive, non-empty runs that cover the items `0 .. end`
/// in order, each holding the weight of its run.
pub open spec fn tiles(cs: Seq<Cluster>, ws: Seq<u64>, end: int) -> bool {
    &&& (cs.len() == 0 ==> end == 0)
    &&& (cs.len() > 0 ==> cs[0].first == 0 && cs.last().first + cs.last().count == end)
    &&& forall|j: int|
        0 <= j < cs.len() - 1 ==> #[trigger] cs[j].first + cs[j].count == cs[j + 1].first
    &&& forall|j: int|
        0 <= j < cs.len() ==> #[trigger] cs[j].count >= 1 && cs[j].weight == run_weight(ws, cs[j])
}

/// Weight of the items that cluster `c` covers.
pub open spec fn run_weight(ws: Seq<u64>, c: Cluster) -> int {
    prefix(ws, c.first + c.count) - prefix(ws, c.first as int)
}

/// One weight per sample.
pub open spec fn unit_weights(n: nat) -> Seq<u64> {
    Seq::new(n, |i: int| 1u64)
}

pub proof fn lemma_prefix_mono(ws: Seq<u64>, i: int, j: int)
    requires
        0 <= i <= j <= ws.len(),
    ensures
        0 <= prefix(ws, i) <= prefix(ws, j),
    decreases j,
{
    if j > i {
        lemma_prefix_mono(ws, i, j - 1);
    } else if i > 0 {
        lemma_prefix_mono(ws, i - 1, i - 1);
    }
}

proof fn lemma_prefix_ones(n: nat, i: int)
    requires
        0 <= i <= n,
    ensures
        prefix(unit_weights(n), i) == i,
    decreases i,
{
    if i > 0 {
        lemma_prefix_ones(n, i - 1);
    }
}

proof fn lemma_pass(ws: Seq<u64>, ks: Seq<u64>, unit: u64, i: int)
    requires
        0 <= i <= ws.len(),
        ws.len() <= usize::MAX,
        total(ws) <= u64::MAX,
    ensures
        ({
            let (done, k_lower, start, acc) = pass(ws, ks, unit, i);
            &&& 0 <= start <= i
            &&& tiles(done, ws, start)
            &&& acc == prefix(ws, i) - prefix(ws, start)
            &&& 0 <= acc <= u64::MAX
        }),
    decreases i,
{
    if i > 0 {
        lemma_pass(ws, ks, unit, i - 1);
        lemma_prefix_mono(ws, i, ws.len() as int);
        let (done, k_lower, start, acc) = pass(ws, ks, unit, i - 1);
        lemma_prefix_mono(ws, start, i - 1);
        let acc2 = acc + ws[i - 1];
        if cuts(ks[i - 1], k_lower, unit) {
            let c = Cluster { first: start as usize, count: (i - start) as usize, weight: acc2 as u64 };
            let d2 = done.push(c);
            assert(d2.last() == c);
            assert forall|j: int| 0 <= j < d2.len() - 1 implies #[trigger] d2[j].first + d2[j].count
                == d2[j + 1].first by {
                if j < done.len() - 1 {
                    assert(d2[j] == done[j] && d2[j + 1] == done[j + 1]);
                } else {
                    assert(d2[j] == done.last());
                }
            }
            assert forall|j: int| 0 <= j < d2.len() implies #[trigger] d2[j].count >= 1 && d2[j].weight
                == run_weight(ws, d2[j]) by {
                if j < done.len() {
                    assert(d2[j] == done[j]);
                }
            }
            if done.len() > 0 {
                assert(d2[0] == done[0]);
            }
        } else {
            lemma_prefix_mono(ws, start, i);
        }
    }
}

proof fn lemma_weight_of_tiles(cs: Seq<Cluster>, ws: Seq<u64>, end: int)
    requires
        tiles(cs, ws, end),
    ensures
        weight_of(cs) == prefix(ws, end),
    decreases cs.len(),
{
    if cs.len() > 0 {
        let init = cs.drop_last();
        let last = cs.last();
        if init.len() > 0 {
            assert(cs[init.len() - 1] == init.last());
            assert(cs[0] == init[0]);
        }
        assert forall|j: int| 0 <= j < init.len() - 1 implies #[trigger] init[j].first + init[j].count
            == init[j + 1].first by {
            assert(init[j] == cs[j] && init[j + 1] == cs[j + 1]);
        }
        assert forall|j: int| 0 <= j < init.len() implies #[trigger] init[j].count >= 1
            && init[j].weight == run_weight(ws, init[j]) by {
            assert(init[j] == cs[j]);
        }
        assert(cs[cs.len() - 1] == last);
        lemma_weight_of_tiles(init, ws, last.first as int);
    }
}

/// The clusters of a pass over at least one item cover all items in order, each
/// cluster holding at least one item and exactly the weight of its run.
pub proof fn lemma_clusters_tile(ws: Seq<u64>, ks: Seq<u64>, unit: u64)
    requires
        ws.len() <= usize::MAX,
        total(ws) <= u64::MAX,
    ensures
        tiles(clusters(ws, ks, unit), ws, ws.len() as int),
        ws.len() > 0 ==> clusters(ws, ks, unit).len() >= 1,
        clusters(ws, ks, unit).len() <= ws.len(),
{
    let n = ws.len() as int;
    lemma_pass(ws, ks, unit, n);
    let (done, k_lower, start, acc) = pass(ws, ks, unit, n);
    lemma_tiles_len(done, ws, start);
    if start < n {
        let c = Cluster { first: start as usize, count: (n - start) as usize, weight: acc as u64 };
        let d2 = done.push(c);
        assert(d2.last() == c);
        assert forall|j: int| 0 <= j < d2.len() - 1 implies #[trigger] d2[j].first + d2[j].count
            == d2[j + 1].first by {
            if j < done.len() - 1 {
                assert(d2[j] == done[j] && d2[j + 1] == done[j + 1]);
            } else {
                assert(d2[j] == done.last());
            }
        }
        assert forall|j: int| 0 <= j < d2.len() implies #[trigger] d2[j].count >= 1 && d2[j].weight
            == run_weight(ws, d2[j]) by {
            if j < done.len() {
                assert(d2[j] == done[j]);
            }
        }
        if done.len() > 0 {
            assert(d2[0] == done[0]);
        }
    }
}

proof fn lemma_tiles_len(cs: Seq<Cluster>, ws: Seq<u64>, end: int)
    requires
        tiles(cs, ws, end),
    ensures
        cs.len() <= end,
        cs.len() > 0 ==> cs.last().first >= cs.len() - 1,
    decreases cs.len(),
{
    if cs.len() > 1 {
        let init = cs.drop_last();
        assert(cs[init.len() - 1] == init.last());
        assert(cs[0] == init[0]);
        assert forall|j: int| 0 <= j < init.len() - 1 implies #[trigger] init[j].first + init[j].count
            == init[j + 1].first by {
            assert(init[j] == cs[j] && init[j + 1] == cs[j + 1]);
        }
        assert forall|j: int| 0 <= j < init.len() implies #[trigger] init[j].count >= 1
            && init[j].weight == run_weight(ws, init[j]) by {
            assert(init[j] == cs[j]);
        }
        lemma_tiles_len(init, ws, cs.last().first as int);
        assert(cs[cs.len() - 2].first + cs[cs.len() - 2].count == cs[cs.len() - 1].first);
    } else if cs.len() == 1 {
        assert(cs[0].count >= 1);
    }
}

/// Conservation: the clusters together hold exactly the weight of all items.
pub proof fn lemma_clusters_conserve(ws: Seq<u64>, ks: Seq<u64>, unit: u64)
    requires
        ws.len() <= usize::MAX,
        total(ws) <= u64::MAX,
    ensures
        weight_of(clusters(ws, ks, unit)) == total(ws),
{
    lemma_clusters_tile(ws, ks, unit);
    lemma_weight_of_tiles(clusters(ws, ks, unit), ws, ws.len() as int);
}

/// Sample conservation: clustering `n > 0` samples yields clusters whose weights sum to `n`.
pub proof fn lemma_samples_conserve(ks: Seq<u64>, unit: u64)
    requires
        ks.len() <= usize::MAX,
    ensures
        weight_of(clusters(unit_weights(ks.len()), ks, unit)) == ks.len(),
{
    lemma_prefix_ones(ks.len(), ks.len() as int);
    lemma_clusters_conserve(unit_weights(ks.len()), ks, unit);
}

/// Sum of all weights.
pub fn total_weight(ws: &Vec<u64>) -> (r: u64)
    requires
        total(ws@) <= u64::MAX,
    ensures
        r == total(ws@),
{
    let mut sum: u64 = 0;
    let mut i: usize = 0;
    while i < ws.len()
        invariant
            i <= ws.len(),
            total(ws@) <= u64::MAX,
            sum == prefix(ws@, i as int),
        decreases ws.len() - i,
    {
        proof {
            lemma_prefix_mono(ws@, i as int + 1, ws.len() as int);
        }
        sum = sum + ws[i];
        i = i + 1;
    }
    sum
}

/// Groups weighted items, taken in order, into clusters by a single left-to-right pass.
///
/// `ks[i]` is the coordinate on the scale of the rank reached once item `i` is
/// counted, measured from the scale at rank zero, in fixed-point steps of which
/// `unit` make one. A cluster closes after item `i` when `ks[i]` lies more than one
/// `unit` past the coordinate at which the previous cluster closed; items left
/// open at the end form a last cluster.
pub fn cluster_pass(ws: &Vec<u64>, ks: &Vec<u64>, unit: u64) -> (r: Result<Vec<Cluster>, DigestError>)
    requires
        ks.len() == ws.len(),
        total(ws@) <= u64::MAX,
    ensures
        match r {
            Ok(cs) => ws.len() > 0 && cs@ == clusters(ws@, ks@, unit),
            Err(e) => ws.len() == 0 && e == DigestError::InvalidInput,
        },
{
    let n = ws.len();
    if n == 0 {
        return Err(DigestError::InvalidInput);
    }
    let mut out: Vec<Cluster> = Vec::new();
    let mut k_lower: u64 = 0;
    let mut start: usize = 0;
    let mut acc: u64 = 0;
    let mut i: usize = 0;
    while i < n
        invariant
            i <= n,
            n == ws.len(),
            ks.len() == n,
            total(ws@) <= u64::MAX,
            pass(ws@, ks@, unit, i as int) == (out@, k_lower, start as int, acc as int),
        decreases n - i,
    {
        proof {
            lemma_pass(ws@, ks@, unit, i as int);
            lemma_pass(ws@, ks@, unit, i as int + 1);
            lemma_prefix_mono(ws@, start as int, i as int + 1);
            lemma_prefix_mono(ws@, i as int + 1, n as int);
        }
        acc = acc + ws[i];
        let k = ks[i];
        if k > k_lower && k - k_lower > unit {
            out.push(Cluster { first: start, count: i + 1 - start, weight: acc });
            k_lower = k;
            start = i + 1;
            acc = 0;
        }
        i = i + 1;
    }
    if start < n {
        out.push(Cluster { first: start, count: n - start, weight: acc });
    }
    Ok(out)
}

/// Builds the clusters of a digest from `ks.len()` sorted samples, each of weight one;
/// `ks[i]` is the scale coordinate of the rank `(i + 1) / n`, as for `cluster_pass`.
pub fn build(ks: &Vec<u64>, unit: u64) -> (r: Result<Vec<Cluster>, DigestError>)
    ensures
        match r {
            Ok(cs) => ks.len() > 0 && cs@ == clusters(unit_weights(ks.len() as nat), ks@, unit),
            Err(e) => ks.len() == 0 && e == DigestError::InvalidInput,
        },
{
    let n = ks.len();
    let mut ws: Vec<u64> = Vec::new();
    let mut i: usize = 0;
    while i < n
        invariant
            i <= n,
            n == ks.len(),
            ws@ == unit_weights(i as nat),
        decreases n - i,
    {
        ws.push(1);
        i = i + 1;
        assert(ws@ =~= unit_weights(i as nat));
    }
    proof {
        lemma_prefix_ones(n as nat, n as int);
    }
    cluster_pass(&ws, ks, unit)
}

proof fn lemma_pass_no_cut(ws: Seq<u64>, ks: Seq<u64>, unit: u64, i: int)
    requires
        0 <= i <= ws.len(),
        ks.len() == ws.len(),
        forall|j: int| 0 <= j < ks.len() ==> #[trigger] ks[j] <= unit,
    ensures
        pass(ws, ks, unit, i) == (Seq::<Cluster>::empty(), 0u64, 0int, prefix(ws, i)),
    decreases i,
{
    if i > 0 {
        lemma_pass_no_cut(ws, ks, unit, i - 1);
        assert(ks[i - 1] <= unit);
    }
}

/// Where no coordinate on the scale lies more than one `unit` past rank zero, no cut
/// happens: the items form a single cluster holding all their weight. Samples all of
/// one value, clustered this way, give one centroid of that value and weight `n`.
pub proof fn lemma_single_cluster(ws: Seq<u64>, ks: Seq<u64>, unit: u64)
    requires
        ws.len() > 0,
        ws.len() <= usize::MAX,
        ks.len() == ws.len(),
        total(ws) <= u64::MAX,
        forall|j: int| 0 <= j < ks.len() ==> #[trigger] ks[j] <= unit,
    ensures
        clusters(ws, ks, unit) == seq![
            Cluster { first: 0, count: ws.len() as usize, weight: total(ws) as u64 },
        ],
{
    lemma_pass_no_cut(ws, ks, unit, ws.len() as int);
    assert(clusters(ws, ks, unit) =~= seq![
        Cluster { first: 0, count: ws.len() as usize, weight: total(ws) as u64 },
    ]);
}

/// Sum of the values `xs[lo .. hi]`.
pub open spec fn run_sum(xs: Seq<int>, lo: int, hi: int) -> int
    decreases hi - lo,
{
    if hi <= lo {
        0
    } else {
        run_sum(xs, lo, hi - 1) + xs[hi - 1]
    }
}

/// The values are in ascending order.
pub open spec fn ascending(xs: Seq<int>) -> bool {
    forall|i: int, j: int| 0 <= i <= j < xs.len() ==> xs[i] <= xs[j]
}

/// The mean of cluster `c` over `xs` is at most the mean of cluster `d`, stated
/// without division: `sum(c) / count(c) <= sum(d) / count(d)`.
pub open spec fn mean_le(xs: Seq<int>, c: Cluster, d: Cluster) -> bool {
    run_sum(xs, c.first as int, c.first + c.count) * d.count <= run_sum(xs, d.first as int, d.first + d.count)
        * c.count
}

proof fn lemma_run_sum_bounds(xs: Seq<int>, lo: int, hi: int)
    requires
        ascending(xs),
        0 <= lo < hi <= xs.len(),
    ensures
        run_sum(xs, lo, hi) <= (hi - lo) * xs[hi - 1],
        run_sum(xs, lo, hi) >= (hi - lo) * xs[lo],
    decreases hi - lo,
{
    assert(run_sum(xs, lo, hi) == run_sum(xs, lo, hi - 1) + xs[hi - 1]);
    if hi - 1 > lo {
        lemma_run_sum_bounds(xs, lo, hi - 1);
        let r = run_sum(xs, lo, hi - 1);
        let top = xs[hi - 1];
        let prev = xs[hi - 2];
        let bot = xs[lo];
        let k = hi - 1 - lo;
        assert(prev <= top);
        assert(bot <= top);
        assert(r + top <= (k + 1) * top) by (nonlinear_arith)
            requires
                r <= k * prev,
                prev <= top,
                k >= 0,
        ;
        assert(r + top >= (k + 1) * bot) by (nonlinear_arith)
            requires
                r >= k * bot,
                bot <= top,
        ;
    } else {
        assert(run_sum(xs, lo, hi - 1) == 0);
        assert(hi - lo == 1);
    }
}

proof fn lemma_adjacent_means(xs: Seq<int>, a: int, b: int, c: int)
    requires
        ascending(xs),
        0 <= a < b < c <= xs.len(),
    ensures
        run_sum(xs, a, b) * (c - b) <= run_sum(xs, b, c) * (b - a),
{
    lemma_run_sum_bounds(xs, a, b);
    lemma_run_sum_bounds(xs, b, c);
    let s1 = run_sum(xs, a, b);
    let s2 = run_sum(xs, b, c);
    let v = xs[b];
    assert(xs[b - 1] <= v);
    assert((b - a) * xs[b - 1] <= (b - a) * v) by (nonlinear_arith)
        requires
            xs[b - 1] <= v,
            b - a > 0,
    ;
    assert(s1 * (c - b) <= s2 * (b - a)) by (nonlinear_arith)
        requires
            s1 <= (b - a) * v,
            s2 >= (c - b) * v,
            b - a > 0,
            c - b > 0,
    ;
}

/// Ordering: over samples in ascending order, the clusters of a pass have
/// non-decreasing means. The values are taken exactly, as integers.
pub proof fn lemma_sorted_means_ordered(xs: Seq<int>, ks: Seq<u64>, unit: u64)
    requires
        ascending(xs),
        ks.len() == xs.len(),
        xs.len() <= usize::MAX,
    ensures
        forall|j: int|
            0 <= j < clusters(unit_weights(xs.len()), ks, unit).len() - 1 ==> mean_le(
                xs,
                #[trigger] clusters(unit_weights(xs.len()), ks, unit)[j],
                clusters(unit_weights(xs.len()), ks, unit)[j + 1],
            ),
{
    let ws = unit_weights(xs.len());
    let cs = clusters(ws, ks, unit);
    lemma_prefix_ones(xs.len(), xs.len() as int);
    lemma_clusters_tile(ws, ks, unit);
    assert forall|j: int| 0 <= j < cs.len() - 1 implies mean_le(xs, #[trigger] cs[j], cs[j + 1]) by {
        let c = cs[j];
        let d = cs[j + 1];
        assert(c.first + c.count == d.first);
        assert(c.count >= 1 && d.count >= 1);
        lemma_tiles_bound(cs, ws, xs.len() as int, j + 1);
        lemma_adjacent_means(xs, c.first as int, d.first as int, d.first + d.count);
    }
}

proof fn lemma_tiles_bound(cs: Seq<Cluster>, ws: Seq<u64>, end: int, j: int)
    requires
        tiles(cs, ws, end),
        0 <= j < cs.len(),
    ensures
        cs[j].first + cs[j].count <= end,
    decreases cs.len() - j,
{
    if j < cs.len() - 1 {
        assert(cs[j].first + cs[j].count == cs[j + 1].first);
        assert(cs[j + 1].count >= 1);
        lemma_tiles_bound(cs, ws, end, j + 1);
    }
}

} // verus!
