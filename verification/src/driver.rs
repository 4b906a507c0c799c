use vstd::prelude::*;

use rayon::iter::IntoParallelIterator;
use rayon::iter::ParallelIterator;

verus! {

use crate::NUM_SLOTS;
use crate::engine::EngineError;
use crate::engine::always_ready;
use crate::engine::simulate_game_multi;
use crate::strategies::StrategyKind;
use crate::strategy::Strategy;
use vstd::pervasive::VecAdditionalExecFns;

/// The total count across a histogram's buckets.
pub open spec fn hist_sum(h: Seq<usize>) -> int
    decreases h.len(),
{
    if h.len() == 0 {
        0
    } else {
        hist_sum(h.drop_last()) + h.last()
    }
}

/// A histogram has one bucket for each possible placed-count, `0..=NUM_SLOTS`.
pub open spec fn hist_wf(h: Seq<usize>) -> bool {
    h.len() == NUM_SLOTS + 1
}

/// Histograms merge by adding matching buckets.
pub open spec fn hist_add(a: Seq<int>, b: Seq<int>) -> Seq<int> {
    Seq::new(a.len(), |i: int| a[i] + b[i])
}

/// Merging histograms is commutative: reducing per-trial histograms in any
/// order yields the same counts.
pub proof fn lemma_hist_add_commutes(a: Seq<int>, b: Seq<int>)
    requires
        a.len() == b.len(),
    ensures
        hist_add(a, b) == hist_add(b, a),
{
    assert(hist_add(a, b) =~= hist_add(b, a));
}

/// Merging histograms is associative: any grouping of the per-trial
/// histograms reduces to the same counts, so trials may be partitioned across
/// workers arbitrarily.
pub proof fn lemma_hist_add_associative(a: Seq<int>, b: Seq<int>, c: Seq<int>)
    requires
        a.len() == b.len() == c.len(),
    ensures
        hist_add(hist_add(a, b), c) == hist_add(a, hist_add(b, c)),
{
    assert(hist_add(hist_add(a, b), c) =~= hist_add(a, hist_add(b, c)));
}

/// The all-zero histogram is the identity of merging.
pub proof fn lemma_hist_add_zero(a: Seq<int>, z: Seq<int>)
    requires
        a.len() == z.len(),
        forall|i: int| 0 <= i < z.len() ==> z[i] == 0,
    ensures
        hist_add(a, z) == a,
        hist_add(z, a) == a,
{
    assert(hist_add(a, z) =~= a);
    assert(hist_add(z, a) =~= a);
}

proof fn lemma_hist_sum_push(h: Seq<usize>, x: usize)
    ensures
        hist_sum(h.push(x)) == hist_sum(h) + x,
{
    assert(h.push(x).drop_last() =~= h);
}

proof fn lemma_hist_sum_update(h: Seq<usize>, i: int, x: usize)
    requires
        0 <= i < h.len(),
    ensures
        hist_sum(h.update(i, x)) == hist_sum(h) - h[i] + x,
    decreases h.len(),
{
    let u = h.update(i, x);
    if i == h.len() - 1 {
        assert(u.drop_last() =~= h.drop_last());
    } else {
        assert(u.drop_last() =~= h.drop_last().update(i, x));
        lemma_hist_sum_update(h.drop_last(), i, x);
    }
}

/// Every bucket is at most the histogram's total.
proof fn lemma_hist_entry_le_sum(h: Seq<usize>, i: int)
    requires
        0 <= i < h.len(),
    ensures
        h[i] <= hist_sum(h),
    decreases h.len(),
{
    if i < h.len() - 1 {
        lemma_hist_entry_le_sum(h.drop_last(), i);
    } else {
        lemma_hist_sum_nonneg(h.drop_last());
    }
    lemma_hist_sum_nonneg(h);
}

proof fn lemma_hist_sum_nonneg(h: Seq<usize>)
    ensures
        hist_sum(h) >= 0,
    decreases h.len(),
{
    if h.len() > 0 {
        lemma_hist_sum_nonneg(h.drop_last());
    }
}

/// One all-zero histogram per strategy.
fn zero_histograms(count: usize) -> (r: Vec<Vec<usize>>)
    ensures
        r@.len() == count,
        forall|i: int|
            0 <= i < count ==> hist_wf((#[trigger] r@[i])@) && hist_sum(r@[i]@) == 0 && forall|
                j: int,
            | 0 <= j < r@[i]@.len() ==> r@[i]@[j] == 0,
{
    let mut r: Vec<Vec<usize>> = Vec::new();
    let mut i: usize = 0;
    while i < count
        invariant
            i <= count,
            r@.len() == i,
            forall|k: int|
                0 <= k < i ==> hist_wf((#[trigger] r@[k])@) && hist_sum(r@[k]@) == 0 && forall|
                    j: int,
                | 0 <= j < r@[k]@.len() ==> r@[k]@[j] == 0,
        decreases count - i,
    {
        let mut h: Vec<usize> = Vec::new();
        let mut j: usize = 0;
        while j < NUM_SLOTS + 1
            invariant
                j <= NUM_SLOTS + 1,
                h@.len() == j,
                hist_sum(h@) == 0,
                forall|t: int| 0 <= t < j ==> h@[t] == 0,
            decreases NUM_SLOTS + 1 - j,
        {
            proof {
                lemma_hist_sum_push(h@, 0);
            }
            h.push(0);
            j = j + 1;
        }
        r.push(h);
        i = i + 1;
    }
    r
}

/// Runs one trial for every strategy and turns the results into per-strategy
/// histograms holding a single count each.
pub fn trial_histograms(strategies: &Vec<(String, StrategyKind)>) -> (r: Result<
    Vec<Vec<usize>>,
    EngineError,
>)
    requires
        forall|i: int| 0 <= i < strategies@.len() ==> (#[trigger] strategies@[i]).1.wf(),
    ensures
        match r {
            Ok(h) => {
                &&& h@.len() == strategies@.len()
                &&& forall|i: int|
                    0 <= i < h@.len() ==> hist_wf((#[trigger] h@[i])@) && hist_sum(h@[i]@) == 1
            },
            Err(_) => true,
        },
        (forall|i: int| 0 <= i < strategies@.len() ==> always_ready((#[trigger] strategies@[i]).1))
            ==> r is Ok,
{
    let results = match simulate_game_multi(strategies) {
        Ok(v) => v,
        Err(e) => {
            return Err(e);
        },
    };
    let mut hists: Vec<Vec<usize>> = Vec::new();
    let mut i: usize = 0;
    while i < results.len()
        invariant
            i <= results@.len(),
            hists@.len() == i,
            forall|k: int|
                0 <= k < results@.len() ==> (#[trigger] results@[k]).1.placed_count <= NUM_SLOTS,
            forall|k: int|
                0 <= k < i ==> hist_wf((#[trigger] hists@[k])@) && hist_sum(hists@[k]@) == 1,
        decreases results@.len() - i,
    {
        let mut h = zero_histograms(1);
        let mut hist = h.remove(0);
        let c = results[i].1.placed_count;
        proof {
            lemma_hist_sum_update(hist@, c as int, 1);
        }
        hist.set(c, 1);
        hists.push(hist);
        i = i + 1;
    }
    Ok(hists)
}

/// Two histogram sets cover the same strategies and can merge without the
/// counts overflowing.
pub open spec fn mergeable(aseq: Seq<Vec<usize>>, bseq: Seq<Vec<usize>>) -> bool {
    &&& aseq.len() == bseq.len()
    &&& forall|k: int|
        0 <= k < aseq.len() ==> hist_wf((#[trigger] aseq[k])@) && hist_wf((#[trigger] bseq[k])@)
            && hist_sum(aseq[k]@) + hist_sum(bseq[k]@) <= usize::MAX
}

/// Merges two per-strategy histogram sets bucket by bucket; an aborted trial
/// on either side aborts the merge.
pub fn merge_trial_results(
    a: Result<Vec<Vec<usize>>, EngineError>,
    b: Result<Vec<Vec<usize>>, EngineError>,
) -> (r: Result<Vec<Vec<usize>>, EngineError>)
    requires
        (a is Ok && b is Ok) ==> mergeable(a->Ok_0@, b->Ok_0@),
    ensures
        a is Err ==> r == a,
        (a is Ok && b is Err) ==> r == b,
        (a is Ok && b is Ok) ==> match r {
            Ok(m) => {
                &&& m@.len() == a->Ok_0@.len()
                &&& forall|i: int|
                    0 <= i < m@.len() ==> hist_wf((#[trigger] m@[i])@) && hist_sum(m@[i]@)
                        == hist_sum(a->Ok_0@[i]@) + hist_sum(b->Ok_0@[i]@) && forall|j: int|
                        0 <= j < m@[i]@.len() ==> m@[i]@[j] == a->Ok_0@[i]@[j] + b->Ok_0@[i]@[j]
            },
            Err(_) => false,
        },
{
    let ghost ga = a;
    let ghost gb = b;
    let av = match a {
        Ok(av) => av,
        Err(e) => {
            return Err(e);
        },
    };
    let bv = match b {
        Ok(bv) => bv,
        Err(e) => {
            return Err(e);
        },
    };
    let ghost aseq = av@;
    let ghost bseq = bv@;
    proof {
        assert(ga is Ok && gb is Ok && ga->Ok_0@ == aseq && gb->Ok_0@ == bseq);
        assert(mergeable(aseq, bseq));
    }
    let mut merged: Vec<Vec<usize>> = Vec::new();
    let mut i: usize = 0;
    while i < av.len()
        invariant
            av@ == aseq,
            bv@ == bseq,
            mergeable(aseq, bseq),
            i <= aseq.len(),
            merged@.len() == i,
            forall|k: int|
                0 <= k < i ==> hist_wf((#[trigger] merged@[k])@) && hist_sum(merged@[k]@)
                    == hist_sum(aseq[k]@) + hist_sum(bseq[k]@) && forall|j: int|
                    0 <= j < merged@[k]@.len() ==> merged@[k]@[j] == aseq[k]@[j] + bseq[k]@[j],
        decreases aseq.len() - i,
    {
        let ah = &av[i];
        let bh = &bv[i];
        let mut h: Vec<usize> = Vec::new();
        let mut j: usize = 0;
        while j < NUM_SLOTS + 1
            invariant
                i < aseq.len(),
                av@ == aseq,
                bv@ == bseq,
                mergeable(aseq, bseq),
                ah == av[i as int],
                bh == bv[i as int],
                hist_wf(ah@),
                hist_wf(bh@),
                hist_sum(ah@) + hist_sum(bh@) <= usize::MAX,
                j <= NUM_SLOTS + 1,
                h@.len() == j,
                forall|t: int| 0 <= t < j ==> h@[t] == ah@[t] + bh@[t],
                hist_sum(h@) == hist_sum(ah@.take(j as int)) + hist_sum(bh@.take(j as int)),
            decreases NUM_SLOTS + 1 - j,
        {
            proof {
                lemma_hist_entry_le_sum(ah@, j as int);
                lemma_hist_entry_le_sum(bh@, j as int);
                lemma_hist_sum_nonneg(ah@);
                lemma_hist_sum_nonneg(bh@);
                lemma_hist_sum_take_le(ah@, j as int);
                lemma_hist_sum_take_le(bh@, j as int);
                lemma_hist_sum_push(h@, (ah@[j as int] + bh@[j as int]) as usize);
                assert(ah@.take(j as int + 1).drop_last() =~= ah@.take(j as int));
                assert(bh@.take(j as int + 1).drop_last() =~= bh@.take(j as int));
            }
            let v = ah[j] + bh[j];
            h.push(v);
            j = j + 1;
        }
        proof {
            assert(ah@.take(NUM_SLOTS + 1 as int) =~= ah@);
            assert(bh@.take(NUM_SLOTS + 1 as int) =~= bh@);
        }
        merged.push(h);
        i = i + 1;
    }
    Ok(merged)
}

/// A prefix never counts more than the whole histogram.
proof fn lemma_hist_sum_take_le(h: Seq<usize>, j: int)
    requires
        0 <= j <= h.len(),
    ensures
        hist_sum(h.take(j)) <= hist_sum(h),
    decreases h.len() - j,
{
    if j < h.len() {
        lemma_hist_sum_take_le(h, j + 1);
        assert(h.take(j + 1).drop_last() =~= h.take(j));
        assert(hist_sum(h.take(j + 1)) == hist_sum(h.take(j)) + h[j]);
    } else {
        assert(h.take(j) =~= h);
    }
}


/// Relies on rayon's `into_par_iter().map(..).reduce(..)`: the result is the
/// fold, under `merge_trial_results`, of `num_simulations` values of
/// `trial_histograms(strategies)`, with `Ok(zero_histograms(..))` as the
/// identity. Each per-trial histogram sums to 1 and merging adds sums and
/// never loses a trial (both proved on those functions), so a fold of
/// `num_simulations` of them sums to `num_simulations`; how rayon groups the
/// fold cannot matter, merging being associative and commutative.
#[verifier::external_body]
fn run_trials_parallel(strategies: &Vec<(String, StrategyKind)>, num_simulations: usize) -> (r:
    Result<Vec<Vec<usize>>, EngineError>)
    requires
        forall|i: int| 0 <= i < strategies@.len() ==> (#[trigger] strategies@[i]).1.wf(),
    ensures
        match r {
            Ok(h) => {
                &&& h@.len() == strategies@.len()
                &&& forall|i: int|
                    0 <= i < h@.len() ==> hist_wf((#[trigger] h@[i])@) && hist_sum(h@[i]@)
                        == num_simulations
            },
            Err(_) => true,
        },
        (forall|i: int| 0 <= i < strategies@.len() ==> always_ready((#[trigger] strategies@[i]).1))
            ==> r is Ok,
{
    (0..num_simulations)
        .into_par_iter()
        .map(|_t| trial_histograms(strategies))
        .reduce(
            || Ok(zero_histograms(strategies.len())),
            |x, y| merge_trial_results(x, y),
        )
}

/// Runs `num_simulations` independent trials per strategy across parallel
/// workers and reduces the per-trial histograms into one histogram per
/// strategy. In a returned set every histogram's buckets sum to exactly
/// `num_simulations`; strategies that can decide every gap always get one.
pub fn run_simulations_multi(
    strategies: &Vec<(String, StrategyKind)>,
    num_simulations: usize,
) -> (r: Result<Vec<(String, Vec<usize>)>, EngineError>)
    requires
        forall|i: int| 0 <= i < strategies@.len() ==> (#[trigger] strategies@[i]).1.wf(),
    ensures
        match r {
            Ok(v) => {
                &&& v@.len() == strategies@.len()
                &&& forall|i: int|
                    0 <= i < v@.len() ==> (#[trigger] v@[i]).0 == strategies@[i].0 && hist_wf(
                        v@[i].1@,
                    ) && hist_sum(v@[i].1@) == num_simulations
            },
            Err(_) => true,
        },
        (forall|i: int| 0 <= i < strategies@.len() ==> always_ready((#[trigger] strategies@[i]).1))
            ==> r is Ok,
{
    let mut hists = match run_trials_parallel(strategies, num_simulations) {
        Ok(h) => h,
        Err(e) => {
            return Err(e);
        },
    };
    let ghost all = hists@;
    let mut out: Vec<(String, Vec<usize>)> = Vec::new();
    let mut i: usize = 0;
    while i < strategies.len()
        invariant
            all.len() == strategies@.len(),
            forall|k: int|
                0 <= k < all.len() ==> hist_wf((#[trigger] all[k])@) && hist_sum(all[k]@)
                    == num_simulations,
            i <= strategies@.len(),
            hists@ =~= all.subrange(i as int, all.len() as int),
            out@.len() == i,
            forall|j: int|
                0 <= j < i ==> (#[trigger] out@[j]).0 == strategies@[j].0 && out@[j].1 == all[j],
        decreases strategies@.len() - i,
    {
        let name = strategies[i].0.clone();
        let h = hists.remove(0);
        proof {
            assert(h == all[i as int]);
            assert(hists@ =~= all.subrange(i as int + 1, all.len() as int));
        }
        out.push((name, h));
        i = i + 1;
    }
    Ok(out)
}


/// The total count across a spec-level histogram's buckets.
pub open spec fn hist_total(h: Seq<int>) -> int
    decreases h.len(),
{
    if h.len() == 0 {
        0
    } else {
        hist_total(h.drop_last()) + h.last()
    }
}

/// The merge of a whole batch of histograms, one per trial.
pub open spec fn hist_add_all(hs: Seq<Seq<int>>, width: nat) -> Seq<int>
    decreases hs.len(),
{
    if hs.len() == 0 {
        Seq::new(width, |i: int| 0)
    } else {
        hist_add(hist_add_all(hs.drop_last(), width), hs.last())
    }
}

proof fn lemma_hist_total_add(a: Seq<int>, b: Seq<int>)
    requires
        a.len() == b.len(),
    ensures
        hist_total(hist_add(a, b)) == hist_total(a) + hist_total(b),
    decreases a.len(),
{
    if a.len() > 0 {
        assert(hist_add(a, b).drop_last() =~= hist_add(a.drop_last(), b.drop_last()));
        lemma_hist_total_add(a.drop_last(), b.drop_last());
    }
}

proof fn lemma_hist_total_zero(width: nat)
    ensures
        hist_total(Seq::<int>::new(width, |i: int| 0)) == 0,
    decreases width,
{
    if width > 0 {
        assert(Seq::<int>::new(width, |i: int| 0).drop_last() =~= Seq::<int>::new(
            (width - 1) as nat,
            |i: int| 0,
        ));
        lemma_hist_total_zero((width - 1) as nat);
    }
}

/// Merging any batch of per-trial histograms counts each trial exactly once:
/// when every histogram in the batch is of the right width and sums to one,
/// the merged histogram's buckets sum to the batch's size.
pub proof fn lemma_merged_trials_sum(hs: Seq<Seq<int>>, width: nat)
    requires
        forall|i: int|
            0 <= i < hs.len() ==> (#[trigger] hs[i]).len() == width && hist_total(hs[i]) == 1,
    ensures
        hist_add_all(hs, width).len() == width,
        hist_total(hist_add_all(hs, width)) == hs.len(),
    decreases hs.len(),
{
    if hs.len() == 0 {
        lemma_hist_total_zero(width);
    } else {
        lemma_merged_trials_sum(hs.drop_last(), width);
        assert(hs[hs.len() - 1] == hs.last());
        lemma_hist_total_add(hist_add_all(hs.drop_last(), width), hs.last());
    }
}

} // verus!
