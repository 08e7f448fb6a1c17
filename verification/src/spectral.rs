//! The verdicts recorded for tracked runs of the sheaf heat flow.
//!
//! The claim being tracked is that the spectral gap of the sheaf Laplacian does
//! not decrease along the flow. For a static sheaf the Laplacian does not change,
//! so the run is recorded as satisfying the claim; a sheaf that is not static is
//! recorded as violating it at step 0. For a sheaf whose restriction maps evolve
//! with the flow, the run is judged by its samples, and the first step at which
//! the gap dropped is recorded. This module proves nothing about spectra: it
//! proves what is recorded, given the comparisons the caller reports.
//!
//! The samples themselves (times, gaps, entropies) are floating-point values
//! kept by the caller.

use vstd::prelude::*;

verus! {

/// The verdict of a tracked run of `n_steps` flow steps: whether the
/// non-decreasing gap theorem holds for it, and if not, the step at which it was
/// first seen to fail.
#[derive(Clone, Copy, Debug, PartialEq, Eq, Structural)]
pub struct SpectralEvolution {
    pub n_steps: usize,
    pub theorem_holds: bool,
    pub violation_step: Option<usize>,
}

impl SpectralEvolution {
    /// A verdict is consistent when the theorem holds exactly when no violation
    /// step is recorded.
    pub open spec fn consistent(&self) -> bool {
        self.theorem_holds == self.violation_step.is_none()
    }

    /// The verdict after observing step `t`, at which the gap dropped
    /// (`gap_dropped`) or not: the first drop at a step `t > 0` is recorded, and
    /// nothing changes afterwards.
    pub open spec fn after_step(self, t: int, gap_dropped: bool) -> SpectralEvolution {
        if t > 0 && gap_dropped && self.theorem_holds {
            SpectralEvolution { n_steps: self.n_steps, theorem_holds: false, violation_step: Some(t as usize) }
        } else {
            self
        }
    }

    /// The verdict before any step of a run of `n_steps` steps has been observed.
    pub fn start(n_steps: usize) -> (ev: Self)
        ensures
            ev.n_steps == n_steps,
            ev.theorem_holds,
            ev.violation_step == None::<usize>,
            ev.consistent(),
    {
        SpectralEvolution { n_steps, theorem_holds: true, violation_step: None }
    }

    /// Observe step `t` of an evolving run: `gap_dropped` tells whether the gap
    /// sampled at step `t` fell below the one sampled at step `t - 1`.
    pub fn record_step(&mut self, t: usize, gap_dropped: bool)
        ensures
            *final(self) == old(self).after_step(t as int, gap_dropped),
            final(self).n_steps == old(self).n_steps,
            t > 0 && gap_dropped && old(self).theorem_holds ==> !final(self).theorem_holds
                && final(self).violation_step == Some(t),
            !(t > 0 && gap_dropped && old(self).theorem_holds) ==> final(self).theorem_holds == old(
                self,
            ).theorem_holds && final(self).violation_step == old(self).violation_step,
    {
        if t > 0 && gap_dropped {
            if self.theorem_holds {
                self.theorem_holds = false;
                self.violation_step = Some(t);
            }
        }
    }
}

/// The verdict after observing the steps `0..drops.len()` of a run, `drops[t]`
/// telling whether the gap dropped at step `t`.
pub open spec fn verdict_after(n_steps: usize, drops: Seq<bool>) -> SpectralEvolution
    decreases drops.len(),
{
    if drops.len() == 0 {
        SpectralEvolution { n_steps, theorem_holds: true, violation_step: None }
    } else {
        verdict_after(n_steps, drops.drop_last()).after_step(drops.len() - 1, drops.last())
    }
}

/// The first step `t >= 1` at which the gap dropped, if any.
pub open spec fn first_drop(drops: Seq<bool>) -> Option<int> {
    if exists|t: int| 1 <= t < drops.len() && drops[t] {
        Some(choose|t: int| 1 <= t < drops.len() && drops[t] && forall|s: int| 1 <= s < t ==> !drops[s])
    } else {
        None
    }
}

/// Observing a run step by step records exactly its first drop: the theorem is
/// reported to hold if and only if the gap never dropped at a step `t >= 1`, and
/// otherwise the violation step is the first step at which it dropped. Every
/// verdict met along the way is consistent.
pub proof fn lemma_verdict_records_first_drop(n_steps: usize, drops: Seq<bool>)
    requires
        drops.len() <= usize::MAX,
    ensures
        verdict_after(n_steps, drops).n_steps == n_steps,
        verdict_after(n_steps, drops).consistent(),
        verdict_after(n_steps, drops).theorem_holds <==> (forall|t: int|
            1 <= t < drops.len() ==> !#[trigger] drops[t]),
        match verdict_after(n_steps, drops).violation_step {
            Some(t) => {
                &&& 1 <= t < drops.len()
                &&& drops[t as int]
                &&& forall|s: int| 1 <= s < t ==> !#[trigger] drops[s]
            },
            None => true,
        },
    decreases drops.len(),
{
    if drops.len() > 0 {
        let prev = drops.drop_last();
        lemma_verdict_records_first_drop(n_steps, prev);
        let k = drops.len() - 1;
        assert forall|t: int| 1 <= t < prev.len() implies prev[t] == drops[t] by {}
    }
}

/// A recorded violation is permanent: once the theorem is reported to fail,
/// observing further steps changes nothing. Observing a step keeps a verdict
/// consistent.
pub proof fn lemma_violation_is_permanent(ev: SpectralEvolution, t: int, gap_dropped: bool)
    requires
        0 <= t <= usize::MAX,
    ensures
        !ev.theorem_holds ==> ev.after_step(t, gap_dropped) == ev,
        ev.consistent() ==> ev.after_step(t, gap_dropped).consistent(),
        ev.after_step(t, gap_dropped).n_steps == ev.n_steps,
{
}

/// Track spectral gap evolution during flow for a static sheaf: the verdict.
///
/// The theorem holds for a static sheaf; for a sheaf that is not static the
/// verdict is a violation at step 0.
pub fn track_spectral_gap(is_static: bool, n_steps: usize) -> (ev: SpectralEvolution)
    ensures
        ev.n_steps == n_steps,
        ev.theorem_holds == is_static,
        ev.violation_step == (if is_static { None } else { Some(0usize) }),
        ev.consistent(),
{
    let theorem_holds = is_static;
    let violation_step = if is_static { None } else { Some(0) };
    SpectralEvolution { n_steps, theorem_holds, violation_step }
}

/// Track spectral gap for an evolving sheaf: the verdict of a run of `n_steps`
/// steps, where `gap_dropped[t]` tells whether the gap sampled at step `t` fell
/// below the one sampled at step `t - 1` (by more than the tolerance).
pub fn track_spectral_gap_evolving(n_steps: usize, gap_dropped: &Vec<bool>) -> (ev: SpectralEvolution)
    requires
        gap_dropped.len() == n_steps,
    ensures
        ev == verdict_after(n_steps, gap_dropped@),
        ev.n_steps == n_steps,
        ev.consistent(),
        ev.theorem_holds <==> (forall|t: int| 1 <= t < n_steps ==> !#[trigger] gap_dropped@[t]),
        match ev.violation_step {
            Some(t) => {
                &&& 1 <= t < n_steps
                &&& gap_dropped@[t as int]
                &&& forall|s: int| 1 <= s < t ==> !#[trigger] gap_dropped@[s]
            },
            None => forall|t: int| 1 <= t < n_steps ==> !#[trigger] gap_dropped@[t],
        },
        ev.theorem_holds <==> first_drop(gap_dropped@) is None,
        ev.violation_step == (match first_drop(gap_dropped@) {
            Some(t) => Some(t as usize),
            None => None,
        }),
{
    let mut ev = SpectralEvolution::start(n_steps);
    let mut t: usize = 0;
    while t < n_steps
        invariant
            t <= n_steps,
            gap_dropped.len() == n_steps,
            ev == verdict_after(n_steps, gap_dropped@.take(t as int)),
        decreases n_steps - t,
    {
        assert(gap_dropped@.take(t + 1).drop_last() =~= gap_dropped@.take(t as int));
        ev.record_step(t, gap_dropped[t]);
        t = t + 1;
    }
    proof {
        assert(gap_dropped@.take(n_steps as int) =~= gap_dropped@);
        lemma_verdict_records_first_drop(n_steps, gap_dropped@);
        lemma_first_drop(gap_dropped@, ev);
    }
    ev
}

/// `first_drop` agrees with a verdict that records the first drop.
proof fn lemma_first_drop(drops: Seq<bool>, ev: SpectralEvolution)
    requires
        ev.theorem_holds <==> (forall|t: int| 1 <= t < drops.len() ==> !#[trigger] drops[t]),
        ev.consistent(),
        drops.len() <= usize::MAX,
        match ev.violation_step {
            Some(t) => {
                &&& 1 <= t < drops.len()
                &&& drops[t as int]
                &&& forall|s: int| 1 <= s < t ==> !#[trigger] drops[s]
            },
            None => true,
        },
    ensures
        ev.theorem_holds <==> first_drop(drops) is None,
        ev.violation_step == (match first_drop(drops) {
            Some(t) => Some(t as usize),
            None => None,
        }),
{
    match ev.violation_step {
        Some(t) => {
            assert(drops[t as int]);
            let c = choose|c: int| 1 <= c < drops.len() && drops[c] && forall|s: int| 1 <= s < c ==> !drops[s];
            assert(first_drop(drops) == Some(c));
            if c < t {
                assert(!drops[c]);
            }
            if t < c {
                assert(!drops[t as int]);
            }
        },
        None => {},
    }
}

/// Verify the theorem: spectral gap is non-decreasing during flow.
pub fn verify_non_decreasing_gap(ev: &SpectralEvolution) -> (holds: bool)
    ensures
        holds == ev.theorem_holds,
{
    ev.theorem_holds
}

/// The first index in `lo..hi` at which `s` is true, if any.
pub open spec fn first_true(s: Seq<bool>, lo: int, hi: int) -> Option<int>
    decreases hi - lo,
{
    if lo >= hi {
        None
    } else if s[lo] {
        Some(lo)
    } else {
        first_true(s, lo + 1, hi)
    }
}

/// The step whose time is the critical time of a run of `n` steps: with fewer
/// than two steps, the first step if there is one; otherwise the first step
/// `t >= 1` whose entropy exceeds the threshold, else the first step
/// `t > n / 10` at which the gap had settled, else the last step.
pub open spec fn critical_step_of(n: int, entropy_high: Seq<bool>, gap_settled: Seq<bool>) -> Option<int> {
    if n < 2 {
        if n > 0 {
            Some(0)
        } else {
            None
        }
    } else if first_true(entropy_high, 1, n) is Some {
        first_true(entropy_high, 1, n)
    } else if first_true(gap_settled, n / 10 + 1, n) is Some {
        first_true(gap_settled, n / 10 + 1, n)
    } else {
        Some(n - 1)
    }
}

/// `first_true` finds what it promises: the least index in range whose flag is set.
pub proof fn lemma_first_true(s: Seq<bool>, lo: int, hi: int)
    requires
        0 <= lo,
        hi <= s.len(),
    ensures
        match first_true(s, lo, hi) {
            Some(t) => lo <= t < hi && s[t] && forall|x: int| lo <= x < t ==> !#[trigger] s[x],
            None => forall|x: int| lo <= x < hi ==> !#[trigger] s[x],
        },
    decreases hi - lo,
{
    if lo < hi && !s[lo] {
        lemma_first_true(s, lo + 1, hi);
    }
}

/// The critical step is, for a run of at least two steps, the first step `t >= 1`
/// with high entropy; failing that, the first step `t > n / 10` with a settled
/// gap; failing that, the last step. A run of one step has critical step 0 and
/// a run of none has no critical step.
pub proof fn lemma_critical_step_characterized(n: int, entropy_high: Seq<bool>, gap_settled: Seq<bool>)
    requires
        n >= 2 ==> entropy_high.len() >= n && gap_settled.len() >= n,
    ensures
        n <= 0 ==> critical_step_of(n, entropy_high, gap_settled) is None,
        n == 1 ==> critical_step_of(n, entropy_high, gap_settled) == Some(0int),
        n >= 2 ==> match critical_step_of(n, entropy_high, gap_settled) {
            Some(t) => {
                ||| (1 <= t < n && entropy_high[t] && forall|s: int| 1 <= s < t ==> !#[trigger] entropy_high[s])
                ||| ((forall|s: int| 1 <= s < n ==> !#[trigger] entropy_high[s]) && n / 10 < t < n
                    && gap_settled[t] && forall|s: int| n / 10 < s < t ==> !#[trigger] gap_settled[s])
                ||| ((forall|s: int| 1 <= s < n ==> !#[trigger] entropy_high[s]) && (forall|s: int|
                    n / 10 < s < n ==> !#[trigger] gap_settled[s]) && t == n - 1)
            },
            None => false,
        },
{
    if n >= 2 {
        lemma_first_true(entropy_high, 1, n);
        lemma_first_true(gap_settled, n / 10 + 1, n);
    }
}

/// Compute critical time: when gap stops changing significantly. Returns the
/// step whose time is the critical time, or `None` for a run with no steps
/// (whose critical time is zero). `entropy_high[t]` tells whether the entropy at
/// step `t` exceeds the threshold, `gap_settled[t]` whether the gap changed by
/// less than the tolerance from step `t - 1` to step `t`.
pub fn critical_step(n_steps: usize, entropy_high: &Vec<bool>, gap_settled: &Vec<bool>) -> (step: Option<usize>)
    requires
        n_steps >= 2 ==> entropy_high.len() >= n_steps && gap_settled.len() >= n_steps,
    ensures
        step == (match critical_step_of(n_steps as int, entropy_high@, gap_settled@) {
            Some(t) => Some(t as usize),
            None => None,
        }),
        step matches Some(t) ==> t < n_steps,
        n_steps == 0 ==> step is None,
        n_steps == 1 ==> step == Some(0usize),
        n_steps >= 2 ==> match step {
            Some(t) => {
                ||| (1 <= t < n_steps && entropy_high@[t as int] && forall|s: int|
                    1 <= s < t ==> !#[trigger] entropy_high@[s])
                ||| ((forall|s: int| 1 <= s < n_steps ==> !#[trigger] entropy_high@[s]) && n_steps / 10
                    < t < n_steps && gap_settled@[t as int] && forall|s: int|
                    n_steps / 10 < s < t ==> !#[trigger] gap_settled@[s])
                ||| ((forall|s: int| 1 <= s < n_steps ==> !#[trigger] entropy_high@[s]) && (forall|s: int|
                    n_steps / 10 < s < n_steps ==> !#[trigger] gap_settled@[s]) && t == n_steps - 1)
            },
            None => false,
        },
{
    proof {
        lemma_critical_step_characterized(n_steps as int, entropy_high@, gap_settled@);
    }
    if n_steps < 2 {
        return if n_steps > 0 { Some(0) } else { None };
    }
    let mut t: usize = 1;
    while t < n_steps
        invariant
            1 <= t <= n_steps,
            entropy_high.len() >= n_steps,
            gap_settled.len() >= n_steps,
            first_true(entropy_high@, 1, n_steps as int) == first_true(entropy_high@, t as int, n_steps as int),
        decreases n_steps - t,
    {
        if entropy_high[t] {
            proof {
                lemma_critical_step_characterized(n_steps as int, entropy_high@, gap_settled@);
            }
            return Some(t);
        }
        t = t + 1;
    }
    let lo = n_steps / 10 + 1;
    let mut t: usize = 1;
    while t < n_steps
        invariant
            1 <= t <= n_steps,
            gap_settled.len() >= n_steps,
            entropy_high.len() >= n_steps,
            lo == n_steps / 10 + 1,
            first_true(entropy_high@, 1, n_steps as int) is None,
            first_true(gap_settled@, lo as int, n_steps as int) == first_true(gap_settled@, if t < lo { lo as int } else { t as int }, n_steps as int),
        decreases n_steps - t,
    {
        if gap_settled[t] && t > n_steps / 10 {
            proof {
                lemma_critical_step_characterized(n_steps as int, entropy_high@, gap_settled@);
            }
            return Some(t);
        }
        t = t + 1;
    }
    Some(n_steps - 1)
}

} // verus!
