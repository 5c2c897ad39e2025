//! Discovery of the residual-rotation intervals whose coverage lies inside a
//! caller's band.
//!
//! The caller samples the rotation domain on a grid and measures coverage at
//! each sample (floating-point polygon work); this module decides, from the
//! in-band flags of the samples, which runs of samples form the closed
//! intervals to report. Each run's outer edges are the transitions the caller
//! then refines by bisection, or the domain ends.

use vstd::prelude::*;

verus! {

/// A maximal run of consecutive in-band samples, by sample position.
#[derive(Debug, Clone, Copy, PartialEq, Eq, Structural)]
pub struct SampleRun {
    /// Position of the run's first sample.
    pub first: usize,
    /// Position of the run's last sample.
    pub last: usize,
}

/// `run` is a maximal run of in-band samples: every sample in it is in band,
/// and the samples just outside it (where they exist) are not.
pub open spec fn is_maximal_run(inside: Seq<bool>, run: SampleRun) -> bool {
    &&& run.first <= run.last < inside.len()
    &&& forall|k: int| run.first <= k <= run.last ==> #[trigger] inside[k]
    &&& run.first == 0 || !inside[run.first - 1]
    &&& run.last + 1 == inside.len() || !inside[run.last + 1]
}

/// `runs` are all the maximal in-band runs, in increasing order.
pub open spec fn are_in_band_runs(inside: Seq<bool>, runs: Seq<SampleRun>) -> bool {
    &&& forall|k: int| 0 <= k < runs.len() ==> is_maximal_run(inside, #[trigger] runs[k])
    &&& forall|a: int, b: int|
        #![trigger runs[a], runs[b]]
        0 <= a < b < runs.len() ==> runs[a].last + 1 < runs[b].first
    &&& forall|i: int|
        0 <= i < inside.len() && #[trigger] inside[i] ==> exists|k: int|
            0 <= k < runs.len() && (#[trigger] runs[k]).first <= i <= runs[k].last
}

/// The maximal runs of in-band samples, in sample order.
///
/// A run that starts at the first sample starts at the domain's minimum, and
/// one that ends at the last sample ends at its maximum; every other edge is
/// an in/out transition between two neighbouring samples.
pub fn in_band_runs(inside: &Vec<bool>) -> (runs: Vec<SampleRun>)
    ensures
        are_in_band_runs(inside@, runs@),
{
    let n = inside.len();
    let mut runs: Vec<SampleRun> = Vec::new();
    let mut open = false;
    let mut start: usize = 0;
    let mut i: usize = 0;
    while i < n
        invariant
            n == inside.len(),
            i <= n,
            forall|k: int|
                0 <= k < runs.len() ==> is_maximal_run(inside@, #[trigger] runs@[k]) && runs@[k].last
                    + 1 < i,
            forall|a: int, b: int|
                #![trigger runs@[a], runs@[b]]
                0 <= a < b < runs.len() ==> runs@[a].last + 1 < runs@[b].first,
            open ==> start < i && (start == 0 || !inside@[start - 1]) && (forall|k: int|
                start <= k < i ==> #[trigger] inside@[k]) && (runs.len() > 0 ==> runs@.last().last
                + 1 < start),
            !open ==> i == 0 || !inside@[i - 1],
            forall|j: int|
                0 <= j < i && #[trigger] inside@[j] ==> (exists|k: int|
                    0 <= k < runs.len() && (#[trigger] runs@[k]).first <= j <= runs@[k].last) || (open
                    && start <= j),
        decreases n - i,
    {
        let ghost before = runs@;
        if inside[i] && !open {
            open = true;
            start = i;
        } else if !inside[i] && open {
            let run = SampleRun { first: start, last: i - 1 };
            runs.push(run);
            open = false;
            proof {
                assert(runs@[runs.len() - 1] == run);
                assert forall|j: int| 0 <= j < i + 1 && #[trigger] inside@[j] implies exists|k: int|
                    0 <= k < runs.len() && (#[trigger] runs@[k]).first <= j <= runs@[k].last by {
                    if start <= j {
                        assert(runs@[runs.len() - 1].first <= j <= runs@[runs.len() - 1].last);
                    } else {
                        let k = choose|k: int|
                            0 <= k < before.len() && (#[trigger] before[k]).first <= j <= before[k].last;
                        assert(runs@[k] == before[k]);
                    }
                }
            }
        }
        proof {
            assert forall|j: int|
                0 <= j < i + 1 && #[trigger] inside@[j] implies (exists|k: int|
                    0 <= k < runs.len() && (#[trigger] runs@[k]).first <= j <= runs@[k].last) || (open
                    && start <= j) by {
                if j < i && !(open && start <= j) {
                    if exists|k: int| 0 <= k < before.len() && (#[trigger] before[k]).first <= j <= before[k].last {
                        let k = choose|k: int|
                            0 <= k < before.len() && (#[trigger] before[k]).first <= j <= before[k].last;
                        assert(runs@[k] == before[k]);
                    }
                }
            }
        }
        i = i + 1;
    }
    if open {
        let ghost before = runs@;
        let run = SampleRun { first: start, last: n - 1 };
        runs.push(run);
        proof {
            assert(runs@[runs.len() - 1] == run);
            assert forall|j: int| 0 <= j < n && #[trigger] inside@[j] implies exists|k: int|
                0 <= k < runs.len() && (#[trigger] runs@[k]).first <= j <= runs@[k].last by {
                if start <= j {
                    assert(runs@[runs.len() - 1].first <= j <= runs@[runs.len() - 1].last);
                } else {
                    let k = choose|k: int|
                        0 <= k < before.len() && (#[trigger] before[k]).first <= j <= before[k].last;
                    assert(runs@[k] == before[k]);
                }
            }
        }
    }
    runs
}

} // verus!
