use vstd::prelude::*;
use crate::early_stop::StopRule;
use crate::residual::Residual;

verus! {

/// Sum of the evaluation counts of `runs`.
pub open spec fn nfev_sum(runs: Seq<(Residual, u64)>) -> int
    decreases runs.len(),
{
    if runs.len() == 0 {
        0
    } else {
        nfev_sum(runs.drop_last()) + runs.last().1
    }
}

/// Every run ended with a residual that satisfies `rule`.
pub open spec fn all_reached(runs: Seq<(Residual, u64)>, rule: StopRule) -> bool {
    forall|k: int| 0 <= k < runs.len() ==> rule.stops_at((#[trigger] runs[k]).0)
}

/// The evaluations that a set of runs, each given by its final residual and
/// its `nfev`, spent to reach `rule`: `None` when some run missed the
/// threshold, or when the total does not fit below `u64::MAX`.
pub fn evaluations_to_threshold(runs: &Vec<(Residual, u64)>, rule: &StopRule) -> (r: Option<u64>)
    ensures
        r.is_some() == (all_reached(runs@, *rule) && nfev_sum(runs@) < u64::MAX),
        r matches Some(total) ==> total == nfev_sum(runs@),
{
    let mut total: u64 = 0;
    let mut k: usize = 0;
    while k < runs.len()
        invariant
            k <= runs.len(),
            total == nfev_sum(runs@.subrange(0, k as int)),
            total < u64::MAX,
            all_reached(runs@.subrange(0, k as int), *rule),
        decreases runs.len() - k,
    {
        let ghost prefix = runs@.subrange(0, k as int);
        let ghost next = runs@.subrange(0, k + 1);
        assert(next.drop_last() =~= prefix);
        if !rule.should_stop(runs[k].0) {
            proof {
                lemma_missed_run(runs@, *rule, k as int);
            }
            return None;
        }
        if runs[k].1 >= u64::MAX - total {
            proof {
                lemma_sum_grows(runs@, k + 1);
            }
            return None;
        }
        total = total + runs[k].1;
        k = k + 1;
        assert forall|j: int| 0 <= j < next.len() implies rule.stops_at((#[trigger] next[j]).0) by {
            if j < prefix.len() {
                assert(next[j] == prefix[j]);
            }
        }
    }
    assert(runs@.subrange(0, runs.len() as int) =~= runs@);
    Some(total)
}

proof fn lemma_missed_run(runs: Seq<(Residual, u64)>, rule: StopRule, k: int)
    requires
        0 <= k < runs.len(),
        !rule.stops_at(runs[k].0),
    ensures
        !all_reached(runs, rule),
{
}

/// Totals never shrink as runs are added.
proof fn lemma_sum_grows(runs: Seq<(Residual, u64)>, k: int)
    requires
        0 <= k <= runs.len(),
    ensures
        nfev_sum(runs.subrange(0, k)) <= nfev_sum(runs),
    decreases runs.len() - k,
{
    if k < runs.len() {
        lemma_sum_grows(runs, k + 1);
        assert(runs.subrange(0, k + 1).drop_last() =~= runs.subrange(0, k));
    } else {
        assert(runs.subrange(0, k) =~= runs);
    }
}

} // verus!
