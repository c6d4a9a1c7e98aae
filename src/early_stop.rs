use vstd::prelude::*;
use crate::residual::Residual;

verus! {

/// Halts a search once a residual at or below `stop_residual` has been seen.
#[derive(Clone, Copy, Debug)]
pub struct StopRule {
    pub stop_residual: Residual,
}

impl StopRule {
    pub fn new(stop_residual: Residual) -> (rule: StopRule)
        ensures
            rule.stop_residual == stop_residual,
    {
        StopRule { stop_residual }
    }

    pub open spec fn stops_at(self, value: Residual) -> bool {
        value.le(self.stop_residual)
    }

    /// True iff `value <= stop_residual`; an unordered value never stops.
    pub fn should_stop(&self, value: Residual) -> (r: bool)
        ensures
            r == self.stops_at(value),
    {
        value.at_most(&self.stop_residual)
    }
}

} // verus!
