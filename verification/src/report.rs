use vstd::prelude::*;

use crate::sweep::SweepOutcome;

verus! {

/// The run's report: one outcome per rule, in rule order, and the
/// derived overall status.
pub struct Report {
    pub outcomes: Vec<SweepOutcome>,
    pub overall_ok: bool,
}

/// Whether every outcome completed without a store-level error.
pub open spec fn all_ok(outcomes: Seq<SweepOutcome>) -> bool {
    forall|i: int| 0 <= i < outcomes.len() ==> (#[trigger] outcomes[i]).error is None
}

/// Reduces the coordinator's outcomes to a report: the outcomes are kept
/// as they are, and `overall_ok` holds exactly when no outcome carries an
/// error.  An empty sequence of outcomes is vacuously healthy.
pub fn aggregate(outcomes: Vec<SweepOutcome>) -> (r: Report)
    ensures
        r.outcomes == outcomes,
        r.overall_ok == all_ok(outcomes@),
{
    let mut ok = true;
    let mut i: usize = 0;
    while i < outcomes.len()
        invariant
            i <= outcomes@.len(),
            ok == (forall|j: int| 0 <= j < i ==> (#[trigger] outcomes@[j]).error is None),
        decreases outcomes@.len() - i,
    {
        if outcomes[i].error.is_some() {
            ok = false;
        }
        i = i + 1;
    }
    Report { outcomes, overall_ok: ok }
}

} // verus!
