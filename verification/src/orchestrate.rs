use vstd::prelude::*;

use crate::SunState;

verus! {

/// One run's decision: the target state and whether the targets must be
/// touched at all.
#[derive(Clone, Copy, Debug, PartialEq, Eq, Structural)]
pub struct RunPlan {
    pub target: SunState,
    pub apply: bool,
}

/// Decides a run: a forced override wins over the resolved state, and the
/// targets (live sessions, state file, config file) are touched only when the
/// target differs from the persisted current state; otherwise the run is an
/// idempotent no-op.
pub fn plan_run(forced: Option<SunState>, resolved: SunState, current: SunState) -> (p: RunPlan)
    ensures
        p.target == (match forced {
            Option::Some(f) => f,
            Option::None => resolved,
        }),
        p.apply == (p.target != current),
{
    let target = match forced {
        Option::Some(f) => f,
        Option::None => resolved,
    };
    RunPlan { target, apply: target != current }
}

} // verus!
