use vstd::prelude::*;
use crate::state::State;

verus! {

/// The metrics of approval distribution. None are recorded yet: `registered`
/// says whether they were registered with a registry.
#[derive(Clone, Copy, Debug, Default, PartialEq, Eq, Structural)]
pub struct Metrics {
    pub registered: bool,
}

impl Metrics {
    /// Metrics that are not registered anywhere.
    pub fn unregistered() -> (r: Metrics)
        ensures
            !r.registered,
    {
        Metrics { registered: false }
    }

    /// Metrics registered with a registry.
    pub fn registered() -> (r: Metrics)
        ensures
            r.registered,
    {
        Metrics { registered: true }
    }
}

/// The approval distribution subsystem.
#[derive(Debug)]
pub struct ApprovalDistribution {
    pub metrics: Metrics,
}

impl ApprovalDistribution {
    /// Creates the subsystem with its metrics.
    pub fn new(metrics: Metrics) -> (r: ApprovalDistribution)
        ensures
            r.metrics == metrics,
    {
        ApprovalDistribution { metrics }
    }

    /// The state the subsystem starts from: no blocks and no peers.
    pub fn initial_state(&self) -> (s: State)
        ensures
            s.wf(),
            s.blocks@.len() == 0,
            s.peer_views@.len() == 0,
    {
        State::new()
    }
}

} // verus!
