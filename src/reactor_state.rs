//! The lifecycle states of a node.
use vstd::prelude::*;

verus! {

/// The state a node's main loop is in.
#[derive(Clone, Copy, Debug, PartialEq, Eq)]
pub enum ReactorState {
    /// Setting up components and state on start.
    Initialize,
    /// Orienting to the network and catching up to the tip.
    CatchUp,
    /// Running an upgrade and creating the immediate switch block.
    Upgrading,
    /// Staying caught up with the tip.
    KeepUp,
    /// Caught up and an active validator.
    Validate,
    /// To be shut down for an upgrade.
    ShutdownForUpgrade,
}

} // verus!
