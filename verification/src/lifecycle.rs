//! The lifecycle of the node's interpretation of the chain.

use vstd::prelude::*;

verus! {

/// The phase of the node.
#[derive(Debug, Clone, Copy, PartialEq, Eq, Structural)]
pub enum LifecyclePhase {
    /// Accumulating blocks; only block intake and parent recovery are served.
    Collecting,
    /// Reconstructing and validating a candidate chain.
    Processing,
    /// On a validated active chain.
    Ready,
}

/// The runtime transitions: a candidate is found, it is validated, or its
/// validation fails. In particular nothing leads from `Collecting` straight to
/// `Ready`, nothing leaves `Ready`, and no phase leads to itself.
pub open spec fn legal_transition(from: LifecyclePhase, to: LifecyclePhase) -> bool {
    ||| from == LifecyclePhase::Collecting && to == LifecyclePhase::Processing
    ||| from == LifecyclePhase::Processing && to == LifecyclePhase::Ready
    ||| from == LifecyclePhase::Processing && to == LifecyclePhase::Collecting
}

/// Whether the phase may change from `from` to `to` at runtime.
pub fn is_legal_transition(from: &LifecyclePhase, to: &LifecyclePhase) -> (legal: bool)
    ensures
        legal == legal_transition(*from, *to),
{
    match (*from, *to) {
        (LifecyclePhase::Collecting, LifecyclePhase::Processing) => true,
        (LifecyclePhase::Processing, LifecyclePhase::Ready) => true,
        (LifecyclePhase::Processing, LifecyclePhase::Collecting) => true,
        _ => false,
    }
}

/// A node that is not ready takes at least two transitions to become so, the
/// first of which leads to `Processing`.
pub proof fn ready_is_reached_through_processing(from: LifecyclePhase)
    ensures
        legal_transition(from, LifecyclePhase::Ready) ==> from == LifecyclePhase::Processing,
        !legal_transition(LifecyclePhase::Ready, from),
        !legal_transition(from, from),
{
}

/// A phase may change into any other, but that nothing leaves `Ready` and nothing
/// becomes ready without being processed.
pub proof fn phases_change_through_processing(from: LifecyclePhase, to: LifecyclePhase)
    ensures
        legal_transition(from, to) <==> from != to && from != LifecyclePhase::Ready && (from
            == LifecyclePhase::Processing || to == LifecyclePhase::Processing),
{
}

} // verus!
