//! Block intake: every submitted block gets exactly one outcome.
//!
//! The gates stand in a fixed order: a block already in the tree is a duplicate
//! whatever else holds of it, then come the window of the active chain, the
//! locked configuration, and last the first tier, which stores. None of them
//! looks at the clock or at where the block came from.

use vstd::prelude::*;

use crate::api::{
    AdmitError, Blockchain, CallResult, LifecyclePhase, NodeView, ReceiveBlockOutcome, RejectReason,
};
use crate::block_data::{BlockPayload, ChainBlock, PAYLOAD_TYPE_CHAIN_CONFIG};
use crate::blocks as tree;
use crate::hash::bytes_eq;
use crate::steady_laws;

verus! {

/// Where a block stands relative to the window of the active chain.
#[derive(Debug, Clone, Copy, PartialEq, Eq, Structural)]
pub enum WindowVerdict {
    /// Inside: it can coexist with the active chain.
    InWindow,
    /// So far ahead that no reachable ancestry bridges the gap.
    TooFarAhead,
    /// Below the tail of the active chain.
    BelowTail,
}

/// The window reaches from the tail up to, but not including, `w` above the
/// head.
pub open spec fn window_position(s_new: u32, s_tail: u32, s_head: u32, w: u32) -> WindowVerdict {
    if s_new >= s_head + w {
        WindowVerdict::TooFarAhead
    } else if s_new < s_tail {
        WindowVerdict::BelowTail
    } else {
        WindowVerdict::InWindow
    }
}

/// Where a block at `s_new` stands relative to an active chain from `s_tail` to
/// `s_head` with windows of `w` blocks. The bound above the head does not wrap.
pub fn snake_chain_window_verdict(s_new: u32, s_tail: u32, s_head: u32, w: u32) -> (verdict:
    WindowVerdict)
    ensures
        verdict == window_position(s_new, s_tail, s_head, w),
{
    if s_new as u64 >= s_head as u64 + w as u64 {
        WindowVerdict::TooFarAhead
    } else if s_new < s_tail {
        WindowVerdict::BelowTail
    } else {
        WindowVerdict::InWindow
    }
}

/// Whether the block frames a chain configuration with exactly this content.
/// Only the content region counts, not the signature behind it; a payload that
/// frames none matches nothing.
pub fn chain_config_content_matches(block: &ChainBlock, locked_content: &[u8]) -> (matching: bool)
    ensures
        matching == (block.config_content() == Some(locked_content@)),
{
    match &block.payload {
        BlockPayload::ChainConfig(envelope) => bytes_eq(
            envelope.content.as_slice(),
            locked_content,
        ),
        _ => false,
    }
}

impl NodeView {
    /// The outcome of a block that is stopped before the first tier.
    pub open spec fn gate_outcome(
        self,
        block: ChainBlock,
        window: Option<(u32, u32)>,
        w: u32,
    ) -> Option<ReceiveBlockOutcome> {
        if tree::slot_of(self.blocks, block.sequence, block.hash, 0) is Some {
            Some(ReceiveBlockOutcome::DuplicateKnown)
        } else if window is Some && window_position(
            block.sequence,
            (window->0).0,
            (window->0).1,
            w,
        ) != WindowVerdict::InWindow {
            Some(ReceiveBlockOutcome::Rejected(RejectReason::OutOfWindow))
        } else if block.payload_type == PAYLOAD_TYPE_CHAIN_CONFIG && self.config.durable() is Some
            && block.config_content() != self.config.durable() {
            Some(ReceiveBlockOutcome::Rejected(RejectReason::InvalidEvidence))
        } else {
            None
        }
    }

    /// The outcome of a submitted block, given whether it was persisted.
    pub open spec fn classified(
        self,
        block: ChainBlock,
        window: Option<(u32, u32)>,
        w: u32,
        saved: bool,
    ) -> ReceiveBlockOutcome {
        match self.gate_outcome(block, window, w) {
            Some(outcome) => outcome,
            None => match self.admit_result(block, saved) {
                Ok(idx) => ReceiveBlockOutcome::AcceptedSilently,
                Err(AdmitError::Rejected(failure)) => ReceiveBlockOutcome::Rejected(
                    RejectReason::InvalidEvidence,
                ),
                Err(error) => ReceiveBlockOutcome::Rejected(RejectReason::Unstorable),
            },
        }
    }

    /// Whether a submission with this outcome may complete a candidate chain:
    /// it was taken in by a collecting node that holds a configuration.
    pub open spec fn acquisition_due(self, outcome: ReceiveBlockOutcome) -> bool {
        outcome == ReceiveBlockOutcome::AcceptedSilently && self.phase
            == LifecyclePhase::Collecting && self.config.active() is Some
    }
}

/// The outcome of a block that is stopped before the first tier.
fn gate<
    const MAX_NODES: usize,
    const SNAKE_CHAIN_LENGTH: u32,
    const VERIFICATION_HORIZON: usize,
    const MAX_BLOCKS: usize,
    const MAX_BRANCH_COUNT: usize,
    const MAX_BLOCK_UTXO_OUTPUT: usize,
>(
    bc: &Blockchain<
        MAX_NODES,
        SNAKE_CHAIN_LENGTH,
        VERIFICATION_HORIZON,
        MAX_BLOCKS,
        MAX_BRANCH_COUNT,
        MAX_BLOCK_UTXO_OUTPUT,
    >,
    block: &ChainBlock,
    window: Option<(u32, u32)>,
) -> (outcome: Option<ReceiveBlockOutcome>)
    requires
        bc.inv(),
    ensures
        outcome == bc@.gate_outcome(*block, window, SNAKE_CHAIN_LENGTH),
{
    if bc.block_tree_contains(block.sequence, &block.hash) {
        return Some(ReceiveBlockOutcome::DuplicateKnown);
    }
    match window {
        Some((s_tail, s_head)) => {
            match snake_chain_window_verdict(block.sequence, s_tail, s_head, SNAKE_CHAIN_LENGTH) {
                WindowVerdict::InWindow => {},
                _ => {
                    return Some(ReceiveBlockOutcome::Rejected(RejectReason::OutOfWindow));
                },
            }
        },
        None => {},
    }
    if block.payload_type == PAYLOAD_TYPE_CHAIN_CONFIG {
        match bc.durable_chain_config_content() {
            Some(locked) => {
                if !chain_config_content_matches(block, locked) {
                    return Some(ReceiveBlockOutcome::Rejected(RejectReason::InvalidEvidence));
                }
            },
            None => {},
        }
    }
    None
}

/// Classifies a submitted block, and admits it when nothing speaks against it.
/// `window` is the window of the active chain, if there is one; `saved` says
/// whether the block was persisted at the slot that
/// [`Blockchain::storage_slot`] names.
pub fn classify_block<
    const MAX_NODES: usize,
    const SNAKE_CHAIN_LENGTH: u32,
    const VERIFICATION_HORIZON: usize,
    const MAX_BLOCKS: usize,
    const MAX_BRANCH_COUNT: usize,
    const MAX_BLOCK_UTXO_OUTPUT: usize,
>(
    bc: &mut Blockchain<
        MAX_NODES,
        SNAKE_CHAIN_LENGTH,
        VERIFICATION_HORIZON,
        MAX_BLOCKS,
        MAX_BRANCH_COUNT,
        MAX_BLOCK_UTXO_OUTPUT,
    >,
    block: &ChainBlock,
    window: Option<(u32, u32)>,
    saved: bool,
    now: u64,
) -> (outcome: ReceiveBlockOutcome)
    requires
        old(bc).inv(),
        block.wf(),
    ensures
        final(bc).inv(),
        outcome == old(bc)@.classified(*block, window, SNAKE_CHAIN_LENGTH, saved),
        final(bc)@ == if outcome == ReceiveBlockOutcome::AcceptedSilently {
            old(bc)@.admitted(*block, now)
        } else {
            old(bc)@
        },
{
    match gate(bc, block, window) {
        Some(outcome) => {
            return outcome;
        },
        None => {},
    }
    match bc.tier1_admit(block, saved, now) {
        Ok(_) => ReceiveBlockOutcome::AcceptedSilently,
        Err(AdmitError::Rejected(_)) => ReceiveBlockOutcome::Rejected(
            RejectReason::InvalidEvidence,
        ),
        Err(_) => ReceiveBlockOutcome::Rejected(RejectReason::Unstorable),
    }
}

impl<
    const MAX_NODES: usize,
    const SNAKE_CHAIN_LENGTH: u32,
    const VERIFICATION_HORIZON: usize,
    const MAX_BLOCKS: usize,
    const MAX_BRANCH_COUNT: usize,
    const MAX_BLOCK_UTXO_OUTPUT: usize,
> Blockchain<
    MAX_NODES,
    SNAKE_CHAIN_LENGTH,
    VERIFICATION_HORIZON,
    MAX_BLOCKS,
    MAX_BRANCH_COUNT,
    MAX_BLOCK_UTXO_OUTPUT,
> {
    /// The slot of durable storage at which a submitted block has to be
    /// persisted before it is handed to [`Self::receive_block`]; nothing when
    /// its outcome needs no write.
    pub fn storage_slot(&self, block: &ChainBlock) -> (slot: Option<u32>)
        requires
            self.inv(),
        ensures
            slot == match self@.gate_outcome(*block, None, SNAKE_CHAIN_LENGTH) {
                Some(_) => None,
                None => match self@.admit_result(*block, true) {
                    Ok(idx) => Some(idx),
                    Err(_) => None,
                },
            },
            slot matches Some(idx) ==> idx < MAX_BLOCKS && !self@.blocks[idx as int].occupied(),
    {
        if gate(self, block, None).is_some() {
            return None;
        }
        match self.admission_slot(block) {
            Ok(idx) => Some(idx),
            Err(_) => None,
        }
    }

    /// Takes in a submitted block. `saved` says whether it was persisted at the
    /// slot that [`Self::storage_slot`] names. When [`Self::is_acquisition_due`]
    /// holds of the outcome, the block may have completed a candidate chain. The
    /// returned instant is the first at which a tick emits a request.
    pub fn receive_block(&mut self, block: &ChainBlock, saved: bool, now: u64) -> (result:
        CallResult<ReceiveBlockOutcome>)
        requires
            old(self).inv(),
            block.wf(),
        ensures
            final(self).inv(),
            result.0 == old(self)@.classified(*block, None, SNAKE_CHAIN_LENGTH, saved),
            final(self)@ == if result.0 == ReceiveBlockOutcome::AcceptedSilently {
                old(self)@.admitted(*block, now)
            } else {
                old(self)@
            },
            result.1 == final(self)@.next_call(),
            steady_laws::steady(old(self)@) ==> {
                &&& steady_laws::steady(final(self)@)
                &&& steady_laws::announces(final(self)@, result.1)
                &&& result.0 == ReceiveBlockOutcome::AcceptedSilently ==> tree::slot_of(
                    final(self)@.blocks,
                    block.sequence,
                    block.hash,
                    0,
                ) is Some
            },
    {
        proof {
            let outcome = self@.classified(*block, None, SNAKE_CHAIN_LENGTH, saved);
            if steady_laws::steady(self@) && outcome == ReceiveBlockOutcome::AcceptedSilently {
                steady_laws::accepted_block_is_in_the_tree(
                    self@,
                    *block,
                    None,
                    SNAKE_CHAIN_LENGTH,
                    saved,
                    now,
                );
            }
        }
        let window: Option<(u32, u32)> = match self.active_snake_chain_window() {
            Ok(window) => Some(window),
            Err(_) => None,
        };
        let outcome: ReceiveBlockOutcome = classify_block(self, block, window, saved, now);
        (outcome, self.next_parent_recovery_call())
    }

    /// Whether a submission with this outcome may have completed a candidate
    /// chain. A node without a configuration holds still: it could not derive
    /// anything from the candidate.
    pub fn is_acquisition_due(&self, outcome: &ReceiveBlockOutcome) -> (due: bool)
        ensures
            due == self@.acquisition_due(*outcome),
    {
        *outcome == ReceiveBlockOutcome::AcceptedSilently && self.lifecycle_phase
            == LifecyclePhase::Collecting && self.chain_config.active_configuration().is_some()
    }
}

/// A block in the tree is a duplicate, whatever the window and the locked
/// configuration say.
pub proof fn duplicates_come_first(
    node: NodeView,
    block: ChainBlock,
    window: Option<(u32, u32)>,
    w: u32,
    saved: bool,
)
    requires
        tree::slot_of(node.blocks, block.sequence, block.hash, 0) is Some,
    ensures
        node.classified(block, window, w, saved) == ReceiveBlockOutcome::DuplicateKnown,
{
}

} // verus!
