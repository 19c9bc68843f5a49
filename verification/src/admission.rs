//! Admission of a block to the tree.
//!
//! A block is persisted before it enters the tree, so that a failed write leaves
//! the tree as it was. [`Blockchain::admission_slot`] says where to persist it;
//! [`Blockchain::tier1_admit`] then takes the outcome of the write.

use vstd::prelude::*;

use crate::api::{AdmitError, Blockchain, NodeView};
use crate::block_data::{BlockPayload, ChainBlock, PAYLOAD_TYPE_CHAIN_CONFIG};
use crate::blocks as tree;
use crate::blocks::{BlockEntry, NONE_REF};
use crate::chain_heads as tips;
use crate::chain_heads::Tips;
use crate::config_state::ConfigParameters;
use crate::staged_validation;
use crate::staged_validation::{tier1_gate, BlockStatus, Tier1Failure};
use crate::steady_laws;

verus! {

/// What the chain configuration of a block resolves to.
pub open spec fn accepted_parameters(block: ChainBlock) -> Option<ConfigParameters> {
    match block.payload {
        BlockPayload::ChainConfig(envelope) => envelope.accepted,
        _ => None,
    }
}

/// The metadata with which a block enters the tree. The first block of the
/// chain anchors the active chain.
pub open spec fn admitted_entry(block: ChainBlock, parent: Option<u32>) -> BlockEntry {
    let plain = BlockEntry::fresh(
        block.hash,
        match parent {
            Some(idx) => idx,
            None => NONE_REF,
        },
        block.sequence,
    ).with_stage(BlockStatus::Stored).with_len(block.bytes@.len() as u16).with_kind(
        block.payload_type,
    );
    if block.sequence == 0 {
        plain.with_active(true)
    } else {
        plain
    }
}

impl NodeView {
    /// Whether the block supplies the tentative configuration: it carries one,
    /// and the node holds none.
    pub open spec fn loads_tentative(self, block: ChainBlock) -> bool {
        block.payload_type == PAYLOAD_TYPE_CHAIN_CONFIG && self.config.active() is None
    }

    /// Why the block is not admitted, whatever becomes of the write.
    pub open spec fn admit_refusal(self, block: ChainBlock) -> Option<AdmitError> {
        match staged_validation::tier1_failure(block, self.enforceable_limit()) {
            Some(failure) => Some(AdmitError::Rejected(failure)),
            None => if block.sequence == 0 && self.active_head != NONE_REF {
                Some(AdmitError::Rejected(Tier1Failure::DuplicateGenesis))
            } else if tree::free_slot(self.blocks, 0) is None {
                Some(AdmitError::TableFull)
            } else if block.payload_type == PAYLOAD_TYPE_CHAIN_CONFIG && accepted_parameters(block)
                is None {
                Some(AdmitError::Rejected(Tier1Failure::ChainConfigContentRejected))
            } else {
                None
            },
        }
    }

    /// A tentative configuration is withdrawn once the block behind it is no
    /// longer in the tree.
    pub open spec fn source_settled(self) -> NodeView {
        if self.config_source != NONE_REF && !tree::present(self.blocks, self.config_source) {
            NodeView {
                config: self.config.withdrawn(),
                config_source: NONE_REF,
                vote_reset: true,
                ..self
            }
        } else {
            self
        }
    }

    /// The node after it took in a block that nothing speaks against.
    pub open spec fn admitted(self, block: ChainBlock, now: u64) -> NodeView {
        let idx = tree::free_slot(self.blocks, 0)->0;
        let parent = tree::parent_slot(self.blocks, block.previous_hash, block.sequence);
        let active_head = if block.sequence == 0 {
            idx
        } else {
            self.active_head
        };
        let t = tips::block_admitted(
            Tips {
                heads: self.heads,
                blocks: self.blocks.update(idx as int, admitted_entry(block, parent)),
            },
            idx,
            parent,
            block.previous_hash,
            now,
            active_head,
        );
        let loads = self.loads_tentative(block);
        (NodeView {
            blocks: t.blocks,
            heads: t.heads,
            active_head,
            config: if loads {
                self.config.loaded(block.config_content()->0, accepted_parameters(block))
            } else {
                self.config
            },
            config_source: if loads {
                idx
            } else {
                self.config_source
            },
            ..self
        }).source_settled()
    }

    /// What admitting the block returns, given whether it was persisted.
    pub open spec fn admit_result(self, block: ChainBlock, saved: bool) -> Result<u32, AdmitError> {
        match self.admit_refusal(block) {
            Some(error) => Err(error),
            None => if saved {
                Ok(tree::free_slot(self.blocks, 0)->0)
            } else {
                Err(AdmitError::StorageSaveFailed)
            },
        }
    }
}

impl<
    const MAX_NODES: usize,
    const SNAKE_CHAIN_LENGTH: u32,
    const VERIFICATION_HORIZON: usize,
    const MAX_BLOCKS: usize,
    const MAX_BRANCH_COUNT: usize,
    const MAX_BLOCK_UTXO_OUTPUT: usize,
> Blockchain<
    MAX_NODES,
    SNAKE_CHAIN_LENGTH,
    VERIFICATION_HORIZON,
    MAX_BLOCKS,
    MAX_BRANCH_COUNT,
    MAX_BLOCK_UTXO_OUTPUT,
> {
    /// The slot of durable storage at which the block has to be persisted before
    /// it is admitted, or why it is not admitted at all.
    pub fn admission_slot(&self, block: &ChainBlock) -> (slot: Result<u32, AdmitError>)
        requires
            self.inv(),
        ensures
            slot == self@.admit_result(*block, true),
            slot matches Ok(idx) ==> idx < MAX_BLOCKS && !self@.blocks[idx as int].occupied(),
    {
        match tier1_gate(block, self.enforceable_block_size_limit()) {
            Err(failure) => {
                return Err(AdmitError::Rejected(failure));
            },
            Ok(_) => {},
        }
        if block.sequence == 0 && self.active_chain_head_idx != NONE_REF {
            return Err(AdmitError::Rejected(Tier1Failure::DuplicateGenesis));
        }
        let idx: u32 = match self.blocks.next_free_index() {
            None => {
                return Err(AdmitError::TableFull);
            },
            Some(idx) => idx,
        };
        if block.payload_type == PAYLOAD_TYPE_CHAIN_CONFIG {
            let refused: bool = match &block.payload {
                BlockPayload::ChainConfig(envelope) => envelope.accepted.is_none(),
                _ => true,
            };
            if refused {
                return Err(AdmitError::Rejected(Tier1Failure::ChainConfigContentRejected));
            }
        }
        Ok(idx)
    }

    /// Admits a block that the tree does not hold yet. `saved` says whether it
    /// was persisted at the slot that [`Self::admission_slot`] names; a block
    /// that was not is refused and changes nothing.
    ///
    /// The block enters at the first free slot as `Stored`, linked to its parent
    /// if that is in the tree. A first block anchors the active chain. The first
    /// acceptable chain configuration becomes the tentative one.
    pub fn tier1_admit(&mut self, block: &ChainBlock, saved: bool, now: u64) -> (result: Result<
        u32,
        AdmitError,
    >)
        requires
            old(self).inv(),
            block.wf(),
            tree::slot_of(old(self)@.blocks, block.sequence, block.hash, 0) is None,
        ensures
            final(self).inv(),
            result == old(self)@.admit_result(*block, saved),
            final(self)@ == if result is Ok {
                old(self)@.admitted(*block, now)
            } else {
                old(self)@
            },
            steady_laws::steady(old(self)@) ==> {
                &&& steady_laws::steady(final(self)@)
                &&& result matches Ok(slot) ==> slot < final(self)@.blocks.len()
                    && final(self)@.blocks[slot as int].is_block(block.sequence, block.hash)
            },
    {
        proof {
            if steady_laws::steady(self@) && self@.admit_refusal(*block) is None {
                steady_laws::admission_keeps_steady(self@, *block, now);
            }
        }
        let idx: u32 = match self.admission_slot(block) {
            Err(error) => {
                return Err(error);
            },
            Ok(idx) => idx,
        };
        if !saved {
            return Err(AdmitError::StorageSaveFailed);
        }
        let ghost before = self@;
        let loads: bool = block.payload_type == PAYLOAD_TYPE_CHAIN_CONFIG
            && self.chain_config.active_configuration().is_none();
        if loads {
            match block.chain_config() {
                Some(envelope) => {
                    let loaded = self.chain_config.load_tentative(
                        envelope.content.as_slice(),
                        envelope.accepted,
                    );
                    assert(loaded is Ok);
                },
                None => {},
            }
        }
        let parent: Option<u32> = self.blocks.find_parent(&block.previous_hash, block.sequence);
        let parent_ref: u32 = match parent {
            Some(slot) => slot,
            None => NONE_REF,
        };
        let mut entry: BlockEntry = BlockEntry::new(block.hash, parent_ref, block.sequence);
        entry.set_status(BlockStatus::Stored);
        entry.set_len(block.bytes.len() as u16);
        entry.set_payload_type(block.payload_type);
        if block.sequence == 0 {
            entry.set_on_active_chain(true);
        }
        assert(entry == admitted_entry(*block, parent));
        proof {
            tree::inserted_block_is_found(self.blocks.blocks@, idx, entry);
        }
        self.blocks.insert_at(idx, entry);
        if block.sequence == 0 {
            self.active_chain_head_idx = idx;
        }
        if loads {
            self.tentative_config_block_idx = idx;
        }
        let ghost placed = self.blocks.blocks@;
        let active_head: u32 = self.active_chain_head_idx;
        proof {
            tips::admission_spares_the_active_chain(
                Tips { heads: self.chain_heads.heads@, blocks: placed },
                idx,
                parent,
                block.previous_hash,
                now,
                active_head,
            );
        }
        self.chain_heads.on_block_admitted(
            &mut self.blocks,
            idx,
            parent,
            block.previous_hash,
            now,
            active_head,
        );
        proof {
            tree::retaining_keeps_blocks_unique(placed, self.blocks.blocks@);
        }
        self.settle_config_source();
        assert(self@ =~= before.admitted(*block, now));
        Ok(idx)
    }

    /// Withdraws the tentative configuration when the block behind it is no
    /// longer in the tree.
    pub(crate) fn settle_config_source(&mut self)
        requires
            old(self).prng.wf(),
            old(self).blocks.wf(),
            old(self).chain_heads.wf(),
            old(self).node_info.wf(),
            tree::unique_blocks(old(self).blocks.blocks@),
        ensures
            final(self).inv(),
            final(self)@ == old(self)@.source_settled(),
    {
        if self.tentative_config_block_idx != NONE_REF && self.blocks.get(
            self.tentative_config_block_idx,
        ).is_none() {
            self.tentative_config_block_idx = NONE_REF;
            self.chain_config.discard_tentative();
            self.vote_reset_pending = true;
        }
    }
}

} // verus!
