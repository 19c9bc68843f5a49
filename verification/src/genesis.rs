//! Founding a chain.
//!
//! Node #0 authors the first two blocks: one that registers it and creates the
//! currency, and one that carries the chain configuration. What goes into them
//! is decided here; the caller signs and builds them, writes them, and reports
//! how far the writes came.

use vstd::prelude::*;

use crate::api::{Blockchain, GenesisRejectReason, NodeView};
use crate::block_data::{
    ChainBlock, NodeTransfer, Registration, Transaction, TransactionBody, MAX_PAYLOAD_SIZE,
    PAYLOAD_TYPE_CHAIN_CONFIG, PAYLOAD_TYPE_TRANSACTION, SIGNATURE_SIZE,
};
use crate::blocks as tree;
use crate::blocks::{BlockEntry, NONE_REF};
use crate::chain_heads as tips;
use crate::chain_heads::Tips;
use crate::config_state::ConfigParameters;
use crate::derivation;
use crate::hash;
use crate::hash::{no_hash, BlockHash};
use crate::lifecycle::LifecyclePhase;
use crate::node_info::{InfoView, PublicKey};

verus! {

/// The two founding blocks.
#[derive(Debug, Clone)]
pub struct GenesisBlocks {
    /// Registers node #0 and creates the currency.
    pub block_zero: ChainBlock,
    /// Carries the chain configuration.
    pub block_one: ChainBlock,
}

/// The header of a block to be built.
#[derive(Debug, Clone, Copy, PartialEq, Eq)]
pub struct BlockHeader {
    pub version: u8,
    pub sequence: u32,
    pub creator: u32,
    pub mined_amount: u32,
    pub payload_type: u8,
    pub consumed_votes: u32,
    pub first_voted_node: u32,
    pub consumed_votes_from_first_voted_node: u32,
    pub previous_hash: BlockHash,
}

/// How far the durable writes of a founding came.
#[derive(Debug, Clone, Copy, PartialEq, Eq, Structural)]
pub struct GenesisWrites {
    pub block_zero: bool,
    pub block_one: bool,
    /// The configuration reached the control plane.
    pub chain_configuration: bool,
}

/// The header of a founding block.
pub open spec fn founding_header_at(
    sequence: u32,
    payload_type: u8,
    previous_hash: BlockHash,
) -> BlockHeader {
    BlockHeader {
        version: 1,
        sequence,
        creator: 0,
        mined_amount: 0,
        payload_type,
        consumed_votes: 0,
        first_voted_node: 0,
        consumed_votes_from_first_voted_node: 0,
        previous_hash,
    }
}

/// The header of the first block.
pub fn block_zero_header() -> (header: BlockHeader)
    ensures
        header == founding_header_at(0, PAYLOAD_TYPE_TRANSACTION, hash::zero_hash()),
{
    BlockHeader {
        version: 1,
        sequence: 0,
        creator: 0,
        mined_amount: 0,
        payload_type: PAYLOAD_TYPE_TRANSACTION,
        consumed_votes: 0,
        first_voted_node: 0,
        consumed_votes_from_first_voted_node: 0,
        previous_hash: no_hash(),
    }
}

/// The header of the second block, which follows the first.
pub fn block_one_header(block_zero_hash: BlockHash) -> (header: BlockHeader)
    ensures
        header == founding_header_at(1, PAYLOAD_TYPE_CHAIN_CONFIG, block_zero_hash),
{
    BlockHeader {
        version: 1,
        sequence: 1,
        creator: 0,
        mined_amount: 0,
        payload_type: PAYLOAD_TYPE_CHAIN_CONFIG,
        consumed_votes: 0,
        first_voted_node: 0,
        consumed_votes_from_first_voted_node: 0,
        previous_hash: block_zero_hash,
    }
}

/// The registration of node #0 by itself, at no cost.
pub fn founding_registration(node_zero_public_key: PublicKey) -> (registration: Registration)
    ensures
        registration == (Registration {
            initializer: 0,
            new_node_id: 0,
            registration_price: 0,
            fee: 0,
            new_public_key: node_zero_public_key,
        }),
{
    Registration {
        initializer: 0,
        new_node_id: 0,
        registration_price: 0,
        fee: 0,
        new_public_key: node_zero_public_key,
    }
}

/// The transfer of the whole currency from node #0 to itself.
pub fn founding_transfer(initial_total_network_currency: u64) -> (transfer: NodeTransfer)
    ensures
        transfer == (NodeTransfer {
            anchor_sequence: 0,
            initializer: 0,
            receiver: 0,
            amount: initial_total_network_currency,
            fee: 0,
        }),
{
    NodeTransfer {
        anchor_sequence: 0,
        initializer: 0,
        receiver: 0,
        amount: initial_total_network_currency,
        fee: 0,
    }
}

/// The payload of the second block: the configuration content, and node #0's
/// signature over it.
pub fn frame_chain_config_payload(content: &[u8], signature: &[u8]) -> (payload: Vec<u8>)
    ensures
        payload@ == content@ + signature@,
{
    let mut payload: Vec<u8> = Vec::new();
    let mut i: usize = 0;
    while i < content.len()
        invariant
            i <= content@.len(),
            payload@ =~= content@.subrange(0, i as int),
        decreases content@.len() - i,
    {
        payload.push(content[i]);
        i = i + 1;
    }
    let mut j: usize = 0;
    while j < signature.len()
        invariant
            j <= signature@.len(),
            payload@ =~= content@ + signature@.subrange(0, j as int),
        decreases signature@.len() - j,
    {
        payload.push(signature[j]);
        j = j + 1;
    }
    payload
}

/// The metadata of a founding block.
pub open spec fn founding_entry(block: ChainBlock, parent: u32, sequence: u32) -> BlockEntry {
    BlockEntry::fresh(block.hash, parent, sequence).with_active(true).with_len(
        block.bytes@.len() as u16,
    ).with_kind(block.payload_type)
}

impl NodeView {
    /// What stands against founding a chain before anything is built.
    pub open spec fn genesis_obstacle(self, control_plane_ready: bool, content: Seq<u8>) -> Option<
        GenesisRejectReason,
    > {
        if self.local_node_id != 0 {
            Some(GenesisRejectReason::LocalNodeIdNotZero)
        } else if tree::occupied_count(self.blocks) != 0 || self.config.durable() is Some {
            Some(GenesisRejectReason::StorageNotEmpty)
        } else if !control_plane_ready {
            Some(GenesisRejectReason::StorageNotInitialized)
        } else if content.len() + SIGNATURE_SIZE > MAX_PAYLOAD_SIZE {
            Some(GenesisRejectReason::InitialChainConfigTooLarge)
        } else {
            None
        }
    }

    /// The node with a founding block entered in slot `idx` as the head of its
    /// active chain.
    pub open spec fn founding_block_entered(
        self,
        idx: u32,
        block: ChainBlock,
        parent: Option<u32>,
        previous_hash: BlockHash,
    ) -> NodeView {
        let parent_ref = match parent {
            Some(slot) => slot,
            None => NONE_REF,
        };
        let t = tips::block_admitted(
            Tips {
                heads: self.heads,
                blocks: self.blocks.update(idx as int, founding_entry(block, parent_ref, idx)),
            },
            idx,
            parent,
            previous_hash,
            0,
            idx,
        );
        NodeView { heads: t.heads, blocks: t.blocks, active_head: idx, ..self }
    }

    /// A founding: the node, and why the chain was not founded, if it was not.
    pub open spec fn founded(
        self,
        control_plane_ready: bool,
        content: Seq<u8>,
        accepted: Option<ConfigParameters>,
        block_zero: ChainBlock,
        block_one: ChainBlock,
        writes: GenesisWrites,
    ) -> (NodeView, Option<GenesisRejectReason>) {
        let tentative = NodeView { config: self.config.loaded(content, accepted), ..self };
        let anchored = tentative.founding_block_entered(0, block_zero, None, hash::zero_hash());
        if self.genesis_obstacle(control_plane_ready, content) is Some {
            (self, self.genesis_obstacle(control_plane_ready, content))
        } else if accepted is None {
            (self, Some(GenesisRejectReason::InitialChainConfigRejected))
        } else if block_zero.bytes@.len() > (accepted->0).block_size_limit || block_one.bytes@.len()
            > (accepted->0).block_size_limit {
            (self, Some(GenesisRejectReason::GenesisBlockExceedsBlockSizeLimit))
        } else if !writes.block_zero {
            (tentative, Some(GenesisRejectReason::StorageSaveFailed))
        } else if !writes.block_one || !writes.chain_configuration {
            (anchored, Some(GenesisRejectReason::StorageSaveFailed))
        } else {
            let locked = NodeView {
                config: anchored.config.promoted(),
                vote_reset: true,
                ..anchored
            };
            (
                NodeView {
                    phase: LifecyclePhase::Ready,
                    ..locked.founding_block_entered(1, block_one, Some(0), block_zero.hash)
                },
                None,
            )
        }
    }
}

pub(crate) proof fn lemma_no_block(s: Seq<BlockEntry>)
    ensures
        tree::occupied_count(s) == 0 ==> forall|i: int|
            0 <= i < s.len() ==> !(#[trigger] s[i]).occupied(),
    decreases s.len(),
{
    if s.len() > 0 && tree::occupied_count(s) == 0 {
        lemma_no_block(s.drop_last());
        assert forall|i: int| 0 <= i < s.len() implies !(#[trigger] s[i]).occupied() by {
            if i < s.len() - 1 {
                assert(s.drop_last()[i] == s[i]);
            }
        }
    }
}

impl<
    const MAX_NODES: usize,
    const SNAKE_CHAIN_LENGTH: u32,
    const VERIFICATION_HORIZON: usize,
    const MAX_BLOCKS: usize,
    const MAX_BRANCH_COUNT: usize,
    const MAX_BLOCK_UTXO_OUTPUT: usize,
> Blockchain<
    MAX_NODES,
    SNAKE_CHAIN_LENGTH,
    VERIFICATION_HORIZON,
    MAX_BLOCKS,
    MAX_BRANCH_COUNT,
    MAX_BLOCK_UTXO_OUTPUT,
> {
    /// Whether a chain can be founded here with this configuration content, as
    /// far as that is known before anything is signed.
    pub fn check_genesis(&self, control_plane_ready: bool, content: &[u8]) -> (result: Result<
        (),
        GenesisRejectReason,
    >)
        requires
            self.inv(),
        ensures
            match self@.genesis_obstacle(control_plane_ready, content@) {
                Some(reason) => result == Err::<(), GenesisRejectReason>(reason),
                None => result is Ok,
            },
    {
        if self.local_node_id != 0 {
            return Err(GenesisRejectReason::LocalNodeIdNotZero);
        }
        if self.blocks.len() != 0 || self.chain_config.is_durable_locked() {
            return Err(GenesisRejectReason::StorageNotEmpty);
        }
        if !control_plane_ready {
            return Err(GenesisRejectReason::StorageNotInitialized);
        }
        if content.len() > MAX_PAYLOAD_SIZE - SIGNATURE_SIZE {
            return Err(GenesisRejectReason::InitialChainConfigTooLarge);
        }
        Ok(())
    }

    /// Whether both founding blocks are within the limit that their own
    /// configuration sets.
    pub fn genesis_blocks_fit(
        accepted: &ConfigParameters,
        block_zero: &ChainBlock,
        block_one: &ChainBlock,
    ) -> (fit: bool)
        ensures
            fit == (block_zero.bytes@.len() <= accepted.block_size_limit && block_one.bytes@.len()
                <= accepted.block_size_limit),
    {
        let limit: usize = accepted.block_size_limit as usize;
        block_zero.len() <= limit && block_one.len() <= limit
    }

    /// Enters a founding block in its slot, as the head of the active chain.
    fn enter_founding_block(
        &mut self,
        idx: u32,
        block: &ChainBlock,
        parent: Option<u32>,
        previous_hash: BlockHash,
    )
        requires
            old(self).inv(),
            block.wf(),
            idx < MAX_BLOCKS,
            !old(self)@.blocks[idx as int].occupied(),
            old(self)@.config_source == NONE_REF,
            forall|i: int|
                0 <= i < MAX_BLOCKS && (#[trigger] old(self)@.blocks[i]).occupied() ==> old(
                    self,
                )@.blocks[i].sequence < idx,
        ensures
            final(self).inv(),
            final(self)@ == old(self)@.founding_block_entered(idx, *block, parent, previous_hash),
            tree::retains(
                old(self)@.blocks.update(
                    idx as int,
                    founding_entry(
                        *block,
                        match parent {
                            Some(slot) => slot,
                            None => NONE_REF,
                        },
                        idx,
                    ),
                ),
                final(self)@.blocks,
            ),
    {
        let ghost before = self@;
        let parent_ref: u32 = match parent {
            Some(slot) => slot,
            None => NONE_REF,
        };
        let mut entry: BlockEntry = BlockEntry::new(block.hash, parent_ref, idx);
        entry.set_on_active_chain(true);
        entry.set_len(block.bytes.len() as u16);
        entry.set_payload_type(block.payload_type);
        assert(entry == founding_entry(*block, parent_ref, idx));
        proof {
            tree::slot_of_is_first(before.blocks, idx, entry.hash, 0);
            tree::inserted_block_is_found(before.blocks, idx, entry);
        }
        self.blocks.insert_at(idx, entry);
        self.active_chain_head_idx = idx;
        let ghost placed = self.blocks.blocks@;
        proof {
            tips::admission_spares_the_active_chain(
                Tips { heads: before.heads, blocks: placed },
                idx,
                parent,
                previous_hash,
                0,
                idx,
            );
        }
        self.chain_heads.on_block_admitted(&mut self.blocks, idx, parent, previous_hash, 0, idx);
        proof {
            tree::retaining_keeps_blocks_unique(placed, self.blocks.blocks@);
            assert(self@ =~= before.founding_block_entered(
                idx,
                *block,
                parent,
                previous_hash,
            ));
        }
    }

    /// Founds the chain: node #0 is ready on the two blocks it authored, with
    /// their configuration locked.
    ///
    /// `accepted` is what the configuration registry makes of the content, and
    /// `writes` how far the durable writes came, which are made in the order
    /// first block, second block, configuration, and only where nothing stands
    /// against the founding. The lock is engaged last, so that a founding whose
    /// writes fail can be tried again.
    pub fn process_genesis(
        &mut self,
        control_plane_ready: bool,
        initial_chain_config_bytes: &[u8],
        accepted: Option<ConfigParameters>,
        block_zero: ChainBlock,
        block_one: ChainBlock,
        writes: GenesisWrites,
    ) -> (result: Result<GenesisBlocks, GenesisRejectReason>)
        requires
            old(self).inv(),
            MAX_BLOCKS >= 2,
            block_zero.wf(),
            block_one.wf(),
        ensures
            final(self).inv(),
            ({
                let (node, reason) = old(self)@.founded(
                    control_plane_ready,
                    initial_chain_config_bytes@,
                    accepted,
                    block_zero,
                    block_one,
                    writes,
                );
                &&& final(self)@ == node
                &&& match result {
                    Ok(blocks) => reason is None && blocks == (GenesisBlocks {
                        block_zero,
                        block_one,
                    }),
                    Err(why) => reason == Some(why),
                }
            }),
    {
        let ghost before = self@;
        if let Err(reason) = self.check_genesis(control_plane_ready, initial_chain_config_bytes) {
            return Err(reason);
        }
        proof {
            lemma_no_block(before.blocks);
        }
        assert(before.config_source == NONE_REF);
        match &accepted {
            Some(parameters) => {
                if !Self::genesis_blocks_fit(parameters, &block_zero, &block_one) {
                    return Err(GenesisRejectReason::GenesisBlockExceedsBlockSizeLimit);
                }
            },
            None => {},
        }
        if self.chain_config.load_tentative(initial_chain_config_bytes, accepted).is_err() {
            assert(self@ =~= before);
            return Err(GenesisRejectReason::InitialChainConfigRejected);
        }
        let ghost tentative = self@;
        assert(tentative =~= (NodeView {
            config: before.config.loaded(initial_chain_config_bytes@, accepted),
            ..before
        }));
        if !writes.block_zero {
            return Err(GenesisRejectReason::StorageSaveFailed);
        }
        self.enter_founding_block(0, &block_zero, None, no_hash());
        let ghost anchored = self@;
        if !writes.block_one || !writes.chain_configuration {
            return Err(GenesisRejectReason::StorageSaveFailed);
        }
        let _ = self.chain_config.promote_durable();
        self.vote_reset_pending = true;
        let ghost locked = self@;
        assert(locked =~= (NodeView {
            config: anchored.config.promoted(),
            vote_reset: true,
            ..anchored
        }));
        self.enter_founding_block(1, &block_one, Some(0), block_zero.hash);
        self.lifecycle_phase = LifecyclePhase::Ready;
        assert(self@ =~= before.founded(
            control_plane_ready,
            initial_chain_config_bytes@,
            accepted,
            block_zero,
            block_one,
            writes,
        ).0);
        Ok(GenesisBlocks { block_zero, block_one })
    }
}

/// A chain is founded only where none is, and then node #0 is ready under the
/// locked configuration it was founded with. A founding that is refused leaves
/// the node as it was; one whose writes fail locks nothing.
pub proof fn founding_locks_last(
    node: NodeView,
    control_plane_ready: bool,
    content: Seq<u8>,
    accepted: Option<ConfigParameters>,
    block_zero: ChainBlock,
    block_one: ChainBlock,
    writes: GenesisWrites,
)
    ensures
        ({
            let (after, reason) = node.founded(
                control_plane_ready,
                content,
                accepted,
                block_zero,
                block_one,
                writes,
            );
            &&& reason is None ==> {
                &&& node.local_node_id == 0
                &&& node.config.durable() is None
                &&& after.phase == LifecyclePhase::Ready
                &&& after.config.durable() == Some(content)
                &&& after.active_head == 1
            }
            &&& reason is Some && reason != Some(GenesisRejectReason::StorageSaveFailed) ==> after
                == node
            &&& reason is Some ==> {
                &&& after.phase == node.phase
                &&& after.config.durable() == node.config.durable()
            }
        }),
{
}

/// Derived from its first block, a chain knows node #0 alone, with the key and
/// the whole currency that the founding gave it.
pub proof fn founding_block_creates_the_currency(
    ctx: derivation::PassView,
    idx: u32,
    nodes: nat,
    key: PublicKey,
    currency: u64,
    registration: Transaction,
    transfer: Transaction,
)
    requires
        nodes >= 1,
        idx != NONE_REF,
        registration.body == TransactionBody::Registration(
            (Registration {
                initializer: 0,
                new_node_id: 0,
                registration_price: 0,
                fee: 0,
                new_public_key: key,
            }),
        ),
        transfer.body == TransactionBody::NodeTransfer(
            (NodeTransfer {
                anchor_sequence: 0,
                initializer: 0,
                receiver: 0,
                amount: currency,
                fee: 0,
            }),
        ),
    ensures
        ({
            let start = derivation::Derivation {
                info: InfoView::blank(nodes),
                blocks: Seq::empty(),
                saw_balance: false,
                checks: Seq::empty(),
            };
            let s = derivation::transactions_applied(
                (derivation::Step { d: start, fees: 0, broken: None }),
                ctx,
                (derivation::BlockContext { sequence: 0, idx }),
                seq![registration, transfer],
                0,
            );
            &&& s.broken is None
            &&& s.fees == 0
            &&& s.d.info.seeded(0)
            &&& s.d.info.balance(0) == currency
            &&& s.d.info.keys[0] == key@
            &&& s.d.info.max_known_node_id == 0
            &&& forall|other: u32| other != 0 ==> !#[trigger] s.d.info.seeded(other)
            &&& s.d.checks.len() == 0
        }),
{
    reveal_with_fuel(derivation::transactions_applied, 3);
    let blank = InfoView::blank(nodes);
    assert(!blank.key_taken(key@));
    let registered = blank.with_node(0, key@, 0, idx);
    assert(registered.keys[0] =~= key@);
    assert(registered.seeded(0));
}

} // verus!
