//! When a chain is founded, and what a founding leaves behind.

use vstd::prelude::*;

use crate::api::{GenesisRejectReason, NodeView};
use crate::block_data::ChainBlock;
use crate::blocks as tree;
use crate::blocks::{BlockEntry, NONE_REF};
use crate::branching;
use crate::branching_laws as order;
use crate::chain_heads as tips;
use crate::chain_heads::Tips;
use crate::config_state::ConfigParameters;
use crate::genesis;
use crate::genesis::GenesisWrites;
use crate::hash;
use crate::hash::BlockHash;
use crate::lifecycle::LifecyclePhase;
use crate::record_laws as records;
use crate::staged_validation::BlockStatus;

verus! {

/// Whether the tree holds no block.
pub open spec fn empty_tree(s: Seq<BlockEntry>) -> bool {
    forall|i: int| 0 <= i < s.len() ==> (#[trigger] s[i]).sequence == NONE_REF
}

/// Whether the tree holds no block but those in its first `n` slots.
pub open spec fn nothing_beyond(s: Seq<BlockEntry>, n: int) -> bool {
    forall|i: int| n <= i < s.len() ==> (#[trigger] s[i]).sequence == NONE_REF
}

/// Whether the record is that of the block at `sequence` of the active chain, with
/// `parent` below it.
pub open spec fn records_active(
    entry: BlockEntry,
    block: ChainBlock,
    sequence: u32,
    parent: u32,
) -> bool {
    &&& entry.sequence == sequence
    &&& entry.hash == block.hash
    &&& entry.parent_ref == parent
    &&& entry.len == block.bytes@.len()
    &&& entry.flags & 1 == 1
    &&& block.payload_type <= 31 ==> entry.flags >> 3 == block.payload_type
    &&& forall|i: int| 0 <= i < 32 ==> #[trigger] entry.spent_bits@[i] == 0
}

pub(crate) proof fn lemma_some_block(s: Seq<BlockEntry>)
    ensures
        tree::occupied_count(s) != 0 ==> exists|i: int|
            0 <= i < s.len() && (#[trigger] s[i]).sequence != NONE_REF,
    decreases s.len(),
{
    if s.len() > 0 {
        lemma_some_block(s.drop_last());
        if s.last().occupied() {
            assert(s[s.len() - 1].sequence != NONE_REF);
        } else if tree::occupied_count(s) != 0 {
            let i = choose|i: int|
                0 <= i < s.drop_last().len() && (#[trigger] s.drop_last()[i]).sequence != NONE_REF;
            assert(s[i].sequence != NONE_REF);
        }
    }
}

/// A chain is founded exactly if the node is node #0, holds neither a block nor a
/// locked configuration, can write its control plane, and the configuration fits a
/// block with its signature, is accepted, and has both blocks within its limit;
/// and if all three writes succeed. Of several obstacles the first one in this
/// order is told.
pub proof fn foundings_fail_for_the_first_obstacle(
    node: NodeView,
    control_plane_ready: bool,
    content: Seq<u8>,
    accepted: Option<ConfigParameters>,
    block_zero: ChainBlock,
    block_one: ChainBlock,
    writes: GenesisWrites,
)
    ensures
        ({
            let reason = node.founded(
                control_plane_ready,
                content,
                accepted,
                block_zero,
                block_one,
                writes,
            ).1;
            let ours = node.local_node_id == 0;
            let unused = empty_tree(node.blocks) && !(node.config is Durable);
            let fits = content.len() <= 1830;
            let small = accepted is Some && block_zero.bytes@.len() <= (
            accepted->0).block_size_limit && block_one.bytes@.len() <= (
            accepted->0).block_size_limit;
            let written = writes.block_zero && writes.block_one && writes.chain_configuration;
            &&& reason is None <==> ours && unused && control_plane_ready && fits && small
                && written
            &&& reason == Some(GenesisRejectReason::LocalNodeIdNotZero) <==> !ours
            &&& reason == Some(GenesisRejectReason::StorageNotEmpty) <==> ours && !unused
            &&& reason == Some(GenesisRejectReason::StorageNotInitialized) <==> ours && unused
                && !control_plane_ready
            &&& reason == Some(GenesisRejectReason::InitialChainConfigTooLarge) <==> ours && unused
                && control_plane_ready && !fits
            &&& reason == Some(GenesisRejectReason::InitialChainConfigRejected) <==> ours && unused
                && control_plane_ready && fits && accepted is None
            &&& reason == Some(GenesisRejectReason::GenesisBlockExceedsBlockSizeLimit) <==> ours
                && unused && control_plane_ready && fits && accepted is Some && !small
            &&& node.genesis_obstacle(control_plane_ready, content) is None <==> ours && unused
                && control_plane_ready && fits
            &&& node.genesis_obstacle(control_plane_ready, content) is Some
                ==> node.genesis_obstacle(control_plane_ready, content) == reason
        }),
{
    genesis::lemma_no_block(node.blocks);
    lemma_some_block(node.blocks);
    if tree::occupied_count(node.blocks) == 0 {
        assert forall|i: int| 0 <= i < node.blocks.len() implies (
        #[trigger] node.blocks[i]).sequence == NONE_REF by {
            assert(!node.blocks[i].occupied());
        }
    }
}

proof fn lemma_entry(block: ChainBlock, parent: u32, idx: u32)
    requires
        block.bytes@.len() <= u16::MAX,
    ensures
        records_active(genesis::founding_entry(block, parent, idx), block, idx, parent),
{
    let fresh = BlockEntry::fresh(block.hash, parent, idx);
    let active = fresh.with_active(true).with_len(block.bytes@.len() as u16);
    let entry = active.with_kind(block.payload_type);
    let status = BlockStatus::Stored;
    records::marks_are_kept_apart(fresh, true, status, block.payload_type);
    records::marks_are_kept_apart(active, true, status, block.payload_type);
    let f = active.flags;
    let g = entry.flags;
    assert(f & 1 == 1 && g & 7 == f & 7 ==> g & 1 == 1) by (bit_vector);
}

proof fn lemma_entered(
    node: NodeView,
    idx: u32,
    block: ChainBlock,
    parent: Option<u32>,
    previous_hash: BlockHash,
    i: int,
)
    requires
        idx < node.blocks.len(),
        0 <= i < node.blocks.len(),
        idx != NONE_REF,
    ensures
        ({
            let after = node.founding_block_entered(idx, block, parent, previous_hash);
            let parent_ref = match parent {
                Some(slot) => slot,
                None => NONE_REF,
            };
            let entry = genesis::founding_entry(block, parent_ref, idx);
            let before = if i == idx {
                entry
            } else {
                node.blocks[i]
            };
            &&& after.blocks.len() == node.blocks.len()
            &&& after.blocks[i].sequence != NONE_REF ==> {
                &&& after.blocks[i].sequence == before.sequence
                &&& after.blocks[i].hash == before.hash
                &&& after.blocks[i].len == before.len
                &&& after.blocks[i].flags == before.flags
                &&& after.blocks[i].spent_bits == before.spent_bits
                &&& after.blocks[i].parent_ref == before.parent_ref || before.parent_ref
                    == NONE_REF
            }
            &&& before.sequence != NONE_REF && before.flags & 1 == 1
                ==> after.blocks[i].sequence != NONE_REF
            &&& before.sequence == NONE_REF ==> after.blocks[i].sequence == NONE_REF
        }),
{
    let parent_ref = match parent {
        Some(slot) => slot,
        None => NONE_REF,
    };
    let entry = genesis::founding_entry(block, parent_ref, idx);
    let placed = node.blocks.update(idx as int, entry);
    tips::admission_spares_the_active_chain(
        Tips { heads: node.heads, blocks: placed },
        idx,
        parent,
        previous_hash,
        0,
        idx,
    );
    let after = node.founding_block_entered(idx, block, parent, previous_hash);
    if after.blocks[i].occupied() {
        assert(placed[i].occupied());
        assert(tree::same_block(placed[i], after.blocks[i]));
    }
    if placed[i].occupied() && placed[i].flags & 1 == 1 {
        assert(placed[i].active());
        assert(after.blocks[i].occupied());
    }
}

/// A founding leaves node #0 ready, under the configuration it was founded with,
/// now locked; its tree holds the two blocks and nothing else, the second on the
/// first, both on the active chain, and the second is its head. Nothing of the
/// tree is touched by a founding that does not come to its first write; one that
/// stops after that write holds the first block alone, and nothing is locked.
pub proof fn foundings_leave_the_two_blocks(
    node: NodeView,
    control_plane_ready: bool,
    content: Seq<u8>,
    accepted: Option<ConfigParameters>,
    block_zero: ChainBlock,
    block_one: ChainBlock,
    writes: GenesisWrites,
)
    requires
        order::orderly(node),
        node.heads.len() >= 2,
        node.blocks.len() >= 2,
    ensures
        ({
            let (after, reason) = node.founded(
                control_plane_ready,
                content,
                accepted,
                block_zero,
                block_one,
                writes,
            );
            &&& after.blocks.len() == node.blocks.len()
            &&& reason is None ==> {
                &&& records_active(after.blocks[0], block_zero, 0, NONE_REF)
                &&& records_active(after.blocks[1], block_one, 1, 0)
                &&& nothing_beyond(after.blocks, 2)
                &&& after.active_head == 1
                &&& after.phase == LifecyclePhase::Ready
                &&& after.config is Durable
                &&& after.config->Durable_content == content
                &&& after.config->Durable_parameters == accepted->0
                &&& after.vote_reset
            }
            &&& reason == Some(GenesisRejectReason::StorageSaveFailed) ==> {
                &&& after.phase == node.phase
                &&& after.config is Tentative
                &&& after.config->Tentative_content == content
                &&& after.config->Tentative_parameters == accepted->0
                &&& writes.block_zero ==> {
                    &&& records_active(after.blocks[0], block_zero, 0, NONE_REF)
                    &&& nothing_beyond(after.blocks, 1)
                    &&& after.active_head == 0
                }
                &&& !writes.block_zero ==> empty_tree(after.blocks) && after.active_head
                    == node.active_head && after.heads == node.heads
            }
            &&& reason is Some && reason != Some(GenesisRejectReason::StorageSaveFailed) ==> after
                == node
            &&& after.local_node_id == node.local_node_id
            &&& after.anchor_key == node.anchor_key
            &&& after.info == node.info
        }),
{
    let (after, reason) = node.founded(
        control_plane_ready,
        content,
        accepted,
        block_zero,
        block_one,
        writes,
    );
    foundings_fail_for_the_first_obstacle(
        node,
        control_plane_ready,
        content,
        accepted,
        block_zero,
        block_one,
        writes,
    );
    order::founding_is_orderly(
        node,
        control_plane_ready,
        content,
        accepted,
        block_zero,
        block_one,
        writes,
    );
    if reason is None || reason == Some(GenesisRejectReason::StorageSaveFailed) {
        let tentative = NodeView { config: node.config.loaded(content, accepted), ..node };
        let anchored = tentative.founding_block_entered(0, block_zero, None, hash::zero_hash());
        let locked = NodeView { config: anchored.config.promoted(), vote_reset: true, ..anchored };
        lemma_entry(block_zero, NONE_REF, 0);
        lemma_entry(block_one, 0, 1);
        assert forall|i: int| 1 <= i < node.blocks.len() implies (
        #[trigger] anchored.blocks[i]).sequence == NONE_REF by {
            assert(node.blocks[i].sequence == NONE_REF);
            lemma_entered(tentative, 0, block_zero, None, hash::zero_hash(), i);
        }
        lemma_entered(tentative, 0, block_zero, None, hash::zero_hash(), 0);
        if reason is None {
            assert forall|i: int| 2 <= i < node.blocks.len() implies (
            #[trigger] after.blocks[i]).sequence == NONE_REF by {
                assert(anchored.blocks[i].sequence == NONE_REF);
                lemma_entered(locked, 1, block_one, Some(0), block_zero.hash, i);
            }
            lemma_entered(locked, 1, block_one, Some(0), block_zero.hash, 0);
            lemma_entered(locked, 1, block_one, Some(0), block_zero.hash, 1);
        }
        if reason is None || writes.block_zero {
            let t = after.tips();
            assert(branching::rooted(t.blocks));
            if after.blocks[0].parent_ref != NONE_REF {
                assert(t.blocks[0].occupied() && t.blocks[0].parent_ref != NONE_REF);
            }
        }
    }
}

/// The two founding blocks are of the first version, by node #0, which mines nothing
/// with them and has no votes to consume. The first follows nothing and carries
/// transactions; the second follows the first and carries the configuration.
pub proof fn founding_blocks_are_of_node_zero(block_zero: ChainBlock)
    ensures
        ({
            let first = genesis::founding_header_at(0, 1, hash::zero_hash());
            let second = genesis::founding_header_at(1, 3, block_zero.hash);
            &&& first.sequence == 0 && second.sequence == 1
            &&& first.payload_type == 1 && second.payload_type == 3
            &&& forall|i: int| 0 <= i < 32 ==> #[trigger] first.previous_hash@[i] == 0
            &&& second.previous_hash == block_zero.hash
            &&& first.version == 1 && second.version == 1
            &&& first.creator == 0 && second.creator == 0
            &&& first.mined_amount == 0 && second.mined_amount == 0
            &&& first.consumed_votes == 0 && second.consumed_votes == 0
            &&& first.first_voted_node == 0 && second.first_voted_node == 0
            &&& first.consumed_votes_from_first_voted_node == 0
            &&& second.consumed_votes_from_first_voted_node == 0
        }),
{
}

} // verus!
