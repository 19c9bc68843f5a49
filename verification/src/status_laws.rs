//! Until a node is ready, every block of its tree is stored and no more.

use vstd::prelude::*;

use crate::acquisition::{AcquisitionEvent, RunView, StageView};
use crate::admission;
use crate::api::NodeView;
use crate::block_data::ChainBlock;
use crate::blocks as tree;
use crate::blocks::{BlockEntry, NONE_REF};
use crate::chain_heads as tips;
use crate::chain_heads::{ChainHeadEntry, Tips};
use crate::derivation;
use crate::derivation::{ProcessingError, ValidationReason};
use crate::lifecycle::LifecyclePhase;
use crate::processing;
use crate::recovery;
use crate::restart;
use crate::staged_validation::BlockStatus;

verus! {

/// Every block of the tree is stored.
pub open spec fn all_stored(s: Seq<BlockEntry>) -> bool {
    forall|i: int|
        0 <= i < s.len() && (#[trigger] s[i]).occupied() ==> s[i].stage() == BlockStatus::Stored
}

proof fn lemma_flags_kept(before: Seq<BlockEntry>, after: Seq<BlockEntry>)
    requires
        all_stored(before),
        after.len() == before.len(),
        forall|i: int|
            0 <= i < before.len() && (#[trigger] after[i]).occupied() ==> before[i].occupied()
                && after[i].flags == before[i].flags,
    ensures
        all_stored(after),
{
    assert forall|i: int| 0 <= i < after.len() && (
    #[trigger] after[i]).occupied() implies after[i].stage() == BlockStatus::Stored by {
        assert(before[i].occupied());
    }
}

proof fn lemma_entry_stored(block: ChainBlock, parent_ref: u32)
    ensures
        ({
            let stored = BlockEntry::fresh(
                block.hash,
                parent_ref,
                block.sequence,
            ).with_stage(BlockStatus::Stored).with_len(block.bytes@.len() as u16).with_kind(
                block.payload_type,
            );
            &&& stored.stage() == BlockStatus::Stored
            &&& stored.with_active(true).stage() == BlockStatus::Stored
        }),
{
    let fresh = BlockEntry::fresh(block.hash, parent_ref, block.sequence);
    tree::lemma_status_bits(fresh.flags, BlockStatus::Stored);
    let stored = fresh.with_stage(BlockStatus::Stored);
    tree::lemma_kind_bits(stored.flags, block.payload_type);
    tree::lemma_active_bit(
        stored.with_len(block.bytes@.len() as u16).with_kind(block.payload_type).flags,
    );
}

/// A block that is admitted is stored, whether or not its parent is known, and
/// the others stay so.
pub proof fn admission_stores(node: NodeView, block: ChainBlock, now: u64)
    requires
        node.blocks.len() <= NONE_REF,
        all_stored(node.blocks),
        node.admit_refusal(block) is None,
    ensures
        all_stored(node.admitted(block, now).blocks),
{
    let idx = tree::free_slot(node.blocks, 0)->0;
    let parent = tree::parent_slot(node.blocks, block.previous_hash, block.sequence);
    let entry = admission::admitted_entry(block, parent);
    lemma_entry_stored(
        block,
        match parent {
            Some(parent_idx) => parent_idx,
            None => NONE_REF,
        },
    );
    tree::free_slot_is_first(node.blocks, 0);
    let entered = Tips { heads: node.heads, blocks: node.blocks.update(idx as int, entry) };
    assert(all_stored(entered.blocks));
    let head = if block.sequence == 0 {
        idx
    } else {
        node.active_head
    };
    tips::admission_spares_the_active_chain(
        entered,
        idx,
        parent,
        block.previous_hash,
        now,
        head,
    );
    let after = tips::block_admitted(entered, idx, parent, block.previous_hash, now, head);
    lemma_flags_kept(entered.blocks, after.blocks);
    assert(node.admitted(block, now).blocks == after.blocks);
}

/// Deleting a block changes the status of none that is left.
pub proof fn deletion_keeps_blocks_stored(node: NodeView, target: u32)
    requires
        all_stored(node.blocks),
    ensures
        all_stored(node.subtree_deleted(target).blocks),
{
    let gone = tree::subtree(node.blocks, target);
    if gone.len() > 0 {
        let rest = tree::without_subtree(node.blocks, target);
        lemma_flags_kept(node.blocks, rest);
        tips::deletion_follow_up_only_counts(
            Tips { heads: node.heads, blocks: rest },
            gone,
            node.parent_of(target),
        );
        let after = node.subtree_deleted(target).blocks;
        assert forall|i: int| 0 <= i < rest.len() && (
        #[trigger] after[i]).occupied() implies rest[i].occupied() && after[i].flags
            == rest[i].flags by {
            assert(after[i].with_count(0) == rest[i].with_count(0));
            assert(after[i].with_count(0).flags == rest[i].with_count(0).flags);
        }
        lemma_flags_kept(rest, after);
    }
}

proof fn lemma_spending_stored(before: Seq<BlockEntry>, after: Seq<BlockEntry>)
    requires
        all_stored(before),
        processing::spending_only(before, after),
    ensures
        all_stored(after),
{
    assert forall|i: int| 0 <= i < before.len() && (
    #[trigger] after[i]).occupied() implies before[i].occupied() && after[i].flags
        == before[i].flags by {
        assert(after[i].unspent() == before[i].unspent());
        assert(after[i].unspent().flags == before[i].unspent().flags);
    }
    lemma_flags_kept(before, after);
}

proof fn lemma_recovery_stores(node: NodeView, error: ProcessingError, tip: u32)
    requires
        node.blocks.len() <= NONE_REF,
    ensures
        all_stored(node.recovered(error, tip).blocks),
{
    recovery::recovery_is_exact(node, error, tip);
    let after = node.recovered(error, tip).blocks;
    assert forall|i: int| 0 <= i < after.len() && (
    #[trigger] after[i]).occupied() implies after[i].stage() == BlockStatus::Stored by {
        assert(tree::present(after, i as u32));
    }
}

/// Every step of an acquisition that does not make the node ready leaves every
/// block stored.
pub proof fn acquisition_keeps_blocks_stored(
    node: NodeView,
    window: u32,
    run: RunView,
    event: AcquisitionEvent,
)
    requires
        node.blocks.len() <= NONE_REF,
        all_stored(node.blocks),
        node.advanced(window, run, event).node.phase != LifecyclePhase::Ready,
    ensures
        all_stored(node.advanced(window, run, event).node.blocks),
{
    match (run.stage, event) {
        (
            StageView::Examining { tip },
            AcquisitionEvent::Examined { reads, vote_failure },
        ) => {
            let stop = processing::vote_stop(vote_failure);
            processing::pass_only_spends(node, tip, reads@, stop, derivation::all_hold());
            lemma_spending_stored(
                node.blocks,
                node.passed(tip, reads@, stop, derivation::all_hold()).node.blocks,
            );
        },
        (
            StageView::Verifying { tip, reads, segment, checks, failure },
            AcquisitionEvent::Verified { verdicts },
        ) => {
            let (settled, outcome) = node.settled(segment, checks, failure, verdicts@);
            processing::clearing_only_spends(node.blocks, node.blocks, segment, 0);
            lemma_spending_stored(node.blocks, settled.blocks);
            lemma_abandonment_stored(settled);
            match outcome {
                None => {
                    let offender = recovery::oversized(
                        settled.blocks,
                        tip,
                        settled.declared_limit(),
                        settled.blocks.len(),
                        None,
                    )->0;
                    lemma_recovery_stores(
                        settled,
                        ProcessingError::Invalid {
                            block_idx: offender,
                            reason: ValidationReason::BlockTooLarge,
                        },
                        tip,
                    );
                },
                Some(error) => {
                    lemma_recovery_stores(settled, error, tip);
                    let first = settled.scanned(tip, NONE_REF).0;
                    let block = settled.config_read(segment, reads)->0;
                    let loaded = NodeView {
                        config: settled.config.loaded(
                            block.config_content()->0,
                            admission::accepted_parameters(block),
                        ),
                        config_source: first,
                        vote_reset: true,
                        ..settled
                    };
                    deletion_keeps_blocks_stored(loaded, settled.config_source);
                },
            }
        },
        (
            StageView::Committing { tip },
            AcquisitionEvent::Committed { block, written, contents },
        ) => {
            lemma_abandonment_stored(node);
        },
        _ => {},
    }
}

proof fn lemma_abandonment_stored(node: NodeView)
    requires
        all_stored(node.blocks),
    ensures
        all_stored(node.abandoned().blocks),
{
    assert forall|i: int| 0 <= i < node.blocks.len() implies (
    #[trigger] node.abandoned().blocks[i]).unspent() == node.blocks[i].unspent() by {}
    lemma_spending_stored(node.blocks, node.abandoned().blocks);
}

proof fn lemma_linked_flags(s: Seq<BlockEntry>, slots: Seq<Option<ChainBlock>>, from: int)
    requires
        slots.len() <= s.len(),
        all_stored(s),
        0 <= from,
    ensures
        restart::linked(s, slots, from).len() == s.len(),
        all_stored(restart::linked(s, slots, from)),
    decreases slots.len() - from,
{
    if from < slots.len() {
        if s[from].occupied() && slots[from] is Some {
            let block = slots[from]->0;
            if let Some(parent) = tree::parent_slot(s, block.previous_hash, block.sequence) {
                lemma_linked_flags(s.update(from, s[from].with_parent(parent)), slots, from + 1);
            } else {
                lemma_linked_flags(s, slots, from + 1);
            }
        } else {
            lemma_linked_flags(s, slots, from + 1);
        }
    }
}

/// After a restart every block is stored.
pub proof fn restart_stores(node: NodeView, slots: Seq<Option<ChainBlock>>, now: u64)
    requires
        node.treeless(),
        node.blocks.len() <= NONE_REF,
        slots.len() <= node.blocks.len(),
    ensures
        all_stored(node.rebuilt(slots, now).blocks),
{
    let m = restart::materialized(node.blocks, slots, 0);
    assert(tree::unique_blocks(node.blocks)) by {
        assert forall|i: int| 0 <= i < node.blocks.len() implies !(
        #[trigger] node.blocks[i]).occupied() by {}
    }
    restart::lemma_materialized(node.blocks, slots, 0);
    assert forall|i: int| 0 <= i < m.len() && (#[trigger] m[i]).occupied() implies m[i].stage()
        == BlockStatus::Stored by {
        lemma_entry_stored(slots[i]->0, NONE_REF);
    }
    lemma_linked_flags(m, slots, 0);
    let s = restart::linked(m, slots, 0);
    let before = node.retained_tree(slots);
    recovery::genesis_slot_is_first(s, 0);
    assert forall|i: int| 0 <= i < before.len() && (
    #[trigger] before[i]).occupied() implies before[i].stage() == BlockStatus::Stored by {
        assert(s[i].occupied());
        tree::lemma_active_bit(s[i].flags);
    }
    let heads = Seq::new(node.heads.len(), |i: int| ChainHeadEntry::vacant());
    let active_head = match recovery::genesis_slot(s, 0) {
        Some(idx) => idx,
        None => NONE_REF,
    };
    let prev = restart::previous_hashes(slots, node.blocks.len());
    tips::rebuild_spares_the_active_chain(heads, before, prev, now, active_head);
    let after = tips::rebuilt(heads, before, prev, now, active_head);
    lemma_flags_kept(before, after.blocks);
}

} // verus!
