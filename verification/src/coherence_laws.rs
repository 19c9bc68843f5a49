//! What every step of a collecting node keeps, and what follows from it.

use vstd::prelude::*;

use crate::acquisition::{AcquisitionEvent, RunView, StageView};
use crate::admission;
use crate::api::NodeView;
use crate::block_data::ChainBlock;
use crate::blocks as tree;
use crate::blocks::{BlockEntry, NONE_REF};
use crate::chain_heads as tips;
use crate::chain_heads::{ChainHeadEntry, Tips};
use crate::coherence as fit;
use crate::coherent_admission as admission_fit;
use crate::coherent_counts as counts;
use crate::coherent_deletion as deletion_fit;
use crate::coherent_rebuild as rebuild_fit;
use crate::derivation;
use crate::derivation::{CheckView, ProcessingError, ValidationReason, VoteEngineError};
use crate::hash::BlockHash;
use crate::lifecycle::LifecyclePhase;
use crate::processing;
use crate::recovery;
use crate::restart;
use crate::staged_validation::BlockStatus;
use crate::tip_laws;

verus! {

/// The node's tree and tips fit together; `prev` is the previous hash of the
/// block in each slot.
pub open spec fn coherent_node(node: NodeView, prev: Seq<BlockHash>) -> bool {
    &&& fit::coherent(node.tips(), prev, node.active_head)
    &&& fit::table_fits(node.heads)
}

/// The trees agree in all that coherence speaks of.
pub open spec fn alike(s: Seq<BlockEntry>, other: Seq<BlockEntry>) -> bool {
    &&& other.len() == s.len()
    &&& forall|i: int|
        0 <= i < s.len() ==> {
            &&& (#[trigger] other[i]).occupied() == s[i].occupied()
            &&& other[i].parent_ref == s[i].parent_ref
            &&& other[i].active() == s[i].active()
            &&& other[i].sequence == s[i].sequence
            &&& other[i].hash == s[i].hash
            &&& other[i].head_ref_count == s[i].head_ref_count
        }
}

proof fn lemma_alike_tree(
    s: Seq<BlockEntry>,
    other: Seq<BlockEntry>,
    prev: Seq<BlockHash>,
    active_head: u32,
)
    requires
        fit::linked(s, prev),
        fit::complete(s, prev, NONE_REF),
        fit::marked(s, active_head),
        alike(s, other),
    ensures
        fit::part_of(other, s),
        fit::linked(other, prev),
        fit::complete(other, prev, NONE_REF),
        fit::marked(other, active_head),
        forall|idx: u32| #[trigger] fit::kids(other, idx) == fit::kids(s, idx),
        forall|idx: u32| #[trigger] tree::childless(other, idx) == tree::childless(s, idx),
        forall|idx: u32| #[trigger] tree::present(other, idx) == tree::present(s, idx),
{
    assert(fit::part_of(other, s));
    fit::lemma_part_complete(other, s, prev, NONE_REF);
    assert forall|idx: u32| #[trigger] fit::kids(other, idx) == fit::kids(s, idx) by {
        assert forall|j: int| 0 <= j < other.len() implies fit::child_of(#[trigger] other[j], idx)
            == fit::child_of(s[j], idx) by {}
        fit::lemma_kids_same(other, s, idx);
    }
    assert forall|idx: u32| #[trigger] tree::childless(other, idx) == tree::childless(s, idx) by {
        fit::lemma_kids_childless(other, idx);
        fit::lemma_kids_childless(s, idx);
        assert(fit::kids(other, idx) == fit::kids(s, idx));
    }
    assert forall|idx: u32| #[trigger] tree::present(other, idx) == tree::present(s, idx) by {
        if idx < s.len() {
            assert(other[idx as int].occupied() == s[idx as int].occupied());
        }
    }
    assert(fit::linked(other, prev)) by {
        assert forall|i: int|
            0 <= i < other.len() && other[i].occupied() && #[trigger] other[i].parent_ref
                != NONE_REF implies {
            &&& tree::present(other, other[i].parent_ref)
            &&& other[other[i].parent_ref as int].sequence + 1 == other[i].sequence
            &&& other[other[i].parent_ref as int].hash == prev[i]
        } by {
            assert(s[i].parent_ref != NONE_REF);
            let p = s[i].parent_ref as int;
            assert(other[p].occupied() == s[p].occupied());
        }
    }
    assert(fit::marked(other, active_head)) by {
        assert forall|i: int| 0 <= i < other.len() && (#[trigger] other[i]).occupied() implies {
            &&& other[i].active() == (other[i].sequence == 0)
            &&& other[i].sequence == 0 ==> active_head == i
        } by {
            assert(s[i].occupied());
        }
        if active_head != NONE_REF {
            assert(other[active_head as int].occupied() == s[active_head as int].occupied());
        }
    }
}

/// Coherence does not depend on what else a block is marked with.
proof fn lemma_alike(t: Tips, other: Tips, prev: Seq<BlockHash>, active_head: u32)
    requires
        fit::coherent(t, prev, active_head),
        other.heads == t.heads,
        alike(t.blocks, other.blocks),
    ensures
        fit::coherent(other, prev, active_head),
{
    let none = Set::<u32>::empty();
    let s = t.blocks;
    let b = other.blocks;
    lemma_alike_tree(s, b, prev, active_head);
    assert(fit::tips_are_leaves(other, none)) by {
        assert forall|i: int|
            0 <= i < b.len() && (#[trigger] b[i]).occupied() && !b[i].active() && tree::childless(
                b,
                i as u32,
            ) implies fit::is_tip(other.heads, i as u32) || none.contains(i as u32) by {
            assert(s[i].occupied());
            assert(tree::childless(s, i as u32));
        }
    }
    assert(fit::counted(other, none)) by {
        assert forall|i: int|
            0 <= i < b.len() && (#[trigger] b[i]).occupied()
                && !b[i].active() implies b[i].head_ref_count == fit::branches(
            other,
            none,
            i as u32,
        ) by {
            assert(s[i].occupied());
            assert(s[i].head_ref_count == fit::branches(t, none, i as u32));
            assert(fit::kids(b, i as u32) == fit::kids(s, i as u32));
        }
    }
    assert(fit::ends_known(other)) by {
        assert forall|i: int|
            0 <= i < other.heads.len() && (
            #[trigger] other.heads[i]).in_use() implies fit::knows_its_end(other.heads[i], b) by {
            assert(fit::knows_its_end(t.heads[i], s));
            fit::lemma_anchor_part(b, s, prev, t.heads[i].head_idx);
        }
    }
}

/// A node that has seen nothing is coherent.
pub proof fn fresh_node_is_coherent(node: NodeView, prev: Seq<BlockHash>)
    requires
        node.treeless(),
        forall|i: int| 0 <= i < node.heads.len() ==> !(#[trigger] node.heads[i]).in_use(),
        node.active_head == NONE_REF,
        fit::table_fits(node.heads),
        prev.len() == node.blocks.len(),
        node.blocks.len() <= NONE_REF,
    ensures
        coherent_node(node, prev),
{
    let t = node.tips();
    assert forall|i: int| 0 <= i < t.blocks.len() implies !(#[trigger] t.blocks[i]).occupied() by {
        assert(!node.blocks[i].occupied());
    }
}

pub(crate) proof fn lemma_admitted_entry(block: ChainBlock, parent: Option<u32>)
    ensures
        admission::admitted_entry(block, parent).active() == (block.sequence == 0),
        admission::admitted_entry(block, parent).head_ref_count == 0,
        admission::admitted_entry(block, parent).sequence == block.sequence,
        admission::admitted_entry(block, parent).hash == block.hash,
        admission::admitted_entry(block, parent).parent_ref == match parent {
            Some(idx) => idx,
            None => NONE_REF,
        },
{
    let fresh = BlockEntry::fresh(
        block.hash,
        match parent {
            Some(idx) => idx,
            None => NONE_REF,
        },
        block.sequence,
    );
    tree::lemma_status_bits(fresh.flags, BlockStatus::Stored);
    let stored = fresh.with_stage(BlockStatus::Stored);
    tree::lemma_kind_bits(stored.flags, block.payload_type);
    let plain = stored.with_len(block.bytes@.len() as u16).with_kind(block.payload_type);
    tree::lemma_active_bit(plain.flags);
    assert(0u8 & 0b1u8 == 0) by (bit_vector);
    assert(!fresh.active());
    assert(!stored.active());
    assert(!plain.active());
}

/// Admitting a block keeps a collecting node coherent.
pub proof fn admission_keeps_coherence(
    node: NodeView,
    prev: Seq<BlockHash>,
    block: ChainBlock,
    now: u64,
)
    requires
        coherent_node(node, prev),
        node.admit_refusal(block) is None,
    ensures
        ({
            let idx = tree::free_slot(node.blocks, 0)->0;
            coherent_node(
                node.admitted(block, now),
                prev.update(idx as int, block.previous_hash),
            )
        }),
{
    let idx = tree::free_slot(node.blocks, 0)->0;
    let parent = tree::parent_slot(node.blocks, block.previous_hash, block.sequence);
    let entry = admission::admitted_entry(block, parent);
    let t = node.tips();
    lemma_admitted_entry(block, parent);
    tree::free_slot_is_first(node.blocks, 0);
    assert(admission_fit::entering(
        t,
        prev,
        node.active_head,
        idx,
        entry,
        block.previous_hash,
    ));
    admission_fit::lemma_block_admitted(
        t,
        prev,
        node.active_head,
        idx,
        entry,
        block.previous_hash,
        now,
    );
    let after = node.admitted(block, now);
    let head = admission_fit::anchored(node.active_head, idx, entry);
    assert(after.tips() == tips::block_admitted(
        Tips { heads: t.heads, blocks: t.blocks.update(idx as int, entry) },
        idx,
        parent,
        block.previous_hash,
        now,
        head,
    ));
}

pub(crate) proof fn lemma_without_subtree(s: Seq<BlockEntry>, target: u32)
    requires
        s.len() <= NONE_REF,
    ensures
        deletion_fit::rest_of(s, tree::without_subtree(s, target), target),
{
    let rest = tree::without_subtree(s, target);
    assert forall|idx: u32| #[trigger] tree::present(rest, idx) == (tree::present(s, idx)
        && !tree::descends(s, idx, target, s.len())) by {
        if idx < s.len() {
            assert(rest[idx as int] == if tree::descends(s, idx, target, s.len()) {
                BlockEntry::vacant()
            } else {
                s[idx as int]
            });
        }
    }
}

pub(crate) proof fn lemma_head_left(s: Seq<BlockEntry>, active_head: u32, target: u32)
    requires
        s.len() <= NONE_REF,
    ensures
        tree::subtree(s, target).contains(active_head) == tree::descends(
            s,
            active_head,
            target,
            s.len(),
        ),
        (tree::subtree(s, target).len() > 0) == tree::present(s, target),
{
    recovery::lemma_subtree_members(s, target, s.len());
    let gone = tree::subtree(s, target);
    if tree::present(s, target) {
        assert(tree::descends(s, target, target, s.len()));
        assert(gone.contains(target));
    }
    if gone.len() > 0 {
        assert(gone.contains(gone[0]));
        lemma_descends_from_present(s, gone[0], target, s.len());
    }
}

pub(crate) proof fn lemma_descends_from_present(s: Seq<BlockEntry>, idx: u32, target: u32, steps: nat)
    requires
        tree::descends(s, idx, target, steps),
    ensures
        tree::present(s, target),
    decreases steps,
{
    if idx != target {
        lemma_descends_from_present(s, s[idx as int].parent_ref, target, (steps - 1) as nat);
    }
}

/// Deleting a block with its descendants keeps a collecting node coherent.
pub proof fn deletion_keeps_coherence(node: NodeView, prev: Seq<BlockHash>, target: u32)
    requires
        coherent_node(node, prev),
    ensures
        coherent_node(node.subtree_deleted(target), prev),
{
    let s = node.blocks;
    lemma_head_left(s, node.active_head, target);
    if tree::present(s, target) {
        let rest = tree::without_subtree(s, target);
        lemma_without_subtree(s, target);
        deletion_fit::lemma_subtree_dropped(node.tips(), rest, prev, node.active_head, target);
        let after = node.subtree_deleted(target);
        assert(after.tips() == tips::subtree_dropped(
            Tips { heads: node.heads, blocks: rest },
            tree::subtree(s, target),
            s[target as int].parent_ref,
        ));
    }
}

/// Restoring the marking of a coherent tree changes no mark.
pub(crate) proof fn lemma_marking(
    whole: Seq<BlockEntry>,
    rest: Seq<BlockEntry>,
    active_head: u32,
    target: u32,
)
    requires
        whole.len() <= NONE_REF,
        fit::marked(whole, active_head),
        deletion_fit::rest_of(whole, rest, target),
    ensures
        deletion_fit::rest_of(whole, recovery::marking_restored(rest), target),
        alike(rest, recovery::marking_restored(rest)),
        (match recovery::genesis_slot(recovery::unmarked(rest), 0) {
            Some(idx) => idx,
            None => NONE_REF,
        }) == deletion_fit::head_left(whole, active_head, target),
{
    let bare = recovery::unmarked(rest);
    let after = recovery::marking_restored(rest);
    recovery::genesis_slot_is_first(bare, 0);
    let found = recovery::genesis_slot(bare, 0);
    assert forall|i: int| 0 <= i < rest.len() implies {
        &&& (#[trigger] bare[i]).occupied() == rest[i].occupied()
        &&& bare[i].parent_ref == rest[i].parent_ref
        &&& bare[i].sequence == rest[i].sequence
        &&& bare[i].hash == rest[i].hash
        &&& bare[i].head_ref_count == rest[i].head_ref_count
        &&& bare[i].occupied() ==> !bare[i].active() && bare[i].with_active(true).active()
        &&& rest[i].occupied() ==> rest[i].active() == (rest[i].sequence == 0) && (
        rest[i].sequence == 0 ==> i == active_head && !tree::descends(
            whole,
            active_head,
            target,
            whole.len(),
        ))
    } by {
        let off = rest[i].with_active(false);
        tree::lemma_active_bit(rest[i].flags);
        tree::lemma_status_bits(off.flags, BlockStatus::Stored);
        tree::lemma_active_bit(off.with_stage(BlockStatus::Stored).flags);
        if rest[i].occupied() {
            assert(whole[i].occupied());
            assert(tree::present(rest, i as u32));
        }
    }
    let head = deletion_fit::head_left(whole, active_head, target);
    if head != NONE_REF {
        assert(tree::present(rest, active_head));
        assert(rest[active_head as int].occupied());
        assert(bare[active_head as int].occupied());
        assert(whole[active_head as int].sequence == 0);
    }
    if found is Some {
        let g = found->0 as int;
        assert(bare[g].occupied() == rest[g].occupied());
    }
    assert(alike(rest, after)) by {
        assert forall|i: int| 0 <= i < rest.len() implies {
            &&& (#[trigger] after[i]).occupied() == rest[i].occupied()
            &&& after[i].parent_ref == rest[i].parent_ref
            &&& after[i].active() == rest[i].active()
            &&& after[i].sequence == rest[i].sequence
            &&& after[i].hash == rest[i].hash
            &&& after[i].head_ref_count == rest[i].head_ref_count
        } by {
            assert(bare[i].occupied() == rest[i].occupied());
        }
    }
    assert(fit::part_of(after, whole)) by {
        assert forall|i: int| 0 <= i < after.len() && (#[trigger] after[i]).occupied() implies {
            &&& whole[i].occupied()
            &&& whole[i].parent_ref == after[i].parent_ref
            &&& whole[i].active() == after[i].active()
            &&& whole[i].sequence == after[i].sequence
            &&& whole[i].hash == after[i].hash
        } by {
            assert(rest[i].occupied());
        }
    }
    assert forall|idx: u32| #[trigger] tree::present(after, idx) == (tree::present(whole, idx)
        && !tree::descends(whole, idx, target, whole.len())) by {
        if idx < rest.len() {
            assert(after[idx as int].occupied() == rest[idx as int].occupied());
        }
        assert(tree::present(after, idx) == tree::present(rest, idx));
    }
}

/// The recovery from a failed pass keeps a collecting node coherent.
pub proof fn recovery_keeps_coherence(
    node: NodeView,
    prev: Seq<BlockHash>,
    error: ProcessingError,
    tip: u32,
)
    requires
        coherent_node(node, prev),
    ensures
        coherent_node(node.recovered(error, tip), prev),
{
    let target = recovery::deletion_target(error, tip);
    let s = node.blocks;
    let rest = tree::without_subtree(s, target);
    let after = node.recovered(error, tip);
    lemma_without_subtree(s, target);
    lemma_head_left(s, node.active_head, target);
    lemma_marking(s, rest, node.active_head, target);
    let restored = recovery::marking_restored(rest);
    if tree::present(s, target) {
        deletion_fit::lemma_subtree_dropped(
            node.tips(),
            restored,
            prev,
            node.active_head,
            target,
        );
        assert(after.tips() == tips::subtree_dropped(
            Tips { heads: node.heads, blocks: restored },
            tree::subtree(s, target),
            s[target as int].parent_ref,
        ));
    } else {
        assert forall|idx: u32| !tree::descends(s, idx, target, s.len()) by {
            if tree::descends(s, idx, target, s.len()) {
                lemma_descends_from_present(s, idx, target, s.len());
            }
        }
        assert(rest =~= s);
        assert(after.tips() == (Tips { heads: node.heads, blocks: restored }));
        lemma_alike(node.tips(), after.tips(), prev, node.active_head);
    }
}

/// A tick keeps a node coherent.
pub proof fn tick_keeps_coherence(node: NodeView, prev: Seq<BlockHash>, now: u64)
    requires
        coherent_node(node, prev),
    ensures
        coherent_node(node.ticked(now).1, prev),
{
    let after = node.ticked(now).1;
    if after != node {
        tip_laws::ticks_touch_timestamps_alone(node, now);
        let none = Set::<u32>::empty();
        let t = node.tips();
        let u = after.tips();
        assert forall|i: int| 0 <= i < t.heads.len() implies {
            &&& (#[trigger] u.heads[i]).head_idx == t.heads[i].head_idx
            &&& u.heads[i].flags == t.heads[i].flags
            &&& u.heads[i].tail_or_connection_idx == t.heads[i].tail_or_connection_idx
            &&& u.heads[i].missing_parent_hash == t.heads[i].missing_parent_hash
        } by {}
        assert forall|idx: u32| #[trigger] fit::is_tip(u.heads, idx) == fit::is_tip(
            t.heads,
            idx,
        ) by {
            if fit::is_tip(u.heads, idx) {
                let i = choose|i: int|
                    0 <= i < u.heads.len() && (#[trigger] u.heads[i]).in_use()
                        && u.heads[i].head_idx == idx;
                assert(t.heads[i].in_use() && t.heads[i].head_idx == idx);
            }
            if fit::is_tip(t.heads, idx) {
                let i = choose|i: int|
                    0 <= i < t.heads.len() && (#[trigger] t.heads[i]).in_use()
                        && t.heads[i].head_idx == idx;
                assert(u.heads[i].in_use() && u.heads[i].head_idx == idx);
            }
        }
        assert forall|i: int| 0 <= i < u.heads.len() && (#[trigger] u.heads[i]).in_use() implies {
            &&& tree::present(u.blocks, u.heads[i].head_idx)
            &&& tree::childless(u.blocks, u.heads[i].head_idx)
            &&& fit::knows_its_end(u.heads[i], u.blocks)
            &&& fit::knows_its_parent(u.heads[i], prev)
        } by {
            assert(t.heads[i].in_use());
            assert(fit::knows_its_end(t.heads[i], t.blocks));
            assert(fit::knows_its_parent(t.heads[i], prev));
        }
        assert forall|a: int, b: int|
            0 <= a < b < u.heads.len() && (#[trigger] u.heads[a]).in_use() && (
            #[trigger] u.heads[b]).in_use() implies u.heads[a].head_idx != u.heads[b].head_idx by {
            assert(t.heads[a].in_use() && t.heads[b].in_use());
        }
        assert(fit::counted(u, none)) by {
            assert forall|i: int|
                0 <= i < u.blocks.len() && (#[trigger] u.blocks[i]).occupied()
                    && !u.blocks[i].active() implies u.blocks[i].head_ref_count == fit::branches(
                u,
                none,
                i as u32,
            ) by {
                assert(t.blocks[i].head_ref_count == fit::branches(t, none, i as u32));
            }
        }
    }
}

/// Spent bits do not bear on coherence.
pub(crate) proof fn lemma_spending(node: NodeView, after: NodeView, prev: Seq<BlockHash>)
    requires
        coherent_node(node, prev),
        processing::spending_only(node.blocks, after.blocks),
        after.heads == node.heads,
        after.active_head == node.active_head,
    ensures
        coherent_node(after, prev),
{
    assert forall|i: int| 0 <= i < node.blocks.len() implies {
        &&& (#[trigger] after.blocks[i]).occupied() == node.blocks[i].occupied()
        &&& after.blocks[i].parent_ref == node.blocks[i].parent_ref
        &&& after.blocks[i].active() == node.blocks[i].active()
        &&& after.blocks[i].sequence == node.blocks[i].sequence
        &&& after.blocks[i].hash == node.blocks[i].hash
        &&& after.blocks[i].head_ref_count == node.blocks[i].head_ref_count
    } by {
        assert(after.blocks[i].unspent() == node.blocks[i].unspent());
    }
    lemma_alike(node.tips(), after.tips(), prev, node.active_head);
}

/// Giving up a candidate keeps a collecting node coherent.
pub proof fn abandonment_keeps_coherence(node: NodeView, prev: Seq<BlockHash>)
    requires
        coherent_node(node, prev),
    ensures
        coherent_node(node.abandoned(), prev),
{
    assert forall|i: int| 0 <= i < node.blocks.len() implies (
    #[trigger] node.abandoned().blocks[i]).unspent() == node.blocks[i].unspent() by {}
    lemma_spending(node, node.abandoned(), prev);
}

/// A pass over a candidate keeps a collecting node coherent, whatever it finds.
pub proof fn pass_keeps_coherence(
    node: NodeView,
    prev: Seq<BlockHash>,
    tip: u32,
    reads: Seq<Option<ChainBlock>>,
    vote_failure: Option<(int, VoteEngineError)>,
    holds: spec_fn(CheckView) -> bool,
)
    requires
        coherent_node(node, prev),
    ensures
        coherent_node(node.passed(tip, reads, vote_failure, holds).node, prev),
{
    processing::pass_only_spends(node, tip, reads, vote_failure, holds);
    lemma_spending(node, node.passed(tip, reads, vote_failure, holds).node, prev);
}

/// Holding a candidate's configuration in place of the tentative one keeps a
/// collecting node coherent.
pub proof fn adoption_keeps_coherence(
    node: NodeView,
    prev: Seq<BlockHash>,
    tip: u32,
    first: u32,
    block: ChainBlock,
)
    requires
        coherent_node(node, prev),
    ensures
        coherent_node(node.adopted(tip, first, block), prev),
{
    let loaded = NodeView {
        config: node.config.loaded(
            block.config_content()->0,
            admission::accepted_parameters(block),
        ),
        config_source: first,
        vote_reset: true,
        ..node
    };
    assert(loaded.tips() == node.tips());
    assert(coherent_node(loaded, prev));
    deletion_keeps_coherence(loaded, prev, node.config_source);
}

/// Every step of an acquisition keeps a node coherent, until one makes it ready.
pub proof fn acquisition_keeps_coherence(
    node: NodeView,
    prev: Seq<BlockHash>,
    window: u32,
    run: RunView,
    event: AcquisitionEvent,
)
    requires
        coherent_node(node, prev),
        node.advanced(window, run, event).node.phase != LifecyclePhase::Ready,
    ensures
        coherent_node(node.advanced(window, run, event).node, prev),
{
    match (run.stage, event) {
        (
            StageView::Examining { tip },
            AcquisitionEvent::Examined { reads, vote_failure },
        ) => {
            pass_keeps_coherence(
                node,
                prev,
                tip,
                reads@,
                processing::vote_stop(vote_failure),
                derivation::all_hold(),
            );
        },
        (
            StageView::Verifying { tip, reads, segment, checks, failure },
            AcquisitionEvent::Verified { verdicts },
        ) => {
            let (settled, outcome) = node.settled(segment, checks, failure, verdicts@);
            processing::clearing_only_spends(node.blocks, node.blocks, segment, 0);
            lemma_spending(node, settled, prev);
            match outcome {
                None => {
                    abandonment_keeps_coherence(settled, prev);
                    let offender = recovery::oversized(
                        settled.blocks,
                        tip,
                        settled.declared_limit(),
                        settled.blocks.len(),
                        None,
                    )->0;
                    recovery_keeps_coherence(
                        settled,
                        prev,
                        ProcessingError::Invalid {
                            block_idx: offender,
                            reason: ValidationReason::BlockTooLarge,
                        },
                        tip,
                    );
                },
                Some(error) => {
                    recovery_keeps_coherence(settled, prev, error, tip);
                    adoption_keeps_coherence(
                        settled,
                        prev,
                        tip,
                        settled.scanned(tip, NONE_REF).0,
                        settled.config_read(segment, reads)->0,
                    );
                },
            }
        },
        (
            StageView::Committing { tip },
            AcquisitionEvent::Committed { block, written, contents },
        ) => {
            abandonment_keeps_coherence(node, prev);
        },
        _ => {},
    }
}

// -- Restart -----------------------------------------------------------------

/// How far the links of a tree that is being rebuilt have come: those of the
/// slots below `from` are set, the others are not.
pub open spec fn half_linked(
    m: Seq<BlockEntry>,
    s: Seq<BlockEntry>,
    prev: Seq<BlockHash>,
    from: int,
) -> bool {
    &&& s.len() == m.len()
    &&& forall|i: int|
        0 <= i < s.len() ==> {
            &&& (#[trigger] s[i]).sequence == m[i].sequence
            &&& s[i].hash == m[i].hash
            &&& s[i].flags == m[i].flags
        }
    &&& forall|i: int|
        0 <= i < s.len() && (#[trigger] s[i]).occupied() ==> s[i].parent_ref == if i < from {
            match tree::parent_slot(m, prev[i], m[i].sequence) {
                Some(parent) => parent,
                None => NONE_REF,
            }
        } else {
            NONE_REF
        }
}

proof fn lemma_same_slot(
    s: Seq<BlockEntry>,
    m: Seq<BlockEntry>,
    sequence: u32,
    hash: BlockHash,
    from: int,
)
    requires
        s.len() == m.len(),
        forall|i: int|
            0 <= i < s.len() ==> (#[trigger] s[i]).sequence == m[i].sequence && s[i].hash
                == m[i].hash,
    ensures
        tree::slot_of(s, sequence, hash, from) == tree::slot_of(m, sequence, hash, from),
    decreases s.len() - from,
{
    if 0 <= from < s.len() {
        assert(s[from].sequence == m[from].sequence);
        lemma_same_slot(s, m, sequence, hash, from + 1);
    }
}

pub(crate) proof fn lemma_links_set(
    m: Seq<BlockEntry>,
    s: Seq<BlockEntry>,
    slots: Seq<Option<ChainBlock>>,
    from: int,
)
    requires
        slots.len() <= m.len(),
        0 <= from <= slots.len(),
        forall|i: int|
            0 <= i < m.len() && (#[trigger] m[i]).occupied() ==> i < slots.len() && slots[i] is Some
                && m[i].sequence == (slots[i]->0).sequence,
        half_linked(m, s, restart::previous_hashes(slots, m.len()), from),
    ensures
        half_linked(
            m,
            restart::linked(s, slots, from),
            restart::previous_hashes(slots, m.len()),
            slots.len() as int,
        ),
    decreases slots.len() - from,
{
    let prev = restart::previous_hashes(slots, m.len());
    if from < slots.len() {
        assert(s[from].sequence == m[from].sequence);
        if s[from].occupied() {
            assert(m[from].occupied());
            let block = slots[from]->0;
            if block.sequence != 0 {
                lemma_same_slot(s, m, (block.sequence - 1) as u32, block.previous_hash, 0);
            }
            let found = tree::parent_slot(s, block.previous_hash, block.sequence);
            assert(found == tree::parent_slot(m, prev[from], m[from].sequence));
            match found {
                Some(parent) => {
                    let next = s.update(from, s[from].with_parent(parent));
                    assert(half_linked(m, next, prev, from + 1));
                    lemma_links_set(m, next, slots, from + 1);
                },
                None => {
                    lemma_links_set(m, s, slots, from + 1);
                },
            }
        } else {
            lemma_links_set(m, s, slots, from + 1);
        }
    }
}

proof fn lemma_stored_entry(block: ChainBlock)
    ensures
        !restart::stored_entry(block).active(),
{
    let fresh = BlockEntry::fresh(block.hash, NONE_REF, block.sequence);
    tree::lemma_status_bits(fresh.flags, BlockStatus::Stored);
    let stored = fresh.with_stage(BlockStatus::Stored);
    tree::lemma_kind_bits(stored.flags, block.payload_type);
    assert(0u8 & 0b1u8 == 0) by (bit_vector);
    assert(!fresh.active());
}

/// The tree that a restart builds before its tips are known is linked and
/// complete.
pub(crate) proof fn lemma_retained_tree(node: NodeView, slots: Seq<Option<ChainBlock>>)
    requires
        node.treeless(),
        node.blocks.len() <= NONE_REF,
        slots.len() <= node.blocks.len(),
    ensures
        ({
            let prev = restart::previous_hashes(slots, node.blocks.len());
            let s = restart::linked(
                restart::materialized(node.blocks, slots, 0),
                slots,
                0,
            );
            let after = node.retained_tree(slots);
            &&& s.len() == node.blocks.len()
            &&& fit::linked(after, prev)
            &&& fit::complete(after, prev, NONE_REF)
            &&& after.len() == s.len()
            &&& forall|i: int|
                0 <= i < s.len() ==> (#[trigger] after[i]).sequence == s[i].sequence
            &&& forall|i: int|
                0 <= i < s.len() && (#[trigger] after[i]).occupied() ==> after[i].active() == (
                recovery::genesis_slot(s, 0) == Some(i as u32))
        }),
{
    let prev = restart::previous_hashes(slots, node.blocks.len());
    let m = restart::materialized(node.blocks, slots, 0);
    let s = restart::linked(m, slots, 0);
    let after = node.retained_tree(slots);
    assert(tree::unique_blocks(node.blocks)) by {
        assert forall|i: int| 0 <= i < node.blocks.len() implies !(
        #[trigger] node.blocks[i]).occupied() by {}
    }
    restart::lemma_materialized(node.blocks, slots, 0);
    lemma_links_set(m, m, slots, 0);
    recovery::genesis_slot_is_first(s, 0);
    assert forall|i: int| 0 <= i < s.len() implies {
        &&& (#[trigger] after[i]).sequence == s[i].sequence
        &&& after[i].occupied() == s[i].occupied()
        &&& after[i].hash == s[i].hash
        &&& after[i].parent_ref == s[i].parent_ref
        &&& after[i].occupied() ==> after[i].active() == (recovery::genesis_slot(s, 0) == Some(
            i as u32,
        ))
    } by {
        tree::lemma_active_bit(s[i].flags);
        if s[i].occupied() {
            assert(m[i].occupied());
            lemma_stored_entry(slots[i]->0);
        }
    }
    assert forall|i: int| 0 <= i < after.len() && after[i].occupied() implies {
        &&& (#[trigger] after[i].parent_ref) != NONE_REF ==> {
            &&& tree::present(after, after[i].parent_ref)
            &&& after[after[i].parent_ref as int].sequence + 1 == after[i].sequence
            &&& after[after[i].parent_ref as int].hash == prev[i]
        }
        &&& after[i].parent_ref == NONE_REF ==> forall|j: int|
            0 <= j < after.len() && (#[trigger] after[j]).occupied() && after[j].sequence + 1
                == after[i].sequence ==> after[j].hash != prev[i]
    } by {
        assert(m[i].occupied());
        let sequence = m[i].sequence;
        if sequence > 0 {
            tree::slot_of_is_first(m, (sequence - 1) as u32, prev[i], 0);
            if after[i].parent_ref != NONE_REF {
                let p = after[i].parent_ref as int;
                assert(m[p].is_block((sequence - 1) as u32, prev[i]));
                assert(s[p].sequence == m[p].sequence);
                assert(after[p].sequence == s[p].sequence);
            } else {
                assert forall|j: int|
                    0 <= j < after.len() && (#[trigger] after[j]).occupied() && after[j].sequence
                        + 1 == after[i].sequence implies after[j].hash != prev[i] by {
                    assert(s[j].sequence == m[j].sequence);
                    assert(!m[j].is_block((sequence - 1) as u32, prev[i]));
                }
            }
        }
    }
    assert(fit::complete(after, prev, NONE_REF)) by {
        assert forall|i: int, j: int|
            0 <= i < after.len() && 0 <= j < after.len() && (#[trigger] after[i]).occupied()
                && after[i].parent_ref == NONE_REF && (#[trigger] after[j]).occupied()
                && after[j].sequence + 1 == after[i].sequence && after[j].hash == prev[i] implies j
            == NONE_REF by {
            assert(after[i].parent_ref == NONE_REF);
        }
    }
}

/// A restart gives a coherent node, provided that storage holds one first block
/// at most and no block has more children than a branch count can hold.
pub proof fn restart_is_coherent(node: NodeView, slots: Seq<Option<ChainBlock>>, now: u64)
    requires
        node.treeless(),
        node.blocks.len() <= NONE_REF,
        slots.len() <= node.blocks.len(),
        fit::table_fits(node.heads),
        counts::kids_fit(node.retained_tree(slots)),
        forall|i: int, j: int|
            0 <= i < j < slots.len() && (#[trigger] slots[i]) is Some && (#[trigger] slots[j])
                is Some && (slots[i]->0).sequence == 0 && (slots[j]->0).sequence == 0 ==> (
            slots[i]->0).hash == (slots[j]->0).hash,
    ensures
        coherent_node(
            node.rebuilt(slots, now),
            restart::previous_hashes(slots, node.blocks.len()),
        ),
{
    let prev = restart::previous_hashes(slots, node.blocks.len());
    let m = restart::materialized(node.blocks, slots, 0);
    let s = restart::linked(m, slots, 0);
    let after = node.retained_tree(slots);
    let active_head = match recovery::genesis_slot(s, 0) {
        Some(idx) => idx,
        None => NONE_REF,
    };
    let heads = Seq::new(node.heads.len(), |i: int| ChainHeadEntry::vacant());
    lemma_retained_tree(node, slots);
    recovery::genesis_slot_is_first(s, 0);
    assert(fit::marked(after, active_head)) by {
        assert(tree::unique_blocks(node.blocks)) by {
            assert forall|i: int| 0 <= i < node.blocks.len() implies !(
            #[trigger] node.blocks[i]).occupied() by {}
        }
        restart::lemma_materialized(node.blocks, slots, 0);
        lemma_links_set(m, m, slots, 0);
        assert forall|i: int| 0 <= i < after.len() && (#[trigger] after[i]).occupied() implies {
            &&& after[i].active() == (after[i].sequence == 0)
            &&& after[i].sequence == 0 ==> active_head == i
        } by {
            assert(s[i].sequence == m[i].sequence);
            assert(m[i].occupied());
            assert(slots[i] is Some);
            if after[i].sequence == 0 {
                let g = active_head as int;
                assert(s[g].occupied() && s[g].sequence == 0);
                assert(m[g].occupied());
                assert(slots[g] is Some);
                assert(m[g].is_block(0, m[i].hash));
                assert(m[i].is_block(0, m[i].hash));
            }
        }
        if active_head != NONE_REF {
            assert(after[active_head as int].sequence == s[active_head as int].sequence);
        }
    }
    rebuild_fit::lemma_rebuilt(heads, after, prev, now, active_head);
}

} // verus!
