//! What is deleted, and what stays: after a failed pass, when a configuration is
//! locked, and when the table of tips is full.

use vstd::prelude::*;

use crate::api::NodeView;
use crate::blocks as tree;
use crate::blocks::{BlockEntry, NONE_REF};
use crate::chain_heads as tips;
use crate::chain_heads::Tips;
use crate::derivation::ProcessingError;
use crate::lifecycle::LifecyclePhase;
use crate::record_laws as records;
use crate::recovery;
use crate::request_laws as requests;
use crate::staged_validation::BlockStatus;
use crate::tip_laws;

verus! {

/// Whether slot `i` holds a block.
pub open spec fn held(s: Seq<BlockEntry>, i: int) -> bool {
    0 <= i < s.len() && s[i].sequence != NONE_REF
}

/// Whether `after` is `before` without the block in slot `target` and all that
/// stands on it: the block is gone; a block that went with it stood on one that
/// went; no block that stayed stands on one that went; and what stayed is what it
/// was.
pub open spec fn without_what_stands_on(
    before: Seq<BlockEntry>,
    after: Seq<BlockEntry>,
    target: u32,
) -> bool {
    &&& after.len() == before.len()
    &&& !held(after, target as int)
    &&& forall|i: int| #[trigger]
        held(after, i) ==> {
            &&& held(before, i)
            &&& after[i].sequence == before[i].sequence
            &&& after[i].hash == before[i].hash
            &&& after[i].parent_ref == before[i].parent_ref
            &&& after[i].len == before[i].len
            &&& after[i].flags >> 3 == before[i].flags >> 3
            &&& before[i].parent_ref != NONE_REF && held(before, before[i].parent_ref as int)
                ==> held(after, before[i].parent_ref as int)
        }
    &&& forall|i: int| #[trigger]
        held(before, i) && !held(after, i) && i != target ==> {
            &&& before[i].parent_ref != NONE_REF
            &&& held(before, before[i].parent_ref as int)
            &&& !held(after, before[i].parent_ref as int)
        }
}

proof fn lemma_more_steps(s: Seq<BlockEntry>, idx: u32, target: u32, few: nat, many: nat)
    requires
        tree::descends(s, idx, target, few),
        few <= many,
    ensures
        tree::descends(s, idx, target, many),
    decreases few,
{
    if idx != target {
        lemma_more_steps(
            s,
            s[idx as int].parent_ref,
            target,
            (few - 1) as nat,
            (many - 1) as nat,
        );
    }
}

proof fn lemma_without(before: Seq<BlockEntry>, after: Seq<BlockEntry>, target: u32)
    requires
        before.len() <= NONE_REF,
        recovery::exactly_without(before, after, target),
    ensures
        without_what_stands_on(before, after, target),
{
    assert forall|i: int| #[trigger] held(after, i) implies {
        &&& held(before, i)
        &&& after[i].sequence == before[i].sequence
        &&& after[i].hash == before[i].hash
        &&& after[i].parent_ref == before[i].parent_ref
        &&& after[i].len == before[i].len
        &&& after[i].flags >> 3 == before[i].flags >> 3
        &&& before[i].parent_ref != NONE_REF && held(before, before[i].parent_ref as int) ==> held(
            after,
            before[i].parent_ref as int,
        )
    } by {
        assert(tree::present(after, i as u32));
        assert(after[i].kind() == before[i].kind());
        let parent = before[i].parent_ref;
        if parent != NONE_REF && held(before, parent as int) {
            assert(tree::present(before, parent));
            assert(tree::present(after, parent));
        }
    }
    assert forall|i: int| #[trigger]
        held(before, i) && !held(after, i) && i != target implies {
        &&& before[i].parent_ref != NONE_REF
        &&& held(before, before[i].parent_ref as int)
        &&& !held(after, before[i].parent_ref as int)
    } by {
        assert(tree::present(before, i as u32));
        assert(!tree::present(after, i as u32));
        assert(tree::descends(before, i as u32, target, before.len()));
        let parent = before[i].parent_ref;
        assert(tree::descends(before, parent, target, (before.len() - 1) as nat));
        lemma_more_steps(before, parent, target, (before.len() - 1) as nat, before.len());
        assert(tree::present(before, parent));
        assert(!tree::present(after, parent));
    }
    if held(after, target as int) {
        assert(tree::present(after, target));
        assert(tree::descends(before, target, target, before.len()));
    }
}

/// The block that a failure speaks against: the one that breaks a rule, or the
/// candidate's tip where none is known to.
pub open spec fn condemned(error: ProcessingError, tip: u32) -> u32 {
    match error {
        ProcessingError::Invalid { block_idx, reason } => block_idx,
        _ => tip,
    }
}

/// The recovery from a failed pass deletes the condemned block with all that
/// stands on it, and nothing else; the node collects again and knows no node. The
/// first block of the chain, if it is left, is the active head and alone on the
/// active chain; every block is stored. A locked configuration stays; a tentative
/// one stays exactly if the block behind it does.
pub proof fn recoveries_delete_what_stands_on_the_condemned(
    node: NodeView,
    error: ProcessingError,
    tip: u32,
    i: int,
    id: int,
)
    requires
        node.blocks.len() <= NONE_REF,
    ensures
        ({
            let after = node.recovered(error, tip);
            &&& without_what_stands_on(node.blocks, after.blocks, condemned(error, tip))
            &&& after.phase == LifecyclePhase::Collecting
            &&& held(after.blocks, i) ==> {
                &&& (after.blocks[i].flags & 1 != 0) == (i == after.active_head)
                &&& after.blocks[i].sequence == 0 ==> after.active_head <= i
                &&& (after.blocks[i].flags >> 1) & 3 != 1
                &&& (after.blocks[i].flags >> 1) & 3 != 2
            }
            &&& after.active_head != NONE_REF ==> held(after.blocks, after.active_head as int)
                && after.blocks[after.active_head as int].sequence == 0
            &&& after.active_head == NONE_REF && held(after.blocks, i) ==> after.blocks[i].sequence
                != 0
            &&& 0 <= id < node.info.seeds.len() ==> after.info.seeds[id] == NONE_REF
                && after.info.balances[id] == 0
            &&& after.info.max_known_node_id == 0
            &&& after.vote_reset
            &&& node.config is Durable ==> after.config == node.config
            &&& after.config == node.config || after.config is Unloaded
            &&& node.config is Tentative && node.config_source != NONE_REF ==> (after.config
                == node.config) == held(after.blocks, node.config_source as int)
        }),
{
    let after = node.recovered(error, tip);
    let target = condemned(error, tip);
    let rest = tree::without_subtree(node.blocks, target);
    recovery::recovery_is_exact(node, error, tip);
    lemma_without(node.blocks, after.blocks, target);
    recovery::genesis_slot_is_first(recovery::unmarked(rest), 0);
    if held(after.blocks, i) {
        assert(tree::present(after.blocks, i as u32));
        records::marks_are_kept_apart(after.blocks[i], true, BlockStatus::Stored, 0);
        if after.blocks[i].sequence == 0 {
            assert(!tree::descends(node.blocks, i as u32, target, node.blocks.len()));
            assert(rest[i] == node.blocks[i]);
            assert(recovery::unmarked(rest)[i].occupied());
            assert(recovery::unmarked(rest)[i].sequence == 0);
        }
    }
    if node.config_source != NONE_REF {
        let source = node.config_source;
        assert(tree::present(rest, source) == (tree::present(node.blocks, source)
            && !tree::descends(node.blocks, source, target, node.blocks.len())));
        assert(tree::present(after.blocks, source) == held(after.blocks, source as int));
    }
}

/// Deleting a block deletes all that stands on it, and nothing else. The active
/// head is forgotten if it goes, and a tentative configuration is withdrawn if the
/// block behind it does.
pub proof fn deletions_take_what_stands_on_the_block(node: NodeView, target: u32)
    requires
        node.blocks.len() <= NONE_REF,
    ensures
        ({
            let after = node.subtree_deleted(target);
            &&& without_what_stands_on(node.blocks, after.blocks, target)
            &&& after.phase == node.phase
            &&& held(node.blocks, node.active_head as int) ==> after.active_head == if held(
                after.blocks,
                node.active_head as int,
            ) {
                node.active_head
            } else {
                NONE_REF
            }
            &&& node.config is Durable ==> after.config == node.config
        }),
{
    let after = node.subtree_deleted(target);
    recovery::deletion_is_exact(node, target);
    lemma_without(node.blocks, after.blocks, target);
    recovery::lemma_subtree_members(node.blocks, target, node.blocks.len());
    if held(node.blocks, node.active_head as int) {
        assert(tree::present(node.blocks, node.active_head));
        assert(tree::present(after.blocks, node.active_head) == held(
            after.blocks,
            node.active_head as int,
        ));
        let gone = tree::subtree(node.blocks, target);
        assert(gone.contains(node.active_head) == tree::descends(
            node.blocks,
            node.active_head,
            target,
            node.blocks.len(),
        ));
    }
}

// -- Eviction ----------------------------------------------------------------

/// Whether the tip at `slot` may be evicted: it is in the tree, and not the head of
/// the active chain.
pub open spec fn may_be_evicted(t: Tips, active_head: u32, slot: int) -> bool {
    &&& 0 <= slot < t.heads.len()
    &&& t.heads[slot].head_idx != NONE_REF
    &&& t.heads[slot].head_idx != active_head
    &&& held(t.blocks, t.heads[slot].head_idx as int)
}

/// An eviction takes the lowest tip that may be taken, of several at one height the
/// one with the smallest hash, and frees its slot; the others stay. Where none may
/// be taken, nothing changes.
pub proof fn evictions_take_the_lowest_tip(t: Tips, active_head: u32)
    ensures
        ({
            let after = tips::evicted(t, active_head);
            &&& (exists|slot: int| #[trigger] may_be_evicted(t, active_head, slot)) ==> exists|slot: int| {
                &&& #[trigger] may_be_evicted(t, active_head, slot)
                &&& forall|other: int| #[trigger]
                    may_be_evicted(t, active_head, other) ==> !requests::stands_before(
                        t.blocks,
                        t.heads[other].head_idx,
                        t.heads[slot].head_idx,
                    )
                &&& after.heads.len() == t.heads.len()
                &&& after.heads[slot].head_idx == NONE_REF
                &&& forall|other: int|
                    0 <= other < t.heads.len() && other != slot ==> #[trigger] after.heads[other]
                        == t.heads[other]
            }
            &&& !(exists|slot: int| #[trigger] may_be_evicted(t, active_head, slot)) ==> after == t
        }),
{
    tip_laws::eviction_takes_the_lowest_tip(t.heads, t.blocks, active_head);
    assert forall|slot: int| 0 <= slot < t.heads.len() implies #[trigger] may_be_evicted(
        t,
        active_head,
        slot,
    ) == tips::evictable(t.heads, t.blocks, active_head, slot) by {}
    if let Some(v) = tips::victim(t.heads, t.blocks, active_head) {
        assert(may_be_evicted(t, active_head, v));
        assert forall|other: int| #[trigger]
            may_be_evicted(t, active_head, other) implies !requests::stands_before(
            t.blocks,
            t.heads[other].head_idx,
            t.heads[v].head_idx,
        ) by {
            assert(tips::evictable(t.heads, t.blocks, active_head, other));
            requests::hashes_are_ordered_by_their_first_difference(
                t.blocks[t.heads[other].head_idx as int].hash,
                t.blocks[t.heads[v].head_idx as int].hash,
            );
        }
    } else {
        assert forall|slot: int| !#[trigger] may_be_evicted(t, active_head, slot) by {
            if 0 <= slot < t.heads.len() {
                assert(!tips::evictable(t.heads, t.blocks, active_head, slot));
            }
        }
    }
}

} // verus!
