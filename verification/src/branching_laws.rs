//! How the tree of a node branches, in every phase of its life.

use vstd::prelude::*;

use crate::acquisition::{AcquisitionEvent, RunView, StageView};
use crate::admission;
use crate::ancestry;
use crate::api::NodeView;
use crate::block_data::{ChainBlock, PAYLOAD_TYPE_CHAIN_CONFIG};
use crate::blocks as tree;
use crate::blocks::{BlockEntry, NONE_REF};
use crate::branching;
use crate::branching_deletion;
use crate::chain_heads as tips;
use crate::chain_heads::{ChainHeadEntry, Tips};
use crate::coherence as fit;
use crate::coherence_laws;
use crate::coherent_counts as counts;
use crate::coherent_deletion as deletion_fit;
use crate::coherent_rebuild as rebuild_fit;
use crate::config_state::ConfigParameters;
use crate::derivation;
use crate::derivation::{CheckView, ProcessingError, ValidationReason, VoteEngineError};
use crate::eviction_laws;
use crate::genesis;
use crate::genesis::GenesisWrites;
use crate::hash;
use crate::hash::BlockHash;
use crate::processing;
use crate::recovery;
use crate::restart;
use crate::staged_validation::BlockStatus;
use crate::tip_laws;

verus! {

/// The node's tree branches as its tips and its branch counts say: every block
/// counts its children, and itself where it is a tip; every tip is childless,
/// and every childless block off the active chain is a tip.
pub open spec fn branching_node(node: NodeView) -> bool {
    branching::branching(node.tips())
}

/// A node that has seen nothing branches as its tips say.
pub proof fn fresh_node_branches(node: NodeView)
    requires
        node.treeless(),
        forall|i: int| 0 <= i < node.heads.len() ==> !(#[trigger] node.heads[i]).in_use(),
        node.blocks.len() <= NONE_REF,
    ensures
        branching_node(node),
{
    let t = node.tips();
    assert forall|i: int| 0 <= i < t.blocks.len() implies !(#[trigger] t.blocks[i]).occupied() by {
        assert(!node.blocks[i].occupied());
    }
    assert forall|i: int|
        0 <= i < t.blocks.len() && t.blocks[i].occupied() && #[trigger] t.blocks[i].parent_ref
            != NONE_REF implies tree::present(t.blocks, t.blocks[i].parent_ref)
        && t.blocks[t.blocks[i].parent_ref as int].sequence + 1 == t.blocks[i].sequence by {
        assert(!t.blocks[i].occupied());
    }
}

/// A block that nothing speaks against stands in the tree afterwards, at the
/// slot that is returned; and the tree branches as its tips say, whatever the
/// active chain is.
pub proof fn admitted_block_is_in_the_tree(node: NodeView, block: ChainBlock, now: u64)
    requires
        branching_node(node),
        branching::table_fits(node.heads),
        branching::counts_fit(node.tips()),
        node.admit_refusal(block) is None,
    ensures
        ({
            let after = node.admitted(block, now);
            &&& node.admit_result(block, true) matches Ok(slot) && slot < after.blocks.len()
                && after.blocks[slot as int].is_block(block.sequence, block.hash)
            &&& branching_node(after)
            &&& after.blocks.len() == node.blocks.len()
            &&& after.heads.len() == node.heads.len()
        }),
{
    let idx = tree::free_slot(node.blocks, 0)->0;
    let parent = tree::parent_slot(node.blocks, block.previous_hash, block.sequence);
    let entry = admission::admitted_entry(block, parent);
    let t = node.tips();
    coherence_laws::lemma_admitted_entry(block, parent);
    tree::free_slot_is_first(node.blocks, 0);
    if block.sequence != 0 {
        tree::slot_of_is_first(
            node.blocks,
            (block.sequence - 1) as u32,
            block.previous_hash,
            0,
        );
    }
    assert(branching::entering(t, idx, entry, parent));
    let active_head = if block.sequence == 0 {
        idx
    } else {
        node.active_head
    };
    branching::admission_keeps_branching(
        t,
        idx,
        entry,
        parent,
        block.previous_hash,
        now,
        active_head,
    );
}

/// A tick keeps the tree and its tips.
pub proof fn tick_keeps_branching(node: NodeView, now: u64)
    requires
        branching_node(node),
    ensures
        branching_node(node.ticked(now).1),
{
    let after = node.ticked(now).1;
    tip_laws::ticks_touch_timestamps_alone(node, now);
    assert forall|i: int| 0 <= i < node.heads.len() implies (#[trigger] after.heads[i]).head_idx
        == node.heads[i].head_idx && after.heads[i].tail_or_connection_idx
        == node.heads[i].tail_or_connection_idx by {
        assert((ChainHeadEntry {
            last_request_timestamp: node.heads[i].last_request_timestamp,
            ..after.heads[i]
        }) == node.heads[i]);
    }
    lemma_same_tips(node.tips(), after.tips());
}

/// Tips that name the same blocks branch alike.
proof fn lemma_same_tips(t: Tips, other: Tips)
    requires
        branching::branching(t),
        other.blocks == t.blocks,
        other.heads.len() == t.heads.len(),
        forall|i: int|
            0 <= i < t.heads.len() ==> (#[trigger] other.heads[i]).head_idx == t.heads[i].head_idx
                && other.heads[i].tail_or_connection_idx == t.heads[i].tail_or_connection_idx,
    ensures
        branching::branching(other),
{
    let none = Set::<u32>::empty();
    branching::lemma_same_tips(t.heads, other.heads);
    assert forall|i: int|
        0 <= i < other.heads.len() && (#[trigger] other.heads[i]).in_use() implies {
        &&& tree::present(other.blocks, other.heads[i].head_idx)
        &&& tree::childless(other.blocks, other.heads[i].head_idx)
        &&& !none.contains(other.heads[i].head_idx)
        &&& tree::descends(
            other.blocks,
            other.heads[i].head_idx,
            other.heads[i].tail_or_connection_idx,
            other.blocks.len(),
        )
    } by {
        assert(t.heads[i].in_use());
    }
    assert forall|a: int, b: int|
        0 <= a < b < other.heads.len() && (#[trigger] other.heads[a]).in_use() && (
        #[trigger] other.heads[b]).in_use() implies other.heads[a].head_idx
        != other.heads[b].head_idx by {
        assert(t.heads[a].in_use() && t.heads[b].in_use());
    }
    assert forall|i: int|
        0 <= i < t.blocks.len() && (
        #[trigger] other.blocks[i]).occupied() implies other.blocks[i].head_ref_count
        == fit::branches(other, none, i as u32) && (!other.blocks[i].active() && tree::childless(
        other.blocks,
        i as u32,
    ) ==> fit::is_tip(other.heads, i as u32) || none.contains(i as u32)) by {
        assert(t.blocks[i].occupied());
        assert(fit::is_tip(t.heads, i as u32) == fit::is_tip(other.heads, i as u32));
    }
}

/// The trees hold the same blocks, linked and counted alike, and no block left
/// the active chain.
pub open spec fn same_branches(s: Seq<BlockEntry>, other: Seq<BlockEntry>) -> bool {
    &&& other.len() == s.len()
    &&& forall|i: int|
        0 <= i < s.len() ==> {
            &&& (#[trigger] other[i]).occupied() == s[i].occupied()
            &&& other[i].parent_ref == s[i].parent_ref
            &&& other[i].sequence == s[i].sequence
            &&& other[i].head_ref_count == s[i].head_ref_count
            &&& s[i].active() ==> other[i].active()
        }
}

pub(crate) proof fn lemma_same_walks(
    s: Seq<BlockEntry>,
    other: Seq<BlockEntry>,
    idx: u32,
    target: u32,
    steps: nat,
)
    requires
        same_branches(s, other),
    ensures
        tree::descends(other, idx, target, steps) == tree::descends(s, idx, target, steps),
    decreases steps,
{
    if idx < s.len() {
        assert(other[idx as int].occupied() == s[idx as int].occupied());
    }
    if steps > 0 && tree::present(s, idx) && idx != target && s[idx as int].parent_ref
        != NONE_REF {
        lemma_same_walks(s, other, s[idx as int].parent_ref, target, (steps - 1) as nat);
    }
}

/// Marks do not bear on how a tree branches, as long as no block leaves the
/// active chain.
proof fn lemma_same_branches(t: Tips, other: Tips)
    requires
        branching::branching(t),
        other.heads == t.heads,
        same_branches(t.blocks, other.blocks),
    ensures
        branching::branching(other),
{
    let none = Set::<u32>::empty();
    let s = t.blocks;
    let b = other.blocks;
    assert forall|idx: u32| #[trigger] fit::kids(b, idx) == fit::kids(s, idx) by {
        assert forall|j: int| 0 <= j < b.len() implies fit::child_of(#[trigger] b[j], idx)
            == fit::child_of(s[j], idx) by {}
        fit::lemma_kids_same(b, s, idx);
    }
    assert forall|idx: u32| #[trigger] tree::childless(b, idx) == tree::childless(s, idx) by {
        fit::lemma_kids_childless(b, idx);
        fit::lemma_kids_childless(s, idx);
        assert(fit::kids(b, idx) == fit::kids(s, idx));
    }
    assert forall|i: int|
        0 <= i < b.len() && b[i].occupied() && #[trigger] b[i].parent_ref
            != NONE_REF implies tree::present(b, b[i].parent_ref)
        && b[b[i].parent_ref as int].sequence + 1 == b[i].sequence by {
        assert(s[i].parent_ref != NONE_REF);
        let p = s[i].parent_ref as int;
        assert(b[p].occupied() == s[p].occupied());
    }
    assert forall|i: int|
        0 <= i < other.heads.len() && (#[trigger] other.heads[i]).in_use() implies {
        &&& tree::present(b, other.heads[i].head_idx)
        &&& tree::childless(b, other.heads[i].head_idx)
        &&& !none.contains(other.heads[i].head_idx)
        &&& tree::descends(
            b,
            other.heads[i].head_idx,
            other.heads[i].tail_or_connection_idx,
            b.len(),
        )
    } by {
        assert(t.heads[i].in_use());
        let h = t.heads[i].head_idx;
        assert(b[h as int].occupied() == s[h as int].occupied());
        lemma_same_walks(s, b, h, t.heads[i].tail_or_connection_idx, s.len());
    }
    assert forall|i: int| 0 <= i < b.len() && (#[trigger] b[i]).occupied() implies {
        &&& b[i].head_ref_count == fit::branches(other, none, i as u32)
        &&& !b[i].active() && tree::childless(b, i as u32) ==> fit::is_tip(other.heads, i as u32)
            || none.contains(i as u32)
    } by {
        assert(s[i].occupied());
        assert(s[i].head_ref_count == fit::branches(t, none, i as u32));
        assert(fit::kids(b, i as u32) == fit::kids(s, i as u32));
        assert(tree::childless(b, i as u32) == tree::childless(s, i as u32));
    }
}

pub(crate) proof fn lemma_spending(node: NodeView, after: NodeView)
    requires
        branching_node(node),
        processing::spending_only(node.blocks, after.blocks),
        after.heads == node.heads,
    ensures
        branching_node(after),
{
    assert forall|i: int| 0 <= i < node.blocks.len() implies {
        &&& (#[trigger] after.blocks[i]).occupied() == node.blocks[i].occupied()
        &&& after.blocks[i].parent_ref == node.blocks[i].parent_ref
        &&& after.blocks[i].sequence == node.blocks[i].sequence
        &&& after.blocks[i].head_ref_count == node.blocks[i].head_ref_count
        &&& after.blocks[i].active() == node.blocks[i].active()
    } by {
        assert(after.blocks[i].unspent() == node.blocks[i].unspent());
    }
    lemma_same_branches(node.tips(), after.tips());
}

/// A pass over a candidate leaves the tree branching as it did, whatever it
/// finds.
pub proof fn pass_keeps_branching(
    node: NodeView,
    tip: u32,
    reads: Seq<Option<ChainBlock>>,
    vote_failure: Option<(int, VoteEngineError)>,
    holds: spec_fn(CheckView) -> bool,
)
    requires
        branching_node(node),
    ensures
        branching_node(node.passed(tip, reads, vote_failure, holds).node),
{
    processing::pass_only_spends(node, tip, reads, vote_failure, holds);
    lemma_spending(node, node.passed(tip, reads, vote_failure, holds).node);
}

/// Giving up a candidate leaves the tree branching as it did.
pub proof fn abandonment_keeps_branching(node: NodeView)
    requires
        branching_node(node),
    ensures
        branching_node(node.abandoned()),
{
    assert forall|i: int| 0 <= i < node.blocks.len() implies (
    #[trigger] node.abandoned().blocks[i]).unspent() == node.blocks[i].unspent() by {}
    lemma_spending(node, node.abandoned());
}

pub(crate) proof fn lemma_promoted(first: Seq<BlockEntry>, s: Seq<BlockEntry>, cur: u32, steps: nat)
    requires
        same_branches(first, s),
    ensures
        same_branches(first, recovery::promoted(s, cur, steps)),
    decreases steps,
{
    if steps > 0 && tree::present(s, cur) {
        let entry = s[cur as int];
        let staged = entry.with_stage(BlockStatus::Active);
        let next = s.update(cur as int, staged.with_active(true));
        tree::lemma_status_bits(entry.flags, BlockStatus::Active);
        tree::lemma_active_bit(staged.flags);
        assert(same_branches(first, next)) by {
            assert forall|i: int| 0 <= i < first.len() implies {
                &&& (#[trigger] next[i]).occupied() == first[i].occupied()
                &&& next[i].parent_ref == first[i].parent_ref
                &&& next[i].sequence == first[i].sequence
                &&& next[i].head_ref_count == first[i].head_ref_count
                &&& first[i].active() ==> next[i].active()
            } by {
                assert(s[i].occupied() == first[i].occupied());
            }
        }
        if entry.parent_ref != NONE_REF {
            lemma_promoted(first, next, entry.parent_ref, (steps - 1) as nat);
        }
    }
}

/// Promoting a candidate to the active chain leaves the tree branching as it
/// did.
pub proof fn promotion_keeps_branching(node: NodeView, tip: u32)
    requires
        branching_node(node),
    ensures
        branching_node(node.activated(tip)),
{
    lemma_promoted(node.blocks, node.blocks, tip, node.blocks.len());
    lemma_same_branches(node.tips(), node.activated(tip).tips());
}

// -- Every phase -------------------------------------------------------------

/// The node's tree branches as its tips say, and its active chain ends in the
/// head of the active chain.
pub open spec fn orderly(node: NodeView) -> bool {
    &&& branching_node(node)
    &&& eviction_laws::led_by(node.blocks, node.active_head)
    &&& 1 <= node.heads.len() <= 253
}

/// A node that has seen nothing is orderly.
pub proof fn fresh_node_is_orderly(node: NodeView)
    requires
        node.treeless(),
        forall|i: int| 0 <= i < node.heads.len() ==> !(#[trigger] node.heads[i]).in_use(),
        node.blocks.len() <= NONE_REF,
        1 <= node.heads.len() <= 253,
    ensures
        orderly(node),
{
    fresh_node_branches(node);
    assert forall|i: int| 0 <= i < node.blocks.len() && (#[trigger] node.blocks[i]).occupied()
        && node.blocks[i].active() && node.blocks[i].sequence != 0 && i
        != node.active_head implies eviction_laws::carries_active(node.blocks, i as u32) by {
        assert(!node.blocks[i].occupied());
    }
}

/// What is kept of the active chain ends where it did.
proof fn lemma_led(before: Seq<BlockEntry>, after: Seq<BlockEntry>, head: u32, new_head: u32)
    requires
        eviction_laws::led_by(before, head),
        before.len() == after.len(),
        before.len() <= NONE_REF,
        forall|i: int|
            0 <= i < before.len() && (#[trigger] after[i]).occupied() && after[i].active()
                && after[i].sequence != 0 ==> {
                &&& before[i].occupied()
                &&& before[i].active()
                &&& before[i].sequence != 0
                &&& i == head ==> new_head == head
            },
        forall|c: int|
            0 <= c < before.len() && before[c].occupied() && before[c].active()
                && #[trigger] before[c].parent_ref != NONE_REF && before[c].parent_ref
                < after.len() && after[before[c].parent_ref as int].occupied()
                ==> after[c].occupied() && after[c].active() && after[c].parent_ref
                == before[c].parent_ref,
    ensures
        eviction_laws::led_by(after, new_head),
{
    assert forall|i: int|
        0 <= i < after.len() && (#[trigger] after[i]).occupied() && after[i].active()
            && after[i].sequence != 0 && i != new_head implies eviction_laws::carries_active(
        after,
        i as u32,
    ) by {
        assert(before[i].occupied());
        assert(eviction_laws::carries_active(before, i as u32));
        let c = choose|c: int|
            0 <= c < before.len() && (#[trigger] before[c]).occupied() && before[c].active()
                && before[c].parent_ref == i as u32;
        assert(before[c].parent_ref != NONE_REF);
        assert(after[c].occupied());
    }
}

/// Admitting a block keeps a node with room for two tips orderly, in every phase,
/// and the block stands in the tree at the slot that is returned.
pub proof fn admission_keeps_order(node: NodeView, block: ChainBlock, now: u64)
    requires
        orderly(node),
        node.heads.len() >= 2,
        node.admit_refusal(block) is None,
    ensures
        orderly(node.admitted(block, now)),
        node.admitted(block, now).heads.len() == node.heads.len(),
        node.admitted(block, now).blocks.len() == node.blocks.len(),
        node.admit_result(block, true) matches Ok(slot) && slot < node.blocks.len()
            && node.admitted(block, now).blocks[slot as int].is_block(block.sequence, block.hash),
{
    let t = node.tips();
    eviction_laws::branch_counts_have_room(t, node.active_head);
    admitted_block_is_in_the_tree(node, block, now);
    let after = node.admitted(block, now);
    let idx = tree::free_slot(node.blocks, 0)->0;
    let parent = tree::parent_slot(node.blocks, block.previous_hash, block.sequence);
    let entry = admission::admitted_entry(block, parent);
    coherence_laws::lemma_admitted_entry(block, parent);
    tree::free_slot_is_first(node.blocks, 0);
    let placed = node.blocks.update(idx as int, entry);
    tips::admission_spares_the_active_chain(
        Tips { heads: node.heads, blocks: placed },
        idx,
        parent,
        block.previous_hash,
        now,
        after.active_head,
    );
    assert(tips::tips_only(placed, after.blocks));
    assert forall|i: int|
        0 <= i < node.blocks.len() && (#[trigger] after.blocks[i]).occupied()
            && after.blocks[i].active() && after.blocks[i].sequence != 0 implies {
        &&& node.blocks[i].occupied()
        &&& node.blocks[i].active()
        &&& node.blocks[i].sequence != 0
        &&& i == node.active_head ==> after.active_head == node.active_head
    } by {
        assert(placed[i].occupied());
    }
    assert forall|c: int|
        0 <= c < node.blocks.len() && node.blocks[c].occupied() && node.blocks[c].active()
            && #[trigger] node.blocks[c].parent_ref != NONE_REF implies after.blocks[c].occupied()
        && after.blocks[c].active() && after.blocks[c].parent_ref == node.blocks[c].parent_ref by {
        assert(placed[c] == node.blocks[c]);
        assert(after.blocks[c].occupied());
    }
    lemma_led(node.blocks, after.blocks, node.active_head, after.active_head);
}

/// The branch count of every block is the number of its children, and one more
/// where it is a tip; a tip has no children, and a block without children is a
/// tip unless it is on the active chain.
pub proof fn tips_are_the_childless_blocks(node: NodeView, idx: u32)
    requires
        orderly(node),
        tree::present(node.blocks, idx),
    ensures
        node.blocks[idx as int].head_ref_count == fit::kids(node.blocks, idx) + fit::one_if(
            fit::is_tip(node.heads, idx),
        ),
        fit::is_tip(node.heads, idx) ==> tree::childless(node.blocks, idx),
        tree::childless(node.blocks, idx) && !node.blocks[idx as int].active() ==> fit::is_tip(
            node.heads,
            idx,
        ),
{
    let t = node.tips();
    assert(t.blocks[idx as int].occupied());
    if fit::is_tip(node.heads, idx) {
        let slot = choose|slot: int|
            0 <= slot < node.heads.len() && (#[trigger] node.heads[slot]).in_use()
                && node.heads[slot].head_idx == idx;
        assert(tree::childless(t.blocks, t.heads[slot].head_idx));
    }
}

/// A tick keeps a node orderly.
pub proof fn tick_keeps_order(node: NodeView, now: u64)
    requires
        orderly(node),
    ensures
        orderly(node.ticked(now).1),
{
    tick_keeps_branching(node, now);
    tip_laws::ticks_touch_timestamps_alone(node, now);
}

pub(crate) proof fn lemma_same_order(node: NodeView, after: NodeView)
    requires
        orderly(node),
        branching_node(after),
        processing::spending_only(node.blocks, after.blocks),
        after.heads.len() == node.heads.len(),
        after.active_head == node.active_head,
    ensures
        orderly(after),
{
    assert forall|i: int| 0 <= i < node.blocks.len() implies {
        &&& (#[trigger] after.blocks[i]).occupied() == node.blocks[i].occupied()
        &&& after.blocks[i].parent_ref == node.blocks[i].parent_ref
        &&& after.blocks[i].sequence == node.blocks[i].sequence
        &&& after.blocks[i].active() == node.blocks[i].active()
    } by {
        assert(after.blocks[i].unspent() == node.blocks[i].unspent());
    }
    lemma_led(node.blocks, after.blocks, node.active_head, node.active_head);
}

/// Deleting a block off the active chain, or the first block of the chain, with
/// its descendants keeps a node orderly where every leaf with a parent is a tip,
/// and keeps that.
pub proof fn deletion_keeps_order(node: NodeView, target: u32)
    requires
        orderly(node),
        branching_deletion::tracked_leaves(node.tips()),
        tree::present(node.blocks, target) ==> !node.blocks[target as int].active()
            || node.blocks[target as int].sequence == 0,
    ensures
        orderly(node.subtree_deleted(target)),
        branching_deletion::tracked_leaves(node.subtree_deleted(target).tips()),
{
    let s = node.blocks;
    coherence_laws::lemma_head_left(s, node.active_head, target);
    if tree::present(s, target) {
        let rest = tree::without_subtree(s, target);
        coherence_laws::lemma_without_subtree(s, target);
        eviction_laws::branch_counts_have_room(node.tips(), node.active_head);
        branching_deletion::deletion_keeps_branching(node.tips(), rest, target);
        let after = node.subtree_deleted(target);
        assert(after.tips() == tips::subtree_dropped(
            Tips { heads: node.heads, blocks: rest },
            tree::subtree(s, target),
            s[target as int].parent_ref,
        ));
        lemma_deleted_led(node, rest, after.blocks, target);
    }
}

proof fn lemma_deleted_led(
    node: NodeView,
    rest: Seq<BlockEntry>,
    blocks: Seq<BlockEntry>,
    target: u32,
)
    requires
        orderly(node),
        deletion_fit::rest_of(node.blocks, rest, target),
        tips::counts_only(rest, blocks),
        tree::present(node.blocks, target),
        !node.blocks[target as int].active() || node.blocks[target as int].sequence == 0,
    ensures
        eviction_laws::led_by(
            blocks,
            deletion_fit::head_left(node.blocks, node.active_head, target),
        ),
{
    let s = node.blocks;
    assert forall|i: int|
        0 <= i < s.len() && (#[trigger] blocks[i]).occupied() && blocks[i].active()
            && blocks[i].sequence != 0 implies {
        &&& s[i].occupied()
        &&& s[i].active()
        &&& s[i].sequence != 0
        &&& i == node.active_head ==> deletion_fit::head_left(s, node.active_head, target)
            == node.active_head
    } by {
        assert(blocks[i].with_count(0) == rest[i].with_count(0));
        assert(rest[i].occupied());
        assert(tree::present(rest, i as u32));
    }
    assert forall|c: int|
        0 <= c < s.len() && s[c].occupied() && s[c].active() && #[trigger] s[c].parent_ref
            != NONE_REF && s[c].parent_ref < blocks.len()
            && blocks[s[c].parent_ref as int].occupied() implies blocks[c].occupied()
        && blocks[c].active() && blocks[c].parent_ref == s[c].parent_ref by {
        let p = s[c].parent_ref;
        let child = c as u32;
        assert(blocks[p as int].with_count(0) == rest[p as int].with_count(0));
        assert(tree::present(rest, p));
        if tree::descends(s, child, target, s.len()) {
            assert(child != target);
            assert(tree::descends(s, p, target, (s.len() - 1) as nat));
            ancestry::bounded_walks_suffice(s, p, target, (s.len() - 1) as nat);
        }
        assert(tree::present(s, child));
        assert(tree::present(rest, child));
        assert(blocks[c].with_count(0) == rest[c].with_count(0));
        assert(rest[c].occupied());
    }
    lemma_led(s, blocks, node.active_head, deletion_fit::head_left(s, node.active_head, target));
}

/// While a node collects, every leaf with a parent is a tip, and only the first
/// block of the chain is on the active chain.
proof fn lemma_collecting(node: NodeView, prev: Seq<BlockHash>)
    requires
        coherence_laws::coherent_node(node, prev),
    ensures
        branching_deletion::tracked_leaves(node.tips()),
        eviction_laws::led_by(node.blocks, node.active_head),
        forall|i: int|
            0 <= i < node.blocks.len() && (#[trigger] node.blocks[i]).occupied()
                && node.blocks[i].active() ==> node.blocks[i].sequence == 0,
{
    let t = node.tips();
    assert forall|i: int|
        0 <= i < t.blocks.len() && (#[trigger] t.blocks[i]).occupied() && t.blocks[i].parent_ref
            != NONE_REF && tree::childless(t.blocks, i as u32) implies fit::is_tip(
        t.heads,
        i as u32,
    ) by {
        assert(t.blocks[i].sequence > 0);
        assert(!t.blocks[i].active());
    }
}

/// The recovery from a failed pass keeps a node orderly.
pub proof fn recovery_keeps_order(
    node: NodeView,
    prev: Seq<BlockHash>,
    error: ProcessingError,
    tip: u32,
)
    requires
        orderly(node),
        coherence_laws::coherent_node(node, prev),
    ensures
        orderly(node.recovered(error, tip)),
{
    let target = recovery::deletion_target(error, tip);
    let s = node.blocks;
    let rest = tree::without_subtree(s, target);
    let after = node.recovered(error, tip);
    coherence_laws::recovery_keeps_coherence(node, prev, error, tip);
    lemma_collecting(after, prev);
    lemma_collecting(node, prev);
    coherence_laws::lemma_without_subtree(s, target);
    coherence_laws::lemma_head_left(s, node.active_head, target);
    coherence_laws::lemma_marking(s, rest, node.active_head, target);
    let restored = recovery::marking_restored(rest);
    if tree::present(s, target) {
        eviction_laws::branch_counts_have_room(node.tips(), node.active_head);
        branching_deletion::deletion_keeps_branching(node.tips(), restored, target);
        assert(after.tips() == tips::subtree_dropped(
            Tips { heads: node.heads, blocks: restored },
            tree::subtree(s, target),
            s[target as int].parent_ref,
        ));
    } else {
        assert forall|idx: u32| !tree::descends(s, idx, target, s.len()) by {
            if tree::descends(s, idx, target, s.len()) {
                coherence_laws::lemma_descends_from_present(s, idx, target, s.len());
            }
        }
        assert(rest =~= s);
        assert(after.tips() == (Tips { heads: node.heads, blocks: restored }));
        assert forall|i: int| 0 <= i < s.len() implies {
            &&& (#[trigger] restored[i]).occupied() == s[i].occupied()
            &&& restored[i].parent_ref == s[i].parent_ref
            &&& restored[i].sequence == s[i].sequence
            &&& restored[i].head_ref_count == s[i].head_ref_count
            &&& restored[i].active() == s[i].active()
        } by {}
        lemma_same_branches(node.tips(), after.tips());
    }
}

/// Holding a candidate's configuration in place of the tentative one keeps a
/// node orderly.
pub proof fn adoption_keeps_order(
    node: NodeView,
    prev: Seq<BlockHash>,
    tip: u32,
    first: u32,
    block: ChainBlock,
)
    requires
        orderly(node),
        coherence_laws::coherent_node(node, prev),
    ensures
        orderly(node.adopted(tip, first, block)),
{
    let loaded = NodeView {
        config: node.config.loaded(
            block.config_content()->0,
            admission::accepted_parameters(block),
        ),
        config_source: first,
        vote_reset: true,
        ..node
    };
    lemma_collecting(node, prev);
    assert(loaded.tips() == node.tips());
    if tree::present(node.blocks, node.config_source) {
        assert(node.blocks[node.config_source as int].occupied());
    }
    deletion_keeps_order(loaded, node.config_source);
}

/// The blocks from `cur` down are promoted, each below an active one.
proof fn lemma_promoted_led(s: Seq<BlockEntry>, tip: u32, cur: u32, steps: nat)
    requires
        branching::rooted(s),
        eviction_laws::led_by(s, tip),
        cur == tip || eviction_laws::carries_active(s, cur),
    ensures
        eviction_laws::led_by(recovery::promoted(s, cur, steps), tip),
    decreases steps,
{
    if steps > 0 && tree::present(s, cur) {
        let entry = s[cur as int];
        let staged = entry.with_stage(BlockStatus::Active);
        let next = s.update(cur as int, staged.with_active(true));
        tree::lemma_status_bits(entry.flags, BlockStatus::Active);
        tree::lemma_active_bit(staged.flags);
        assert(next[cur as int].active());
        assert forall|i: int|
            0 <= i < next.len() && (#[trigger] next[i]).occupied() && next[i].active()
                && next[i].sequence != 0 && i != tip implies eviction_laws::carries_active(
            next,
            i as u32,
        ) by {
            assert(s[i].occupied());
            assert(eviction_laws::carries_active(s, i as u32));
            let c = choose|c: int|
                0 <= c < s.len() && (#[trigger] s[c]).occupied() && s[c].active()
                    && s[c].parent_ref == i as u32;
            assert(next[c].occupied() && next[c].active() && next[c].parent_ref == i as u32);
        }
        assert forall|i: int|
            0 <= i < next.len() && next[i].occupied() && #[trigger] next[i].parent_ref
                != NONE_REF implies tree::present(next, next[i].parent_ref)
            && next[next[i].parent_ref as int].sequence + 1 == next[i].sequence by {
            assert(s[i].parent_ref != NONE_REF);
        }
        if entry.parent_ref != NONE_REF {
            assert(next[cur as int].occupied() && next[cur as int].parent_ref == entry.parent_ref);
            assert(eviction_laws::carries_active(next, entry.parent_ref));
            lemma_promoted_led(next, tip, entry.parent_ref, (steps - 1) as nat);
        }
    }
}

/// Promoting a candidate of a collecting node to the active chain keeps the node
/// orderly.
pub proof fn promotion_keeps_order(node: NodeView, prev: Seq<BlockHash>, tip: u32)
    requires
        orderly(node),
        coherence_laws::coherent_node(node, prev),
    ensures
        orderly(node.activated(tip)),
        branching_deletion::tracked_leaves(node.activated(tip).tips()),
{
    let after = node.activated(tip);
    lemma_collecting(node, prev);
    promotion_keeps_branching(node, tip);
    lemma_promoted_led(node.blocks, tip, tip, node.blocks.len());
    lemma_promoted(node.blocks, node.blocks, tip, node.blocks.len());
    let s = node.blocks;
    let b = after.blocks;
    assert forall|i: int|
        0 <= i < b.len() && (#[trigger] after.tips().blocks[i]).occupied() && b[i].parent_ref
            != NONE_REF && tree::childless(b, i as u32) implies fit::is_tip(
        after.heads,
        i as u32,
    ) by {
        assert(b[i].occupied() == s[i].occupied());
        assert forall|j: int|
            0 <= j < s.len() && s[j].occupied() implies #[trigger] s[j].parent_ref != i as u32 by {
            assert(b[j].occupied() == s[j].occupied());
            assert(b[j].parent_ref != i as u32);
        }
        assert(tree::childless(s, i as u32));
        assert(node.tips().blocks[i].occupied());
    }
}

proof fn lemma_mismatches_deleted(
    node: NodeView,
    contents: Seq<Option<Seq<u8>>>,
    from: int,
    end: int,
)
    requires
        orderly(node),
        branching_deletion::tracked_leaves(node.tips()),
        0 <= from,
        end <= NONE_REF,
    ensures
        orderly(node.mismatches_deleted(contents, from, end)),
        branching_deletion::tracked_leaves(node.mismatches_deleted(contents, from, end).tips()),
    decreases end - from,
{
    if from < end {
        if node.blocks[from].occupied() && node.blocks[from].kind() == PAYLOAD_TYPE_CHAIN_CONFIG
            && !node.blocks[from].active() && recovery::content_differs(
            node.config.durable(),
            contents[from],
        ) {
            deletion_keeps_order(node, from as u32);
            lemma_mismatches_deleted(node.subtree_deleted(from as u32), contents, from + 1, end);
        } else {
            lemma_mismatches_deleted(node, contents, from + 1, end);
        }
    }
}

proof fn lemma_oversized_deleted(node: NodeView, limit: u16, from: int, end: int)
    requires
        orderly(node),
        branching_deletion::tracked_leaves(node.tips()),
        0 <= from,
        end <= NONE_REF,
    ensures
        orderly(node.oversized_deleted(limit, from, end)),
    decreases end - from,
{
    if from < end {
        if node.blocks[from].occupied() && !node.blocks[from].active() && node.blocks[from].len
            > limit {
            deletion_keeps_order(node, from as u32);
            lemma_oversized_deleted(node.subtree_deleted(from as u32), limit, from + 1, end);
        } else {
            lemma_oversized_deleted(node, limit, from + 1, end);
        }
    }
}

/// Locking a candidate's configuration makes a node ready that is orderly.
pub proof fn locking_keeps_order(
    node: NodeView,
    prev: Seq<BlockHash>,
    run: RunView,
    tip: u32,
    block: Option<ChainBlock>,
    written: bool,
    contents: Seq<Option<Seq<u8>>>,
)
    requires
        orderly(node),
        coherence_laws::coherent_node(node, prev),
    ensures
        orderly(node.concluded(run, tip, block, written, contents).node),
{
    if node.commits(block) && written {
        let committed = node.committed();
        assert(committed.tips() == node.tips());
        promotion_keeps_order(committed, prev, tip);
        let active = committed.activated(tip);
        let end = active.blocks.len() as int;
        lemma_mismatches_deleted(active, contents, 0, end);
        lemma_oversized_deleted(
            active.mismatches_deleted(contents, 0, end),
            active.enforceable_limit(),
            0,
            end,
        );
    } else {
        abandonment_keeps_branching(node);
        assert forall|i: int| 0 <= i < node.blocks.len() implies (
        #[trigger] node.abandoned().blocks[i]).unspent() == node.blocks[i].unspent() by {}
        lemma_same_order(node, node.abandoned());
    }
}

/// Every step of an acquisition keeps a node orderly, the one that makes it
/// ready included.
pub proof fn acquisition_keeps_order(
    node: NodeView,
    prev: Seq<BlockHash>,
    window: u32,
    run: RunView,
    event: AcquisitionEvent,
)
    requires
        orderly(node),
        coherence_laws::coherent_node(node, prev),
    ensures
        orderly(node.advanced(window, run, event).node),
{
    match (run.stage, event) {
        (
            StageView::Examining { tip },
            AcquisitionEvent::Examined { reads, vote_failure },
        ) => {
            let stop = processing::vote_stop(vote_failure);
            let passed = node.passed(tip, reads@, stop, derivation::all_hold()).node;
            pass_keeps_branching(node, tip, reads@, stop, derivation::all_hold());
            processing::pass_only_spends(node, tip, reads@, stop, derivation::all_hold());
            lemma_same_order(node, passed);
        },
        (
            StageView::Verifying { tip, reads, segment, checks, failure },
            AcquisitionEvent::Verified { verdicts },
        ) => {
            let (settled, outcome) = node.settled(segment, checks, failure, verdicts@);
            processing::clearing_only_spends(node.blocks, node.blocks, segment, 0);
            lemma_spending(node, settled);
            lemma_same_order(node, settled);
            coherence_laws::lemma_spending(node, settled, prev);
            lemma_verified(settled, prev, run, tip, outcome, segment, reads);
        },
        (
            StageView::Committing { tip },
            AcquisitionEvent::Committed { block, written, contents },
        ) => {
            locking_keeps_order(
                node,
                prev,
                run,
                tip,
                block,
                written,
                recovery::content_views(contents@),
            );
        },
        _ => {},
    }
}

/// What follows the verdicts on the signatures keeps a node orderly.
proof fn lemma_verified(
    settled: NodeView,
    prev: Seq<BlockHash>,
    run: RunView,
    tip: u32,
    outcome: Option<ProcessingError>,
    segment: Seq<u32>,
    reads: Seq<Option<ChainBlock>>,
)
    requires
        orderly(settled),
        coherence_laws::coherent_node(settled, prev),
    ensures
        outcome is None ==> orderly(settled.accepted(run, tip).node),
        outcome matches Some(error) ==> orderly(settled.recovered(error, tip)) && orderly(
            settled.adopted(
                tip,
                settled.scanned(tip, NONE_REF).0,
                settled.config_read(segment, reads)->0,
            ),
        ),
{
    match outcome {
        None => {
            abandonment_keeps_branching(settled);
            assert forall|i: int| 0 <= i < settled.blocks.len() implies (
            #[trigger] settled.abandoned().blocks[i]).unspent() == settled.blocks[i].unspent() by {}
            lemma_same_order(settled, settled.abandoned());
            promotion_keeps_order(settled, prev, tip);
            let offender = recovery::oversized(
                settled.blocks,
                tip,
                settled.declared_limit(),
                settled.blocks.len(),
                None,
            )->0;
            recovery_keeps_order(
                settled,
                prev,
                ProcessingError::Invalid {
                    block_idx: offender,
                    reason: ValidationReason::BlockTooLarge,
                },
                tip,
            );
        },
        Some(error) => {
            recovery_keeps_order(settled, prev, error, tip);
            adoption_keeps_order(
                settled,
                prev,
                tip,
                settled.scanned(tip, NONE_REF).0,
                settled.config_read(segment, reads)->0,
            );
        },
    }
}

/// A founding block that enters an orderly tree leaves it orderly.
proof fn lemma_founding_block(
    node: NodeView,
    idx: u32,
    block: ChainBlock,
    parent: Option<u32>,
    previous_hash: BlockHash,
)
    requires
        orderly(node),
        node.heads.len() >= 2,
        idx < node.blocks.len(),
        !node.blocks[idx as int].occupied(),
        idx != NONE_REF,
        forall|i: int|
            0 <= i < node.blocks.len() && (#[trigger] node.blocks[i]).occupied()
                ==> node.blocks[i].sequence == 0,
        match parent {
            Some(slot) => tree::present(node.blocks, slot) && idx == 1,
            None => true,
        },
    ensures
        ({
            let after = node.founding_block_entered(idx, block, parent, previous_hash);
            &&& orderly(after)
            &&& after.heads.len() == node.heads.len()
            &&& after.blocks.len() == node.blocks.len()
            &&& after.blocks[idx as int].is_block(idx, block.hash)
            &&& forall|i: int|
                0 <= i < node.blocks.len() && (#[trigger] after.blocks[i]).occupied() ==> i == idx
                    || node.blocks[i].occupied()
        }),
{
    let t = node.tips();
    let parent_ref = match parent {
        Some(slot) => slot,
        None => NONE_REF,
    };
    let entry = genesis::founding_entry(block, parent_ref, idx);
    let after = node.founding_block_entered(idx, block, parent, previous_hash);
    let placed = node.blocks.update(idx as int, entry);
    if let Some(slot) = parent {
        assert(node.blocks[slot as int].occupied());
    }
    assert(branching::entering(t, idx, entry, parent));
    eviction_laws::branch_counts_have_room(t, node.active_head);
    branching::admission_keeps_branching(t, idx, entry, parent, previous_hash, 0, idx);
    tips::admission_spares_the_active_chain(
        Tips { heads: node.heads, blocks: placed },
        idx,
        parent,
        previous_hash,
        0,
        idx,
    );
    assert(tips::tips_only(placed, after.blocks));
    assert forall|i: int|
        0 <= i < node.blocks.len() && (#[trigger] after.blocks[i]).occupied() implies i == idx
        || node.blocks[i].occupied() && after.blocks[i].sequence == 0 by {
        assert(placed[i].occupied());
    }
}

/// A node with room for two tips that founded its chain is orderly.
pub proof fn founding_is_orderly(
    node: NodeView,
    control_plane_ready: bool,
    content: Seq<u8>,
    accepted: Option<ConfigParameters>,
    block_zero: ChainBlock,
    block_one: ChainBlock,
    writes: GenesisWrites,
)
    requires
        orderly(node),
        node.heads.len() >= 2,
        node.blocks.len() >= 2,
    ensures
        orderly(
            node.founded(
                control_plane_ready,
                content,
                accepted,
                block_zero,
                block_one,
                writes,
            ).0,
        ),
{
    if node.genesis_obstacle(control_plane_ready, content) is None {
        let tentative = NodeView { config: node.config.loaded(content, accepted), ..node };
        assert(tentative.tips() == node.tips());
        genesis::lemma_no_block(node.blocks);
        assert(!node.blocks[0].occupied() && !node.blocks[1].occupied());
        lemma_founding_block(tentative, 0, block_zero, None, hash::zero_hash());
        let anchored = tentative.founding_block_entered(0, block_zero, None, hash::zero_hash());
        assert(!anchored.blocks[1].occupied());
        let locked = NodeView {
            config: anchored.config.promoted(),
            vote_reset: true,
            ..anchored
        };
        assert(locked.tips() == anchored.tips());
        lemma_founding_block(locked, 1, block_one, Some(0), block_zero.hash);
    }
}

// -- Restart -----------------------------------------------------------------

/// Giving the childless blocks their slots, one after the other.
proof fn lemma_leaves_inserted(
    t: Tips,
    base: Seq<BlockEntry>,
    prev: Seq<BlockHash>,
    active_head: u32,
    idx: int,
    now: u64,
)
    requires
        branching::sprouted(t, rebuild_fit::leaves_from(base, idx)),
        t.heads.len() >= 2,
        base.len() == t.blocks.len(),
        0 <= idx <= base.len(),
    ensures
        ({
            let after = tips::leaves_inserted(t, base, idx, prev, now, active_head);
            &&& branching::branching(after)
            &&& after.heads.len() == t.heads.len()
        }),
    decreases base.len() - idx,
{
    let late = rebuild_fit::leaves_from(base, idx);
    if idx < base.len() {
        let x = idx as u32;
        let next_late = rebuild_fit::leaves_from(base, idx + 1);
        assert(next_late =~= late.remove(x)) by {
            assert forall|h: u32| next_late.contains(h) <==> late.remove(x).contains(h) by {}
        }
        if base[idx].occupied() && tree::childless(base, x) {
            assert(late.contains(x));
            assert(tree::present(t.blocks, x));
            branching::lemma_room(t, active_head, late);
            branching::lemma_tip_inserted(t, late, x, now, prev[idx], active_head);
            let next = tips::tip_inserted(t, x, now, prev[idx], active_head);
            lemma_leaves_inserted(next, base, prev, active_head, idx + 1, now);
        } else {
            assert(!late.contains(x));
            assert(next_late =~= late);
            lemma_leaves_inserted(t, base, prev, active_head, idx + 1, now);
        }
    } else {
        assert(late =~= Set::<u32>::empty());
    }
}

/// The tree whose childless blocks are all counted, and none of them a tip yet.
pub(crate) proof fn lemma_leaves_counted(
    vacant_heads: Seq<ChainHeadEntry>,
    blocks: Seq<BlockEntry>,
    prev: Seq<BlockHash>,
)
    requires
        fit::linked(blocks, prev),
        counts::kids_fit(blocks),
        forall|i: int| 0 <= i < vacant_heads.len() ==> !(#[trigger] vacant_heads[i]).in_use(),
    ensures
        ({
            let start = tree::uncounted(blocks);
            let counted = tips::leaves_counted(start, start, 0);
            &&& counted.len() == start.len()
            &&& branching::sprouted(
                Tips { heads: vacant_heads, blocks: counted },
                rebuild_fit::leaves_from(start, 0),
            )
        }),
{
    let start = tree::uncounted(blocks);
    let none = Set::<u32>::empty();
    counts::lemma_uncounted(blocks);
    counts::lemma_counts_only(blocks, start, prev);
    assert(rebuild_fit::leaves_below(start, 0) =~= none);
    assert(tips::counts_only(start, start));
    rebuild_fit::lemma_leaves_counted(start, start, prev, 0);
    let counted = tips::leaves_counted(start, start, 0);
    let all = rebuild_fit::leaves_below(start, start.len() as int);
    counts::lemma_counts_only(start, counted, prev);
    let t = Tips { heads: vacant_heads, blocks: counted };
    let late = rebuild_fit::leaves_from(start, 0);
    assert(late =~= all);
    assert forall|h: u32| !fit::is_tip(vacant_heads, h) by {}
    assert(branching::rooted(counted));
    assert forall|i: int|
        0 <= i < counted.len() && (#[trigger] counted[i]).occupied() && tree::childless(
            counted,
            i as u32,
        ) implies all.contains(i as u32) by {
        assert(tree::present(counted, i as u32));
    }
    assert forall|idx: u32| #[trigger] late.contains(idx) implies tree::present(counted, idx)
        && tree::childless(counted, idx) by {}
    assert forall|i: int|
        0 <= i < counted.len() && (
        #[trigger] counted[i]).occupied() implies counted[i].head_ref_count == fit::branches(
        t,
        late,
        i as u32,
    ) by {
        let idx = i as u32;
        assert forall|j: int|
            0 <= j < counted.len() && fit::child_of(
                #[trigger] counted[j],
                idx,
            ) implies counted[j].head_ref_count > 0 by {
            assert(counted[j].parent_ref == idx);
            branching_deletion::lemma_reached(counted, all, j as u32);
        }
        counts::lemma_reached_all(counted, idx);
    }
}

/// A node that was built from its stored blocks is orderly, provided that no
/// block has more children than a branch count can hold.
pub proof fn restart_is_orderly(node: NodeView, slots: Seq<Option<ChainBlock>>, now: u64)
    requires
        node.treeless(),
        node.blocks.len() <= NONE_REF,
        slots.len() <= node.blocks.len(),
        2 <= node.heads.len() <= 253,
        counts::kids_fit(node.retained_tree(slots)),
    ensures
        orderly(node.rebuilt(slots, now)),
{
    let prev = restart::previous_hashes(slots, node.blocks.len());
    let s = restart::linked(restart::materialized(node.blocks, slots, 0), slots, 0);
    let retained = node.retained_tree(slots);
    let active_head = match recovery::genesis_slot(s, 0) {
        Some(idx) => idx,
        None => NONE_REF,
    };
    let heads = Seq::new(node.heads.len(), |i: int| ChainHeadEntry::vacant());
    coherence_laws::lemma_retained_tree(node, slots);
    recovery::genesis_slot_is_first(s, 0);
    let start = tree::uncounted(retained);
    let counted = tips::leaves_counted(start, start, 0);
    let t = Tips { heads, blocks: counted };
    lemma_leaves_counted(heads, retained, prev);
    lemma_leaves_inserted(t, start, prev, active_head, 0, now);
    let placed = tips::leaves_inserted(t, start, 0, prev, now, active_head);
    let after = node.rebuilt(slots, now);
    assert(after.tips() == tips::rebuilt(heads, retained, prev, now, active_head));
    lemma_same_tips(placed, after.tips());
    tips::rebuild_spares_the_active_chain(heads, retained, prev, now, active_head);
    assert forall|i: int|
        0 <= i < after.blocks.len() && (#[trigger] after.blocks[i]).occupied()
            && after.blocks[i].active() && after.blocks[i].sequence != 0 && i
            != after.active_head implies eviction_laws::carries_active(
        after.blocks,
        i as u32,
    ) by {
        assert(retained[i].occupied());
        assert(retained[i].sequence == s[i].sequence);
    }
}

} // verus!
