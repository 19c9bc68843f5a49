//! What a node keeps through every submission and every tick, with room for one
//! tip or for more.

use vstd::prelude::*;

use crate::admission;
use crate::api::{NextCall, NodeView, ReceiveBlockOutcome};
use crate::block_data::ChainBlock;
use crate::blocks as tree;
use crate::blocks::{BlockEntry, NONE_REF};
use crate::branching;
use crate::branching_laws;
use crate::chain_heads as tips;
use crate::chain_heads::{ChainHeadEntry, Tips};
use crate::clock_laws;
use crate::clock_laws::{Call, Situation};
use crate::coherence as fit;
use crate::coherence_laws;
use crate::coherent_counts as counts;
use crate::coherent_rebuild as rebuild_fit;
use crate::config_state::ConfigParameters;
use crate::derivation::{CheckView, VoteEngineError};
use crate::genesis;
use crate::genesis::GenesisWrites;
use crate::hash;
use crate::hash::BlockHash;
use crate::intake;
use crate::processing;
use crate::recovery;
use crate::restart;
use crate::single_tip;
use crate::tip_laws;

verus! {

/// The node's tips fit its tree: with room for two tips and more, the node is
/// orderly; with room for one, what that tip needs is kept.
pub open spec fn steady(node: NodeView) -> bool {
    if node.heads.len() == 1 {
        single_tip::single(node.tips())
    } else {
        branching_laws::orderly(node)
    }
}

/// With every branch counted, what the one tip needs is kept.
proof fn lemma_counted(t: Tips, late: Set<u32>)
    requires
        branching::sprouted(t, late),
        t.heads.len() == 1,
    ensures
        single_tip::single(t),
{
    let s = t.blocks;
    assert forall|i: int|
        0 <= i < s.len() && (#[trigger] s[i]).occupied() implies s[i].head_ref_count
        >= fit::kids(s, i as u32) && (!s[i].active() ==> s[i].head_ref_count >= 1) by {
        fit::lemma_kids_childless(s, i as u32);
        assert(s[i].head_ref_count == fit::branches(t, late, i as u32));
    }
    if t.heads[0].in_use() {
        let h = t.heads[0].head_idx;
        assert forall|p: u32| #[trigger]
            single_tip::sheds(s, h, p, s.len()) && !s[p as int].active() && fit::kids(s, p)
                >= 2 implies s[p as int].head_ref_count >= 2 by {
            single_tip::lemma_sheds_lower(s, h, p, s.len());
            assert(s[p as int].occupied());
        }
    }
}

/// An orderly node is steady.
pub proof fn orderly_node_is_steady(node: NodeView)
    requires
        branching_laws::orderly(node),
    ensures
        steady(node),
{
    if node.heads.len() == 1 {
        lemma_counted(node.tips(), Set::empty());
    }
}

/// A node that has seen nothing is steady.
pub proof fn fresh_node_is_steady(node: NodeView)
    requires
        node.treeless(),
        forall|i: int| 0 <= i < node.heads.len() ==> !(#[trigger] node.heads[i]).in_use(),
        node.blocks.len() <= NONE_REF,
        1 <= node.heads.len() <= 253,
    ensures
        steady(node),
{
    branching_laws::fresh_node_is_orderly(node);
    orderly_node_is_steady(node);
}

/// Admitting a block keeps a node steady, in every phase, and the block stands in
/// the tree at the slot that is returned: no eviction takes it, nor a block that
/// it stands on.
pub proof fn admission_keeps_steady(node: NodeView, block: ChainBlock, now: u64)
    requires
        steady(node),
        node.admit_refusal(block) is None,
    ensures
        steady(node.admitted(block, now)),
        node.admitted(block, now).blocks.len() == node.blocks.len(),
        node.admit_result(block, true) matches Ok(slot) && slot < node.blocks.len()
            && node.admitted(block, now).blocks[slot as int].is_block(block.sequence, block.hash),
{
    if node.heads.len() == 1 {
        lemma_single_admitted(node, block, now);
    } else {
        branching_laws::admission_keeps_order(node, block, now);
    }
}

proof fn lemma_single_admitted(node: NodeView, block: ChainBlock, now: u64)
    requires
        single_tip::single(node.tips()),
        node.admit_refusal(block) is None,
    ensures
        single_tip::single(node.admitted(block, now).tips()),
        node.admitted(block, now).heads.len() == 1,
        node.admitted(block, now).blocks.len() == node.blocks.len(),
        node.admit_result(block, true) matches Ok(slot) && slot < node.blocks.len()
            && node.admitted(block, now).blocks[slot as int].is_block(block.sequence, block.hash),
{
    let idx = tree::free_slot(node.blocks, 0)->0;
    let parent = tree::parent_slot(node.blocks, block.previous_hash, block.sequence);
    let entry = admission::admitted_entry(block, parent);
    coherence_laws::lemma_admitted_entry(block, parent);
    tree::free_slot_is_first(node.blocks, 0);
    if block.sequence != 0 {
        tree::slot_of_is_first(
            node.blocks,
            (block.sequence - 1) as u32,
            block.previous_hash,
            0,
        );
    }
    assert(single_tip::entering(node.tips(), idx, entry, parent));
    let active_head = if block.sequence == 0 {
        idx
    } else {
        node.active_head
    };
    single_tip::single_tip_takes_blocks_in(
        node.tips(),
        idx,
        entry,
        parent,
        block.previous_hash,
        now,
        active_head,
    );
}

/// A block whose submission is accepted stands in the tree afterwards, at the
/// slot that storage was asked for; submitted again, it is a duplicate.
pub proof fn accepted_block_is_in_the_tree(
    node: NodeView,
    block: ChainBlock,
    window: Option<(u32, u32)>,
    w: u32,
    saved: bool,
    now: u64,
)
    requires
        steady(node),
        node.classified(block, window, w, saved) == ReceiveBlockOutcome::AcceptedSilently,
    ensures
        ({
            let after = node.admitted(block, now);
            &&& steady(after)
            &&& node.admit_result(block, true) matches Ok(slot) && slot < after.blocks.len()
                && after.blocks[slot as int].is_block(block.sequence, block.hash)
            &&& tree::slot_of(after.blocks, block.sequence, block.hash, 0) is Some
            &&& after.classified(block, window, w, saved) == ReceiveBlockOutcome::DuplicateKnown
        }),
{
    lemma_accepted(node, block, window, w, saved);
    admission_keeps_steady(node, block, now);
    lemma_steady_size(node.admitted(block, now));
    lemma_found_again(node, node.admitted(block, now), block, window, w, saved);
}

proof fn lemma_accepted(
    node: NodeView,
    block: ChainBlock,
    window: Option<(u32, u32)>,
    w: u32,
    saved: bool,
)
    requires
        node.classified(block, window, w, saved) == ReceiveBlockOutcome::AcceptedSilently,
    ensures
        node.admit_refusal(block) is None,
{
}

proof fn lemma_found_again(
    node: NodeView,
    after: NodeView,
    block: ChainBlock,
    window: Option<(u32, u32)>,
    w: u32,
    saved: bool,
)
    requires
        after.blocks.len() <= NONE_REF,
        node.admit_result(block, true) matches Ok(slot) && slot < after.blocks.len()
            && after.blocks[slot as int].is_block(block.sequence, block.hash),
    ensures
        tree::slot_of(after.blocks, block.sequence, block.hash, 0) is Some,
        after.classified(block, window, w, saved) == ReceiveBlockOutcome::DuplicateKnown,
{
    let slot = node.admit_result(block, true)->Ok_0;
    lemma_found(after.blocks, slot, block.sequence, block.hash);
    intake::duplicates_come_first(after, block, window, w, saved);
}

proof fn lemma_found(s: Seq<BlockEntry>, slot: u32, sequence: u32, hash: BlockHash)
    requires
        s.len() <= NONE_REF,
        slot < s.len(),
        s[slot as int].is_block(sequence, hash),
    ensures
        tree::slot_of(s, sequence, hash, 0) is Some,
{
    tree::slot_of_is_first(s, sequence, hash, 0);
}


proof fn lemma_steady_size(node: NodeView)
    requires
        steady(node),
    ensures
        node.blocks.len() <= NONE_REF,
        node.heads.len() >= 1,
{
}

/// A tick keeps a node steady.
pub proof fn tick_keeps_steady(node: NodeView, now: u64)
    requires
        steady(node),
    ensures
        steady(node.ticked(now).1),
{
    tip_laws::ticks_touch_timestamps_alone(node, now);
    let after = node.ticked(now).1;
    if node.heads.len() == 1 {
        assert((ChainHeadEntry {
            last_request_timestamp: node.heads[0].last_request_timestamp,
            ..after.heads[0]
        }) == node.heads[0]);
    } else {
        branching_laws::tick_keeps_order(node, now);
    }
}

// -- The announced instant ---------------------------------------------------

/// Whether `next` is what the node's ticks come to: a tick emits a request from
/// that instant on and not before, and none at all where none is announced; a
/// tick that emits nothing changes nothing.
pub open spec fn announces(node: NodeView, next: NextCall) -> bool {
    forall|t: u64|
        match next {
            NextCall::At(instant) => ((#[trigger] node.ticked(t)).0 is SendParentRecoveryRequest)
                == (t >= instant),
            NextCall::Idle => node.ticked(t).0 is Idle,
        } && (node.ticked(t).0 is Idle ==> node.ticked(t).1 == node)
}

/// The announced instant is exact, in every phase. Every tip that waits for a
/// parent, and the lowest block of its branch, are in the tree.
pub proof fn announced_instant_is_exact(node: NodeView)
    requires
        steady(node) || branching_laws::branching_node(node),
    ensures
        tip_laws::waiting_tips_in_tree(node),
        announces(node, node.next_call()),
{
    let t = node.tips();
    assert forall|i: int|
        0 <= i < node.heads.len() && (#[trigger] node.heads[i]).waiting() implies tree::present(
        node.blocks,
        node.heads[i].head_idx,
    ) && tree::present(node.blocks, node.heads[i].tail_or_connection_idx) by {
        assert(t.heads[i].in_use());
        if node.heads.len() == 1 {
            assert(i == 0);
        }
        branching::lemma_descends_lower(
            t.blocks,
            t.heads[i].head_idx,
            t.heads[i].tail_or_connection_idx,
            t.blocks.len(),
        );
    }
    assert forall|t: u64|
        match node.next_call() {
            NextCall::At(instant) => ((#[trigger] node.ticked(t)).0 is SendParentRecoveryRequest)
                == (t >= instant),
            NextCall::Idle => node.ticked(t).0 is Idle,
        } && (node.ticked(t).0 is Idle ==> node.ticked(t).1 == node) by {
        tip_laws::next_call_is_exact(node, t);
        tip_laws::ticks_touch_timestamps_alone(node, t);
    }
}

/// Submissions and ticks keep a node steady, whatever they bring, so that after
/// each of them the announced instant is exact.
pub proof fn instants_are_exact_along_a_run(
    start: Situation,
    w: u32,
    calls: Seq<Call>,
    times: Seq<u64>,
    n: nat,
)
    requires
        steady(start.node),
        n <= calls.len(),
        forall|i: int| 0 <= i < n ==> (#[trigger] calls[i]) is Receive || calls[i] is Tick,
    ensures
        ({
            let node = clock_laws::after_calls(start, w, calls, times, n).node;
            &&& steady(node)
            &&& announces(node, node.next_call())
        }),
    decreases n,
{
    if n > 0 {
        instants_are_exact_along_a_run(start, w, calls, times, (n - 1) as nat);
        let before = clock_laws::after_calls(start, w, calls, times, (n - 1) as nat).node;
        assert(calls[n - 1] is Receive || calls[n - 1] is Tick);
        match calls[n - 1] {
            Call::Receive { block, saved } => {
                if before.classified(block, None, w, saved)
                    == ReceiveBlockOutcome::AcceptedSilently {
                    lemma_accepted(before, block, None, w, saved);
                    admission_keeps_steady(before, block, times[n - 1]);
                }
            },
            Call::Tick => {
                tick_keeps_steady(before, times[n - 1]);
            },
            _ => {},
        }
    }
    announced_instant_is_exact(clock_laws::after_calls(start, w, calls, times, n).node);
}

// -- Marks and spent bits ----------------------------------------------------

proof fn lemma_sheds_marked(
    s: Seq<BlockEntry>,
    other: Seq<BlockEntry>,
    cur: u32,
    idx: u32,
    steps: nat,
)
    requires
        branching_laws::same_branches(s, other),
        single_tip::sheds(other, cur, idx, steps),
    ensures
        single_tip::sheds(s, cur, idx, steps),
    decreases steps,
{
    assert(other[cur as int].occupied() == s[cur as int].occupied());
    if cur != idx {
        lemma_sheds_marked(s, other, other[cur as int].parent_ref, idx, (steps - 1) as nat);
    }
}

/// Marks do not bear on what the one tip needs, as long as no block leaves the
/// active chain.
proof fn lemma_single_marked(t: Tips, other: Tips)
    requires
        single_tip::single(t),
        other.heads == t.heads,
        branching_laws::same_branches(t.blocks, other.blocks),
    ensures
        single_tip::single(other),
{
    let s = t.blocks;
    let b = other.blocks;
    assert forall|idx: u32| #[trigger] fit::kids(b, idx) == fit::kids(s, idx) by {
        assert forall|j: int| 0 <= j < b.len() implies fit::child_of(#[trigger] b[j], idx)
            == fit::child_of(s[j], idx) by {}
        fit::lemma_kids_same(b, s, idx);
    }
    assert forall|i: int|
        0 <= i < b.len() && b[i].occupied() && #[trigger] b[i].parent_ref
            != NONE_REF implies tree::present(b, b[i].parent_ref)
        && b[b[i].parent_ref as int].sequence + 1 == b[i].sequence by {
        assert(s[i].parent_ref != NONE_REF);
        let p = s[i].parent_ref as int;
        assert(b[p].occupied() == s[p].occupied());
    }
    assert forall|i: int|
        0 <= i < b.len() && (#[trigger] b[i]).occupied()
            && !b[i].active() implies b[i].head_ref_count >= 1 by {
        assert(s[i].occupied());
    }
    if t.heads[0].in_use() {
        let h = t.heads[0].head_idx;
        assert(b[h as int].occupied() == s[h as int].occupied());
        fit::lemma_kids_childless(b, h);
        fit::lemma_kids_childless(s, h);
        assert(fit::kids(b, h) == fit::kids(s, h));
        branching_laws::lemma_same_walks(s, b, h, t.heads[0].tail_or_connection_idx, s.len());
        assert forall|p: u32| #[trigger]
            single_tip::sheds(b, h, p, b.len()) && !b[p as int].active() && fit::kids(b, p)
                >= 2 implies b[p as int].head_ref_count >= 2 by {
            lemma_sheds_marked(s, b, h, p, b.len());
            single_tip::lemma_sheds_lower(s, h, p, s.len());
            assert(b[p as int].occupied() == s[p as int].occupied());
            assert(fit::kids(b, p) == fit::kids(s, p));
        }
    }
}

/// A pass over a candidate keeps a node steady, whatever it finds.
pub proof fn pass_keeps_steady(
    node: NodeView,
    tip: u32,
    reads: Seq<Option<ChainBlock>>,
    vote_failure: Option<(int, VoteEngineError)>,
    holds: spec_fn(CheckView) -> bool,
)
    requires
        steady(node),
    ensures
        steady(node.passed(tip, reads, vote_failure, holds).node),
{
    processing::pass_only_spends(node, tip, reads, vote_failure, holds);
    lemma_spending(node, node.passed(tip, reads, vote_failure, holds).node);
}

/// Giving up a candidate keeps a node steady.
pub proof fn abandonment_keeps_steady(node: NodeView)
    requires
        steady(node),
    ensures
        steady(node.abandoned()),
{
    assert forall|i: int| 0 <= i < node.blocks.len() implies (
    #[trigger] node.abandoned().blocks[i]).unspent() == node.blocks[i].unspent() by {}
    lemma_spending(node, node.abandoned());
}

proof fn lemma_spending(node: NodeView, after: NodeView)
    requires
        steady(node),
        processing::spending_only(node.blocks, after.blocks),
        after.heads == node.heads,
        after.active_head == node.active_head,
    ensures
        steady(after),
{
    if node.heads.len() == 1 {
        assert forall|i: int| 0 <= i < node.blocks.len() implies {
            &&& (#[trigger] after.blocks[i]).occupied() == node.blocks[i].occupied()
            &&& after.blocks[i].parent_ref == node.blocks[i].parent_ref
            &&& after.blocks[i].sequence == node.blocks[i].sequence
            &&& after.blocks[i].head_ref_count == node.blocks[i].head_ref_count
            &&& after.blocks[i].active() == node.blocks[i].active()
        } by {
            assert(after.blocks[i].unspent() == node.blocks[i].unspent());
        }
        lemma_single_marked(node.tips(), after.tips());
    } else {
        branching_laws::lemma_spending(node, after);
        branching_laws::lemma_same_order(node, after);
    }
}

/// Promoting a candidate keeps the one tip of a node fit for the tree.
pub proof fn promotion_keeps_single(node: NodeView, tip: u32)
    requires
        single_tip::single(node.tips()),
    ensures
        single_tip::single(node.activated(tip).tips()),
{
    branching_laws::lemma_promoted(node.blocks, node.blocks, tip, node.blocks.len());
    lemma_single_marked(node.tips(), node.activated(tip).tips());
}

// -- Founding and restart ----------------------------------------------------

proof fn lemma_founding_block(
    node: NodeView,
    idx: u32,
    block: ChainBlock,
    parent: Option<u32>,
    previous_hash: BlockHash,
)
    requires
        single_tip::single(node.tips()),
        idx < node.blocks.len(),
        !node.blocks[idx as int].occupied(),
        match parent {
            Some(slot) => tree::present(node.blocks, slot) && node.blocks[slot as int].sequence + 1
                == idx,
            None => true,
        },
    ensures
        ({
            let after = node.founding_block_entered(idx, block, parent, previous_hash);
            &&& single_tip::single(after.tips())
            &&& after.blocks.len() == node.blocks.len()
            &&& after.blocks[idx as int].is_block(idx, block.hash)
            &&& forall|i: int|
                0 <= i < node.blocks.len() && (#[trigger] after.blocks[i]).occupied() ==> i == idx
                    || node.blocks[i].occupied()
        }),
{
    let parent_ref = match parent {
        Some(slot) => slot,
        None => NONE_REF,
    };
    let entry = genesis::founding_entry(block, parent_ref, idx);
    let after = node.founding_block_entered(idx, block, parent, previous_hash);
    let placed = node.blocks.update(idx as int, entry);
    assert(single_tip::entering(node.tips(), idx, entry, parent));
    single_tip::single_tip_takes_blocks_in(
        node.tips(),
        idx,
        entry,
        parent,
        previous_hash,
        0,
        idx,
    );
    tips::admission_spares_the_active_chain(
        Tips { heads: node.heads, blocks: placed },
        idx,
        parent,
        previous_hash,
        0,
        idx,
    );
    assert(tips::tips_only(placed, after.blocks));
    assert forall|i: int|
        0 <= i < node.blocks.len() && (#[trigger] after.blocks[i]).occupied() implies i == idx
        || node.blocks[i].occupied() by {
        assert(placed[i].occupied());
    }
}

/// A node that founds its chain stays steady, whether or not it succeeds.
pub proof fn founding_keeps_steady(
    node: NodeView,
    control_plane_ready: bool,
    content: Seq<u8>,
    accepted: Option<ConfigParameters>,
    block_zero: ChainBlock,
    block_one: ChainBlock,
    writes: GenesisWrites,
)
    requires
        steady(node),
        node.blocks.len() >= 2,
    ensures
        steady(
            node.founded(
                control_plane_ready,
                content,
                accepted,
                block_zero,
                block_one,
                writes,
            ).0,
        ),
{
    if node.heads.len() != 1 {
        branching_laws::founding_is_orderly(
            node,
            control_plane_ready,
            content,
            accepted,
            block_zero,
            block_one,
            writes,
        );
        orderly_node_is_steady(
            node.founded(
                control_plane_ready,
                content,
                accepted,
                block_zero,
                block_one,
                writes,
            ).0,
        );
    } else if node.genesis_obstacle(control_plane_ready, content) is None {
        let tentative = NodeView { config: node.config.loaded(content, accepted), ..node };
        assert(tentative.tips() == node.tips());
        genesis::lemma_no_block(node.blocks);
        assert(!node.blocks[0].occupied() && !node.blocks[1].occupied());
        lemma_founding_block(tentative, 0, block_zero, None, hash::zero_hash());
        let anchored = tentative.founding_block_entered(0, block_zero, None, hash::zero_hash());
        assert(!anchored.blocks[1].occupied());
        let locked = NodeView {
            config: anchored.config.promoted(),
            vote_reset: true,
            ..anchored
        };
        assert(locked.tips() == anchored.tips());
        lemma_founding_block(locked, 1, block_one, Some(0), block_zero.hash);
    }
}

/// Giving the one slot to one childless block after the other, as far as it can
/// be had; `left` are those that went without.
proof fn lemma_leaves_inserted(
    t: Tips,
    base: Seq<BlockEntry>,
    prev: Seq<BlockHash>,
    active_head: u32,
    idx: int,
    now: u64,
    left: Set<u32>,
)
    requires
        branching::sprouted(t, rebuild_fit::leaves_from(base, idx).union(left)),
        forall|h: u32| #[trigger] left.contains(h) ==> h < idx,
        t.heads.len() == 1,
        base.len() == t.blocks.len(),
        0 <= idx <= base.len(),
    ensures
        single_tip::single(tips::leaves_inserted(t, base, idx, prev, now, active_head)),
    decreases base.len() - idx,
{
    let late = rebuild_fit::leaves_from(base, idx).union(left);
    if idx < base.len() {
        let x = idx as u32;
        let next_leaves = rebuild_fit::leaves_from(base, idx + 1);
        if base[idx].occupied() && tree::childless(base, x) {
            assert(rebuild_fit::leaves_from(base, idx).contains(x));
            assert(late.contains(x));
            assert(tree::present(t.blocks, x));
            let next = tips::tip_inserted(t, x, now, prev[idx], active_head);
            fit::lemma_tip_count(t.heads);
            if tips::tip_count(t.heads) < t.heads.len() || tips::victim(
                t.heads,
                t.blocks,
                active_head,
            ) is Some {
                branching::lemma_tip_inserted(t, late, x, now, prev[idx], active_head);
                assert(late.remove(x) =~= next_leaves.union(left)) by {
                    assert forall|h: u32| late.remove(x).contains(h) <==> next_leaves.union(
                        left,
                    ).contains(h) by {}
                }
                lemma_leaves_inserted(next, base, prev, active_head, idx + 1, now, left);
            } else {
                fit::lemma_vacant_slot(t.heads, 0);
                assert(t.heads[0].in_use());
                assert(next == t);
                let more = left.insert(x);
                assert(late =~= next_leaves.union(more)) by {
                    assert forall|h: u32| late.contains(h) <==> next_leaves.union(more).contains(
                        h,
                    ) by {}
                }
                lemma_leaves_inserted(t, base, prev, active_head, idx + 1, now, more);
            }
        } else {
            assert(late =~= next_leaves.union(left)) by {
                assert forall|h: u32| late.contains(h) <==> next_leaves.union(left).contains(
                    h,
                ) by {}
            }
            lemma_leaves_inserted(t, base, prev, active_head, idx + 1, now, left);
        }
    } else {
        lemma_counted(t, late);
    }
}

/// A node that was built from its stored blocks is steady, provided that no block
/// has more children than a branch count can hold.
pub proof fn restart_is_steady(node: NodeView, slots: Seq<Option<ChainBlock>>, now: u64)
    requires
        node.treeless(),
        node.blocks.len() <= NONE_REF,
        slots.len() <= node.blocks.len(),
        1 <= node.heads.len() <= 253,
        counts::kids_fit(node.retained_tree(slots)),
    ensures
        steady(node.rebuilt(slots, now)),
{
    if node.heads.len() != 1 {
        branching_laws::restart_is_orderly(node, slots, now);
        orderly_node_is_steady(node.rebuilt(slots, now));
    } else {
        let prev = restart::previous_hashes(slots, node.blocks.len());
        let s = restart::linked(restart::materialized(node.blocks, slots, 0), slots, 0);
        let retained = node.retained_tree(slots);
        let active_head = match recovery::genesis_slot(s, 0) {
            Some(idx) => idx,
            None => NONE_REF,
        };
        let heads = Seq::new(node.heads.len(), |i: int| ChainHeadEntry::vacant());
        coherence_laws::lemma_retained_tree(node, slots);
        let start = tree::uncounted(retained);
        let counted = tips::leaves_counted(start, start, 0);
        let t = Tips { heads, blocks: counted };
        branching_laws::lemma_leaves_counted(heads, retained, prev);
        let none = Set::<u32>::empty();
        assert(rebuild_fit::leaves_from(start, 0).union(none) =~= rebuild_fit::leaves_from(
            start,
            0,
        ));
        lemma_leaves_inserted(t, start, prev, active_head, 0, now, none);
        let placed = tips::leaves_inserted(t, start, 0, prev, now, active_head);
        let after = node.rebuilt(slots, now);
        assert(after.tips() == tips::rebuilt(heads, retained, prev, now, active_head));
        assert(after.heads == tips::missing_hashes_set(placed.heads, prev));
    }
}

} // verus!
