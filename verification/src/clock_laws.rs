//! The clock decides nothing but when a parent is asked for.
//!
//! Nodes that are handed the same blocks and the same answers at different times
//! hold the same tree, the same tips, the same configuration and the same active
//! chain; they differ in timestamps alone.

use vstd::prelude::*;

use crate::acquisition;
use crate::acquisition::{AcquisitionEvent, ActionView, Progress, RunView, StageView};
use crate::admission;
use crate::api::{NodeView, ReceiveBlockOutcome};
use crate::block_data::ChainBlock;
use crate::blocks as tree;
use crate::blocks::{BlockEntry, NONE_REF};
use crate::chain_heads as tips;
use crate::chain_heads::{ChainHeadEntry, Tips};
use crate::derivation;
use crate::derivation::{ProcessingError, ValidationReason, VoteEngineError};
use crate::hash::BlockHash;
use crate::lifecycle::LifecyclePhase;
use crate::processing;
use crate::recovery;
use crate::tip_laws;

verus! {

/// Whether two tips differ in timestamps alone.
pub open spec fn same_tip(a: ChainHeadEntry, b: ChainHeadEntry) -> bool {
    &&& a.head_idx == b.head_idx
    &&& a.tail_or_connection_idx == b.tail_or_connection_idx
    &&& a.missing_parent_hash == b.missing_parent_hash
    &&& a.branch_value == b.branch_value
    &&& a.flags == b.flags
}

/// Whether two tables hold the same tips in the same slots, but for timestamps.
pub open spec fn same_heads(a: Seq<ChainHeadEntry>, b: Seq<ChainHeadEntry>) -> bool {
    &&& a.len() == b.len()
    &&& forall|i: int|
        #![trigger a[i]]
        #![trigger b[i]]
        0 <= i < a.len() ==> same_tip(a[i], b[i])
}

/// Whether two trees with their tips differ in timestamps alone.
pub open spec fn same_tips(a: Tips, b: Tips) -> bool {
    &&& same_heads(a.heads, b.heads)
    &&& a.blocks == b.blocks
}

/// Whether two nodes differ in timestamps alone.
pub open spec fn same_but_times(a: NodeView, b: NodeView) -> bool {
    &&& same_heads(a.heads, b.heads)
    &&& b == (NodeView { heads: b.heads, last_emit: b.last_emit, ..a })
}

// -- Searches of the table ---------------------------------------------------

proof fn lemma_head_slot(a: Seq<ChainHeadEntry>, b: Seq<ChainHeadEntry>, idx: u32, from: int)
    requires
        same_heads(a, b),
    ensures
        tips::head_slot(a, idx, from) == tips::head_slot(b, idx, from),
        tips::head_slot(a, idx, from) matches Some(slot) ==> 0 <= slot < a.len(),
    decreases a.len() - from,
{
    if 0 <= from < a.len() {
        assert(same_tip(a[from], b[from]));
        lemma_head_slot(a, b, idx, from + 1);
    }
}

proof fn lemma_vacant_slot(a: Seq<ChainHeadEntry>, b: Seq<ChainHeadEntry>, from: int)
    requires
        same_heads(a, b),
    ensures
        tips::vacant_slot(a, from) == tips::vacant_slot(b, from),
        tips::vacant_slot(a, from) matches Some(slot) ==> 0 <= slot < a.len(),
    decreases a.len() - from,
{
    if 0 <= from < a.len() {
        assert(same_tip(a[from], b[from]));
        lemma_vacant_slot(a, b, from + 1);
    }
}

proof fn lemma_tip_count(a: Seq<ChainHeadEntry>, b: Seq<ChainHeadEntry>)
    requires
        same_heads(a, b),
    ensures
        tips::tip_count(a) == tips::tip_count(b),
    decreases a.len(),
{
    if a.len() > 0 {
        assert(same_tip(a[a.len() - 1], b[a.len() - 1]));
        assert forall|i: int|
            #![trigger a.drop_last()[i]]
            #![trigger b.drop_last()[i]]
            0 <= i < a.drop_last().len() implies same_tip(a.drop_last()[i], b.drop_last()[i]) by {
            assert(same_tip(a[i], b[i]));
        }
        lemma_tip_count(a.drop_last(), b.drop_last());
    }
}

proof fn lemma_shared_hash(
    a: Seq<ChainHeadEntry>,
    b: Seq<ChainHeadEntry>,
    tail: u32,
    slot: int,
    from: int,
)
    requires
        same_heads(a, b),
    ensures
        tips::shared_missing_hash(a, tail, slot, from) == tips::shared_missing_hash(
            b,
            tail,
            slot,
            from,
        ),
    decreases a.len() - from,
{
    if 0 <= from < a.len() {
        assert(same_tip(a[from], b[from]));
        lemma_shared_hash(a, b, tail, slot, from + 1);
    }
}

proof fn lemma_victim(
    a: Seq<ChainHeadEntry>,
    b: Seq<ChainHeadEntry>,
    blocks: Seq<BlockEntry>,
    active_head: u32,
    slot: int,
    best: Option<int>,
)
    requires
        same_heads(a, b),
        best matches Some(i) ==> 0 <= i < a.len(),
    ensures
        tips::victim_from(a, blocks, active_head, slot, best) == tips::victim_from(
            b,
            blocks,
            active_head,
            slot,
            best,
        ),
        tips::victim_from(a, blocks, active_head, slot, best) matches Some(i) ==> 0 <= i < a.len(),
    decreases a.len() - slot,
{
    if 0 <= slot < a.len() {
        assert(same_tip(a[slot], b[slot]));
        if let Some(i) = best {
            assert(same_tip(a[i], b[i]));
        }
        lemma_victim(a, b, blocks, active_head, slot + 1, Some(slot));
        lemma_victim(a, b, blocks, active_head, slot + 1, best);
    }
}

proof fn lemma_dominant(
    a: Seq<ChainHeadEntry>,
    b: Seq<ChainHeadEntry>,
    blocks: Seq<BlockEntry>,
    window: u32,
    slot: int,
    best: Option<u32>,
)
    requires
        same_heads(a, b),
    ensures
        acquisition::dominant_from(blocks, a, window, slot, best) == acquisition::dominant_from(
            blocks,
            b,
            window,
            slot,
            best,
        ),
    decreases a.len() - slot,
{
    if 0 <= slot < a.len() {
        assert(same_tip(a[slot], b[slot]));
        lemma_dominant(a, b, blocks, window, slot + 1, Some(a[slot].head_idx));
        lemma_dominant(a, b, blocks, window, slot + 1, best);
    }
}

// -- Admission ---------------------------------------------------------------

proof fn lemma_updated(
    a: Seq<ChainHeadEntry>,
    b: Seq<ChainHeadEntry>,
    slot: int,
    x: ChainHeadEntry,
    y: ChainHeadEntry,
)
    requires
        same_heads(a, b),
        same_tip(x, y),
        0 <= slot < a.len(),
    ensures
        same_heads(a.update(slot, x), b.update(slot, y)),
{
    assert forall|i: int|
        #![trigger a.update(slot, x)[i]]
        #![trigger b.update(slot, y)[i]]
        0 <= i < a.len() implies same_tip(a.update(slot, x)[i], b.update(slot, y)[i]) by {
        assert(same_tip(a[i], b[i]));
    }
}

proof fn lemma_refreshed(
    a: Seq<ChainHeadEntry>,
    b: Seq<ChainHeadEntry>,
    blocks: Seq<BlockEntry>,
    slot: int,
    known_idx: u32,
    known_hash: BlockHash,
)
    requires
        same_heads(a, b),
        0 <= slot < a.len(),
    ensures
        same_tip(
            tips::refreshed(a, blocks, slot, known_idx, known_hash),
            tips::refreshed(b, blocks, slot, known_idx, known_hash),
        ),
        same_heads(
            a.update(slot, tips::refreshed(a, blocks, slot, known_idx, known_hash)),
            b.update(slot, tips::refreshed(b, blocks, slot, known_idx, known_hash)),
        ),
{
    assert(same_tip(a[slot], b[slot]));
    match tips::tip_anchor(blocks, a[slot].head_idx) {
        tips::Anchor::Connection(idx) => {},
        tips::Anchor::Tail(idx) => {
            lemma_shared_hash(a, b, idx, slot, 0);
        },
    }
    lemma_updated(
        a,
        b,
        slot,
        tips::refreshed(a, blocks, slot, known_idx, known_hash),
        tips::refreshed(b, blocks, slot, known_idx, known_hash),
    );
}

proof fn lemma_evicted(a: Tips, b: Tips, active_head: u32)
    requires
        same_tips(a, b),
    ensures
        same_tips(tips::evicted(a, active_head), tips::evicted(b, active_head)),
{
    lemma_victim(a.heads, b.heads, a.blocks, active_head, 0, None);
    if let Some(slot) = tips::victim(a.heads, a.blocks, active_head) {
        assert(same_tip(a.heads[slot], b.heads[slot]));
        lemma_updated(
            a.heads,
            b.heads,
            slot,
            ChainHeadEntry::vacant(),
            ChainHeadEntry::vacant(),
        );
    }
}

proof fn lemma_tip_inserted(
    a: Tips,
    b: Tips,
    idx: u32,
    early: u64,
    late: u64,
    prev_hash: BlockHash,
    active_head: u32,
)
    requires
        same_tips(a, b),
    ensures
        same_tips(
            tips::tip_inserted(a, idx, early, prev_hash, active_head),
            tips::tip_inserted(b, idx, late, prev_hash, active_head),
        ),
{
    if let tips::Anchor::Tail(end) = tips::tip_anchor(a.blocks, idx) {
        lemma_shared_hash(a.heads, b.heads, end, a.heads.len() as int, 0);
    }
    let (known_idx, known_hash) = tips::known_end(a, idx, prev_hash);
    assert(tips::known_end(b, idx, prev_hash) == (known_idx, known_hash));
    lemma_tip_count(a.heads, b.heads);
    lemma_evicted(a, b, active_head);
    let full = tips::tip_count(a.heads) >= a.heads.len();
    let one = if full {
        tips::evicted(a, active_head)
    } else {
        a
    };
    let two = if full {
        tips::evicted(b, active_head)
    } else {
        b
    };
    assert(same_tips(one, two));
    lemma_vacant_slot(one.heads, two.heads, 0);
    if let Some(slot) = tips::vacant_slot(one.heads, 0) {
        let x = ChainHeadEntry::fresh(idx, early);
        let y = ChainHeadEntry::fresh(idx, late);
        lemma_updated(one.heads, two.heads, slot, x, y);
        lemma_refreshed(
            one.heads.update(slot, x),
            two.heads.update(slot, y),
            one.blocks,
            slot,
            known_idx,
            known_hash,
        );
    }
}

proof fn lemma_tip_admitted(
    a: Tips,
    b: Tips,
    idx: u32,
    parent: Option<u32>,
    prev_hash: BlockHash,
    early: u64,
    late: u64,
    active_head: u32,
)
    requires
        same_tips(a, b),
    ensures
        same_tips(
            tips::tip_admitted(a, idx, parent, prev_hash, early, active_head),
            tips::tip_admitted(b, idx, parent, prev_hash, late, active_head),
        ),
{
    let counted = tree::recounted(a.blocks, idx, 1i8);
    let one = Tips { heads: a.heads, blocks: counted };
    let two = Tips { heads: b.heads, blocks: counted };
    match parent {
        Some(parent_idx) => {
            lemma_head_slot(a.heads, b.heads, parent_idx, 0);
            match tips::head_slot(a.heads, parent_idx, 0) {
                Some(slot) => {
                    assert(same_tip(a.heads[slot], b.heads[slot]));
                    let x = ChainHeadEntry {
                        head_idx: idx,
                        arrival_timestamp: early,
                        ..a.heads[slot]
                    };
                    let y = ChainHeadEntry {
                        head_idx: idx,
                        arrival_timestamp: late,
                        ..b.heads[slot]
                    };
                    lemma_updated(a.heads, b.heads, slot, x, y);
                    lemma_refreshed(
                        a.heads.update(slot, x),
                        b.heads.update(slot, y),
                        counted,
                        slot,
                        idx,
                        prev_hash,
                    );
                },
                None => {
                    let forked = tree::recounted(counted, parent_idx, 1i8);
                    lemma_tip_inserted(
                        Tips { heads: a.heads, blocks: forked },
                        Tips { heads: b.heads, blocks: forked },
                        idx,
                        early,
                        late,
                        prev_hash,
                        active_head,
                    );
                },
            }
        },
        None => {
            lemma_tip_inserted(one, two, idx, early, late, prev_hash, active_head);
        },
    }
}

proof fn lemma_tails_linked(a: Tips, b: Tips, slot: int, end: int, x: u32)
    requires
        same_tips(a, b),
        0 <= slot,
        end <= a.heads.len(),
    ensures
        same_tips(tips::tails_linked(a, slot, end, x), tips::tails_linked(b, slot, end, x)),
    decreases end - slot,
{
    if slot < end {
        assert(same_tip(a.heads[slot], b.heads[slot]));
        assert(tips::link_pending(a, slot, x) == tips::link_pending(b, slot, x));
        lemma_head_slot(a.heads, b.heads, x, 0);
        if let Some(own) = tips::head_slot(a.heads, x, 0) {
            lemma_updated(
                a.heads,
                b.heads,
                own,
                ChainHeadEntry::vacant(),
                ChainHeadEntry::vacant(),
            );
        }
        let one = tips::tail_linked(a, slot, x);
        let two = tips::tail_linked(b, slot, x);
        assert(same_tips(one, two));
        lemma_tails_linked(one, two, slot + 1, end, x);
    }
}

proof fn lemma_waiters_refreshed(
    a: Seq<ChainHeadEntry>,
    b: Seq<ChainHeadEntry>,
    blocks: Seq<BlockEntry>,
    slot: int,
    end: int,
    x_hash: BlockHash,
    known_idx: u32,
    known_hash: BlockHash,
)
    requires
        same_heads(a, b),
        0 <= slot,
        end <= a.len(),
    ensures
        same_heads(
            tips::waiters_refreshed(a, blocks, slot, end, x_hash, known_idx, known_hash),
            tips::waiters_refreshed(b, blocks, slot, end, x_hash, known_idx, known_hash),
        ),
    decreases end - slot,
{
    if slot < end {
        assert(same_tip(a[slot], b[slot]));
        lemma_refreshed(a, b, blocks, slot, known_idx, known_hash);
        lemma_waiters_refreshed(
            a.update(slot, tips::refreshed(a, blocks, slot, known_idx, known_hash)),
            b.update(slot, tips::refreshed(b, blocks, slot, known_idx, known_hash)),
            blocks,
            slot + 1,
            end,
            x_hash,
            known_idx,
            known_hash,
        );
        lemma_waiters_refreshed(a, b, blocks, slot + 1, end, x_hash, known_idx, known_hash);
    }
}

proof fn lemma_linked_len(t: Tips, slot: int, end: int, x: u32)
    ensures
        tips::tails_linked(t, slot, end, x).heads.len() == t.heads.len(),
    decreases end - slot,
{
    if slot < end {
        lemma_head_slot(t.heads, t.heads, x, 0);
        lemma_linked_len(tips::tail_linked(t, slot, x), slot + 1, end, x);
    }
}

/// When a block arrives bears on nothing but timestamps.
proof fn lemma_block_admitted(
    a: Tips,
    b: Tips,
    idx: u32,
    parent: Option<u32>,
    prev_hash: BlockHash,
    early: u64,
    late: u64,
    active_head: u32,
)
    requires
        same_tips(a, b),
    ensures
        same_tips(
            tips::block_admitted(a, idx, parent, prev_hash, early, active_head),
            tips::block_admitted(b, idx, parent, prev_hash, late, active_head),
        ),
{
    let one = tips::tip_admitted(a, idx, parent, prev_hash, early, active_head);
    let two = tips::tip_admitted(b, idx, parent, prev_hash, late, active_head);
    lemma_tip_admitted(a, b, idx, parent, prev_hash, early, late, active_head);
    lemma_head_slot(one.heads, two.heads, idx, 0);
    if let Some(own) = tips::head_slot(one.heads, idx, 0) {
        assert(same_tip(one.heads[own], two.heads[own]));
    }
    let (known_idx, known_hash) = tips::branch_end(one.heads, idx, prev_hash);
    assert(tips::branch_end(two.heads, idx, prev_hash) == (known_idx, known_hash));
    let end = one.heads.len() as int;
    lemma_tails_linked(one, two, 0, end, idx);
    lemma_linked_len(one, 0, end, idx);
    let linked_one = tips::tails_linked(one, 0, end, idx);
    let linked_two = tips::tails_linked(two, 0, end, idx);
    lemma_waiters_refreshed(
        linked_one.heads,
        linked_two.heads,
        linked_one.blocks,
        0,
        end,
        one.blocks[idx as int].hash,
        known_idx,
        known_hash,
    );
}

// -- Deletion ----------------------------------------------------------------

proof fn lemma_deleted_dropped(
    a: Seq<ChainHeadEntry>,
    b: Seq<ChainHeadEntry>,
    deleted: Seq<u32>,
    heir: Option<u32>,
    slot: int,
    end: int,
)
    requires
        same_heads(a, b),
        0 <= slot,
        end <= a.len(),
    ensures
        same_heads(
            tips::deleted_dropped(a, deleted, heir, slot, end),
            tips::deleted_dropped(b, deleted, heir, slot, end),
        ),
        tips::deleted_dropped(a, deleted, heir, slot, end).len() == a.len(),
    decreases end - slot,
{
    if slot < end {
        assert(same_tip(a[slot], b[slot]));
        lemma_deleted_dropped(a, b, deleted, heir, slot + 1, end);
        let x = match heir {
            Some(idx) => ChainHeadEntry { head_idx: idx, ..a[slot] },
            None => ChainHeadEntry::vacant(),
        };
        let y = match heir {
            Some(idx) => ChainHeadEntry { head_idx: idx, ..b[slot] },
            None => ChainHeadEntry::vacant(),
        };
        lemma_updated(a, b, slot, x, y);
        lemma_deleted_dropped(
            a.update(slot, x),
            b.update(slot, y),
            deleted,
            None,
            slot + 1,
            end,
        );
    }
}

proof fn lemma_all_refreshed(
    a: Seq<ChainHeadEntry>,
    b: Seq<ChainHeadEntry>,
    blocks: Seq<BlockEntry>,
    slot: int,
    end: int,
)
    requires
        same_heads(a, b),
        0 <= slot,
        end <= a.len(),
    ensures
        same_heads(
            tips::all_refreshed(a, blocks, slot, end),
            tips::all_refreshed(b, blocks, slot, end),
        ),
    decreases end - slot,
{
    if slot < end {
        assert(same_tip(a[slot], b[slot]));
        let hash = a[slot].missing_parent_hash;
        lemma_refreshed(a, b, blocks, slot, NONE_REF, hash);
        lemma_all_refreshed(
            a.update(slot, tips::refreshed(a, blocks, slot, NONE_REF, hash)),
            b.update(slot, tips::refreshed(b, blocks, slot, NONE_REF, hash)),
            blocks,
            slot + 1,
            end,
        );
        lemma_all_refreshed(a, b, blocks, slot + 1, end);
    }
}

proof fn lemma_tips_counted(
    a: Seq<ChainHeadEntry>,
    b: Seq<ChainHeadEntry>,
    blocks: Seq<BlockEntry>,
    slot: int,
    end: int,
)
    requires
        same_heads(a, b),
        0 <= slot,
        end <= a.len(),
    ensures
        tips::tips_counted(blocks, a, slot, end) == tips::tips_counted(blocks, b, slot, end),
    decreases end - slot,
{
    if slot < end {
        assert(same_tip(a[slot], b[slot]));
        lemma_tips_counted(
            a,
            b,
            tips::branch_counted(blocks, a[slot].head_idx, blocks.len()),
            slot + 1,
            end,
        );
        lemma_tips_counted(a, b, blocks, slot + 1, end);
    }
}

proof fn lemma_refreshed_len(
    a: Seq<ChainHeadEntry>,
    blocks: Seq<BlockEntry>,
    slot: int,
    end: int,
)
    requires
        0 <= slot,
        end <= a.len(),
    ensures
        tips::all_refreshed(a, blocks, slot, end).len() == a.len(),
    decreases end - slot,
{
    if slot < end {
        let hash = a[slot].missing_parent_hash;
        lemma_refreshed_len(
            a.update(slot, tips::refreshed(a, blocks, slot, NONE_REF, hash)),
            blocks,
            slot + 1,
            end,
        );
        lemma_refreshed_len(a, blocks, slot + 1, end);
    }
}

proof fn lemma_subtree_dropped(a: Tips, b: Tips, deleted: Seq<u32>, parent: u32)
    requires
        same_tips(a, b),
    ensures
        same_tips(
            tips::subtree_dropped(a, deleted, parent),
            tips::subtree_dropped(b, deleted, parent),
        ),
{
    let end = a.heads.len() as int;
    lemma_head_slot(a.heads, b.heads, parent, 0);
    let heir = tips::heir(a, parent);
    assert(tips::heir(b, parent) == heir);
    lemma_deleted_dropped(a.heads, b.heads, deleted, heir, 0, end);
    let one = tips::deleted_dropped(a.heads, deleted, heir, 0, end);
    let two = tips::deleted_dropped(b.heads, deleted, heir, 0, end);
    lemma_all_refreshed(one, two, a.blocks, 0, end);
    lemma_refreshed_len(one, a.blocks, 0, end);
    lemma_tips_counted(
        tips::all_refreshed(one, a.blocks, 0, end),
        tips::all_refreshed(two, a.blocks, 0, end),
        tree::uncounted(a.blocks),
        0,
        end,
    );
}

proof fn lemma_subtree_deleted(a: NodeView, b: NodeView, target: u32)
    requires
        same_but_times(a, b),
    ensures
        same_but_times(a.subtree_deleted(target), b.subtree_deleted(target)),
{
    let rest = tree::without_subtree(a.blocks, target);
    lemma_subtree_dropped(
        Tips { heads: a.heads, blocks: rest },
        Tips { heads: b.heads, blocks: rest },
        tree::subtree(a.blocks, target),
        a.parent_of(target),
    );
}

// -- The node ----------------------------------------------------------------

proof fn lemma_admitted(a: NodeView, b: NodeView, block: ChainBlock, early: u64, late: u64)
    requires
        same_but_times(a, b),
    ensures
        same_but_times(a.admitted(block, early), b.admitted(block, late)),
{
    let idx = tree::free_slot(a.blocks, 0)->0;
    let parent = tree::parent_slot(a.blocks, block.previous_hash, block.sequence);
    let active_head = if block.sequence == 0 {
        idx
    } else {
        a.active_head
    };
    let placed = a.blocks.update(idx as int, admission::admitted_entry(block, parent));
    lemma_block_admitted(
        Tips { heads: a.heads, blocks: placed },
        Tips { heads: b.heads, blocks: placed },
        idx,
        parent,
        block.previous_hash,
        early,
        late,
        active_head,
    );
}

proof fn lemma_recovered(a: NodeView, b: NodeView, error: ProcessingError, tip: u32)
    requires
        same_but_times(a, b),
    ensures
        same_but_times(a.recovered(error, tip), b.recovered(error, tip)),
{
    let target = recovery::deletion_target(error, tip);
    let rest = recovery::marking_restored(tree::without_subtree(a.blocks, target));
    lemma_subtree_dropped(
        Tips { heads: a.heads, blocks: rest },
        Tips { heads: b.heads, blocks: rest },
        tree::subtree(a.blocks, target),
        a.parent_of(target),
    );
}

proof fn lemma_mismatches_deleted(
    a: NodeView,
    b: NodeView,
    contents: Seq<Option<Seq<u8>>>,
    from: int,
    end: int,
)
    requires
        same_but_times(a, b),
    ensures
        same_but_times(
            a.mismatches_deleted(contents, from, end),
            b.mismatches_deleted(contents, from, end),
        ),
    decreases end - from,
{
    if from < end {
        lemma_subtree_deleted(a, b, from as u32);
        lemma_mismatches_deleted(
            a.subtree_deleted(from as u32),
            b.subtree_deleted(from as u32),
            contents,
            from + 1,
            end,
        );
        lemma_mismatches_deleted(a, b, contents, from + 1, end);
    }
}

proof fn lemma_oversized_deleted(a: NodeView, b: NodeView, limit: u16, from: int, end: int)
    requires
        same_but_times(a, b),
    ensures
        same_but_times(
            a.oversized_deleted(limit, from, end),
            b.oversized_deleted(limit, from, end),
        ),
    decreases end - from,
{
    if from < end {
        lemma_subtree_deleted(a, b, from as u32);
        lemma_oversized_deleted(
            a.subtree_deleted(from as u32),
            b.subtree_deleted(from as u32),
            limit,
            from + 1,
            end,
        );
        lemma_oversized_deleted(a, b, limit, from + 1, end);
    }
}

/// Whether two steps of an acquisition differ in timestamps alone.
pub open spec fn same_progress(a: Progress, b: Progress) -> bool {
    &&& same_but_times(a.node, b.node)
    &&& a.run == b.run
    &&& a.action == b.action
}

proof fn lemma_sought(a: NodeView, b: NodeView, window: u32, run: RunView)
    requires
        same_but_times(a, b),
    ensures
        same_progress(a.sought(window, run), b.sought(window, run)),
{
    lemma_dominant(a.heads, b.heads, a.blocks, window, 0, None);
}

proof fn lemma_passed(
    a: NodeView,
    b: NodeView,
    tip: u32,
    reads: Seq<Option<ChainBlock>>,
    vote_failure: Option<(int, VoteEngineError)>,
)
    requires
        same_but_times(a, b),
    ensures
        ({
            let one = a.passed(tip, reads, vote_failure, derivation::all_hold());
            let two = b.passed(tip, reads, vote_failure, derivation::all_hold());
            &&& same_but_times(one.node, two.node)
            &&& one.segment == two.segment
            &&& one.checks == two.checks
            &&& one.failure == two.failure
        }),
{
    if let Ok(segment) = processing::candidate(a.blocks, tip) {
        let holds = derivation::all_hold();
        assert(a.pass_start(segment, reads) == b.pass_start(segment, reads));
        assert(a.pass_view(segment, reads, vote_failure, holds) == b.pass_view(
            segment,
            reads,
            vote_failure,
            holds,
        ));
        assert(a.preload_failure(tip, segment, reads) == b.preload_failure(tip, segment, reads));
    }
}

proof fn lemma_accepted(a: NodeView, b: NodeView, run: RunView, tip: u32)
    requires
        same_but_times(a, b),
    ensures
        same_progress(a.accepted(run, tip), b.accepted(run, tip)),
{
    let offender = recovery::oversized(
        a.blocks,
        tip,
        a.declared_limit(),
        a.blocks.len(),
        None,
    )->0;
    lemma_recovered(
        a,
        b,
        ProcessingError::Invalid {
            block_idx: offender,
            reason: ValidationReason::BlockTooLarge,
        },
        tip,
    );
    assert(a.scanned(tip, NONE_REF) == b.scanned(tip, NONE_REF));
}

proof fn lemma_failed(
    a: NodeView,
    b: NodeView,
    window: u32,
    run: RunView,
    tip: u32,
    reads: Seq<Option<ChainBlock>>,
    segment: Seq<u32>,
    error: ProcessingError,
)
    requires
        same_but_times(a, b),
    ensures
        same_progress(
            a.failed(window, run, tip, reads, segment, error),
            b.failed(window, run, tip, reads, segment, error),
        ),
{
    assert(a.adoptable(run, tip, reads, segment, error) == b.adoptable(
        run,
        tip,
        reads,
        segment,
        error,
    ));
    if a.adoptable(run, tip, reads, segment, error) {
        let first = a.scanned(tip, NONE_REF).0;
        let block = a.config_read(segment, reads)->0;
        let config = a.config.loaded(
            block.config_content()->0,
            admission::accepted_parameters(block),
        );
        let one = NodeView { config, config_source: first, vote_reset: true, ..a };
        let two = NodeView { config, config_source: first, vote_reset: true, ..b };
        lemma_subtree_deleted(one, two, a.config_source);
        let adopted_one = a.adopted(tip, first, block);
        let adopted_two = b.adopted(tip, first, block);
        assert(same_but_times(adopted_one, adopted_two));
        lemma_sought(
            NodeView { phase: LifecyclePhase::Collecting, ..adopted_one },
            NodeView { phase: LifecyclePhase::Collecting, ..adopted_two },
            window,
            RunView { adopt_retries: (run.adopt_retries - 1) as u8, ..run },
        );
    } else {
        lemma_recovered(a, b, error, tip);
        lemma_sought(
            a.recovered(error, tip),
            b.recovered(error, tip),
            window,
            RunView { retries: (run.retries - 1) as u8, ..run },
        );
    }
}

proof fn lemma_concluded(
    a: NodeView,
    b: NodeView,
    run: RunView,
    tip: u32,
    block: Option<ChainBlock>,
    written: bool,
    contents: Seq<Option<Seq<u8>>>,
)
    requires
        same_but_times(a, b),
    ensures
        same_progress(
            a.concluded(run, tip, block, written, contents),
            b.concluded(run, tip, block, written, contents),
        ),
{
    let one = a.committed().activated(tip);
    let two = b.committed().activated(tip);
    let end = one.blocks.len() as int;
    lemma_mismatches_deleted(one, two, contents, 0, end);
    lemma_oversized_deleted(
        one.mismatches_deleted(contents, 0, end),
        two.mismatches_deleted(contents, 0, end),
        one.enforceable_limit(),
        0,
        end,
    );
}

/// A step of an acquisition does not depend on timestamps.
pub proof fn acquisition_ignores_the_clock(
    a: NodeView,
    b: NodeView,
    window: u32,
    run: RunView,
    event: AcquisitionEvent,
)
    requires
        same_but_times(a, b),
    ensures
        same_progress(a.advanced(window, run, event), b.advanced(window, run, event)),
{
    match (run.stage, event) {
        (StageView::Start, AcquisitionEvent::Begin) => {
            lemma_sought(a, b, window, run);
        },
        (
            StageView::Examining { tip },
            AcquisitionEvent::Examined { reads, vote_failure },
        ) => {
            lemma_passed(a, b, tip, reads@, processing::vote_stop(vote_failure));
        },
        (
            StageView::Verifying { tip, reads, segment, checks, failure },
            AcquisitionEvent::Verified { verdicts },
        ) => {
            let (one, outcome) = a.settled(segment, checks, failure, verdicts@);
            let (two, other) = b.settled(segment, checks, failure, verdicts@);
            assert(same_but_times(one, two) && outcome == other);
            match outcome {
                None => {
                    lemma_accepted(one, two, run, tip);
                },
                Some(error) => {
                    lemma_failed(one, two, window, run, tip, reads, segment, error);
                },
            }
        },
        (
            StageView::Committing { tip },
            AcquisitionEvent::Committed { block, written, contents },
        ) => {
            lemma_concluded(
                a,
                b,
                run,
                tip,
                block,
                written,
                recovery::content_views(contents@),
            );
        },
        _ => {},
    }
}

// -- Whole runs --------------------------------------------------------------

/// What a node is handed, apart from the time.
pub ghost enum Call {
    /// A block, and whether it was persisted.
    Receive { block: ChainBlock, saved: bool },
    /// The start of an acquisition, over a window of this length.
    Acquire { window: u32 },
    /// An answer to what an acquisition asked for.
    Answer { window: u32, event: AcquisitionEvent },
    /// A tick.
    Tick,
}

/// What a call brings about, apart from requests for parents.
pub ghost enum Effect {
    /// The outcome of a submission.
    Received(ReceiveBlockOutcome),
    /// What an acquisition asks for next.
    Asked(ActionView),
    /// Nothing that outlasts the tick.
    Ticked,
}

/// A node, and how far its acquisition has come.
pub ghost struct Situation {
    pub node: NodeView,
    pub run: RunView,
}

/// One call at `now`: what it brings about, and the situation after it.
pub open spec fn called(at: Situation, w: u32, call: Call, now: u64) -> (Effect, Situation) {
    match call {
        Call::Receive { block, saved } => {
            let outcome = at.node.classified(block, None, w, saved);
            (
                Effect::Received(outcome),
                Situation {
                    node: if outcome == ReceiveBlockOutcome::AcceptedSilently {
                        at.node.admitted(block, now)
                    } else {
                        at.node
                    },
                    ..at
                },
            )
        },
        Call::Acquire { window } => {
            let progress = at.node.advanced(
                window,
                RunView { retries: 1, adopt_retries: 1, stage: StageView::Start },
                AcquisitionEvent::Begin,
            );
            (
                Effect::Asked(progress.action),
                Situation { node: progress.node, run: progress.run },
            )
        },
        Call::Answer { window, event } => {
            let progress = at.node.advanced(window, at.run, event);
            (
                Effect::Asked(progress.action),
                Situation { node: progress.node, run: progress.run },
            )
        },
        Call::Tick => (Effect::Ticked, Situation { node: at.node.ticked(now).1, ..at }),
    }
}

/// The situation after the first `n` calls, each at its own time.
pub open spec fn after_calls(
    start: Situation,
    w: u32,
    calls: Seq<Call>,
    times: Seq<u64>,
    n: nat,
) -> Situation
    decreases n,
{
    if n == 0 {
        start
    } else {
        called(
            after_calls(start, w, calls, times, (n - 1) as nat),
            w,
            calls[n - 1],
            times[n - 1],
        ).1
    }
}

/// What the `n`-th call brings about.
pub open spec fn effect_of(
    start: Situation,
    w: u32,
    calls: Seq<Call>,
    times: Seq<u64>,
    n: int,
) -> Effect {
    called(after_calls(start, w, calls, times, n as nat), w, calls[n], times[n]).0
}

proof fn lemma_called(a: Situation, b: Situation, w: u32, call: Call, early: u64, late: u64)
    requires
        same_but_times(a.node, b.node),
        a.run == b.run,
    ensures
        ({
            let (one, next_a) = called(a, w, call, early);
            let (two, next_b) = called(b, w, call, late);
            &&& one == two
            &&& same_but_times(next_a.node, next_b.node)
            &&& next_a.run == next_b.run
        }),
{
    match call {
        Call::Receive { block, saved } => {
            assert(a.node.classified(block, None, w, saved) == b.node.classified(
                block,
                None,
                w,
                saved,
            ));
            lemma_admitted(a.node, b.node, block, early, late);
        },
        Call::Acquire { window } => {
            acquisition_ignores_the_clock(
                a.node,
                b.node,
                window,
                RunView { retries: 1, adopt_retries: 1, stage: StageView::Start },
                AcquisitionEvent::Begin,
            );
        },
        Call::Answer { window, event } => {
            acquisition_ignores_the_clock(a.node, b.node, window, a.run, event);
        },
        Call::Tick => {
            lemma_ticked(a.node, early);
            lemma_ticked(b.node, late);
            let one = a.node.ticked(early).1;
            let two = b.node.ticked(late).1;
            assert forall|i: int|
                #![trigger one.heads[i]]
                #![trigger two.heads[i]]
                0 <= i < one.heads.len() implies same_tip(one.heads[i], two.heads[i]) by {
                assert(same_tip(a.node.heads[i], one.heads[i]));
                assert(same_tip(a.node.heads[i], b.node.heads[i]));
                assert(same_tip(b.node.heads[i], two.heads[i]));
            }
        },
    }
}

proof fn lemma_ticked(node: NodeView, now: u64)
    ensures
        same_but_times(node, node.ticked(now).1),
{
    tip_laws::ticks_touch_timestamps_alone(node, now);
    let after = node.ticked(now).1;
    assert forall|i: int|
        #![trigger node.heads[i]]
        #![trigger after.heads[i]]
        0 <= i < node.heads.len() implies same_tip(node.heads[i], after.heads[i]) by {
        assert((ChainHeadEntry {
            last_request_timestamp: node.heads[i].last_request_timestamp,
            ..after.heads[i]
        }) == node.heads[i]);
    }
}

/// The clock touches timestamps alone. Two nodes that start alike and are handed
/// the same blocks and answers, each at times of its own, bring about the same
/// with every call, and end with the same tree in the same slots, the same tips,
/// the same configuration, the same phase and the same active chain; and where
/// the times are the same too, they are the same node, and announce the same
/// instant.
pub proof fn runs_ignore_the_clock(
    start: Situation,
    w: u32,
    calls: Seq<Call>,
    early: Seq<u64>,
    late: Seq<u64>,
    n: nat,
)
    requires
        n <= calls.len(),
        early.len() == calls.len(),
        late.len() == calls.len(),
    ensures
        ({
            let a = after_calls(start, w, calls, early, n);
            let b = after_calls(start, w, calls, late, n);
            &&& same_but_times(a.node, b.node)
            &&& a.run == b.run
            &&& a.node.phase == b.node.phase
            &&& a.node.active_head == b.node.active_head
            &&& a.node.blocks == b.node.blocks
            &&& a.node.config == b.node.config
            &&& early == late ==> a == b && a.node.next_call() == b.node.next_call()
        }),
        forall|i: int|
            0 <= i < n ==> #[trigger] effect_of(start, w, calls, early, i) == effect_of(
                start,
                w,
                calls,
                late,
                i,
            ),
    decreases n,
{
    if n > 0 {
        let before = (n - 1) as nat;
        runs_ignore_the_clock(start, w, calls, early, late, before);
        lemma_called(
            after_calls(start, w, calls, early, before),
            after_calls(start, w, calls, late, before),
            w,
            calls[n - 1],
            early[n - 1],
            late[n - 1],
        );
        assert forall|i: int| 0 <= i < n implies #[trigger] effect_of(start, w, calls, early, i)
            == effect_of(start, w, calls, late, i) by {
            if i == n - 1 {
                assert(i as nat == before);
            }
        }
    }
}

} // verus!
