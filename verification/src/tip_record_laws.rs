//! When a tip arrived and when it last asked, and which configuration comes with a
//! block: what admissions, deletions and starts make of these records.

use vstd::prelude::*;

use crate::admission;
use crate::api::NodeView;
use crate::block_data::{BlockPayload, ChainBlock};
use crate::blocks as tree;
use crate::blocks::{BlockEntry, NONE_REF};
use crate::chain_heads as tips;
use crate::chain_heads::{ChainHeadEntry, Tips};
use crate::coherence as fit;
use crate::deletion_laws as deletion;
use crate::derivation::ProcessingError;
use crate::hash::BlockHash;
use crate::recovery;
use crate::request_laws as requests;
use crate::restart;
use crate::tip_laws;

verus! {

/// Whether the record of a tip went on: it arrived when it did, and it asked when it
/// did, unless it no longer waits for a parent: then it may have forgotten that.
pub open spec fn goes_on(before: ChainHeadEntry, after: ChainHeadEntry) -> bool {
    &&& after.arrival_timestamp == before.arrival_timestamp
    &&& asked_as(before.last_request_timestamp, after)
}

/// Whether the tip last asked at `instant`, or does not wait and forgot it.
pub open spec fn asked_as(instant: u64, head: ChainHeadEntry) -> bool {
    ||| head.last_request_timestamp == instant
    ||| !requests::waits(head) && head.last_request_timestamp == 0
}

/// Whether the slot tracks the same tip as before, and its record went on.
pub open spec fn stays(before: ChainHeadEntry, after: ChainHeadEntry) -> bool {
    &&& after.head_idx == before.head_idx
    &&& goes_on(before, after)
}

proof fn lemma_refreshed(
    heads: Seq<ChainHeadEntry>,
    blocks: Seq<BlockEntry>,
    slot: int,
    known_idx: u32,
    known_hash: BlockHash,
)
    ensures
        stays(heads[slot], tips::refreshed(heads, blocks, slot, known_idx, known_hash)),
{
    let f = heads[slot].flags;
    assert((f | 1) & 1 == 1) by (bit_vector);
}

proof fn lemma_waiters(
    heads: Seq<ChainHeadEntry>,
    blocks: Seq<BlockEntry>,
    slot: int,
    end: int,
    x_hash: BlockHash,
    known_idx: u32,
    known_hash: BlockHash,
    i: int,
)
    requires
        0 <= slot <= end <= heads.len(),
        0 <= i < heads.len(),
    ensures
        ({
            let after = tips::waiters_refreshed(
                heads,
                blocks,
                slot,
                end,
                x_hash,
                known_idx,
                known_hash,
            );
            &&& after.len() == heads.len()
            &&& i < slot || !requests::waits(heads[i]) ==> after[i] == heads[i]
            &&& stays(heads[i], after[i])
        }),
    decreases end - slot,
{
    if slot < end {
        let f = heads[slot].flags;
        assert((f & 1 != 0) == !(f & 1 == 0));
        if heads[slot].waiting() && heads[slot].missing_parent_hash == x_hash {
            lemma_refreshed(heads, blocks, slot, known_idx, known_hash);
            let next = heads.update(
                slot,
                tips::refreshed(heads, blocks, slot, known_idx, known_hash),
            );
            lemma_waiters(next, blocks, slot + 1, end, x_hash, known_idx, known_hash, i);
        } else {
            lemma_waiters(heads, blocks, slot + 1, end, x_hash, known_idx, known_hash, i);
        }
    }
}

proof fn lemma_tails(t: Tips, slot: int, end: int, x_idx: u32, i: int)
    requires
        0 <= i < t.heads.len(),
    ensures
        ({
            let after = tips::tails_linked(t, slot, end, x_idx);
            &&& after.heads.len() == t.heads.len()
            &&& after.heads[i] == t.heads[i] || after.heads[i].head_idx == NONE_REF
        }),
    decreases end - slot,
{
    if slot < end {
        fit::lemma_head_slot(t.heads, x_idx, 0);
        lemma_tails(tips::tail_linked(t, slot, x_idx), slot + 1, end, x_idx, i);
    }
}

proof fn lemma_inserted(
    t: Tips,
    head_idx: u32,
    arrival: u64,
    prev_hash: BlockHash,
    active_head: u32,
    i: int,
)
    requires
        0 <= i < t.heads.len(),
    ensures
        ({
            let after = tips::tip_inserted(t, head_idx, arrival, prev_hash, active_head);
            &&& after.heads.len() == t.heads.len()
            &&& {
                ||| after.heads[i] == t.heads[i]
                ||| after.heads[i].head_idx == NONE_REF
                ||| after.heads[i].head_idx == head_idx && after.heads[i].arrival_timestamp
                    == arrival && after.heads[i].last_request_timestamp == 0
            }
        }),
{
    let (known_idx, known_hash) = tips::known_end(t, head_idx, prev_hash);
    let room = if tips::tip_count(t.heads) >= t.heads.len() {
        tips::evicted(t, active_head)
    } else {
        t
    };
    tip_laws::eviction_takes_the_lowest_tip(t.heads, t.blocks, active_head);
    fit::lemma_vacant_slot(room.heads, 0);
    if let Some(slot) = tips::vacant_slot(room.heads, 0) {
        let placed = room.heads.update(slot, ChainHeadEntry::fresh(head_idx, arrival));
        lemma_refreshed(placed, room.blocks, slot, known_idx, known_hash);
    }
}

/// An admission leaves every other tip with its arrival and its last request. The
/// tip that the block becomes arrived now; it last asked when the tip did that it
/// extends, and never if it extends none. A tip that no longer waits may have
/// forgotten its last request.
pub proof fn admissions_keep_the_requests_of_tips(
    node: NodeView,
    block: ChainBlock,
    now: u64,
    i: int,
)
    requires
        0 <= i < node.heads.len(),
    ensures
        ({
            let idx = tree::free_slot(node.blocks, 0)->0;
            let parent = tree::parent_slot(node.blocks, block.previous_hash, block.sequence);
            let before = node.heads[i];
            let after = node.admitted(block, now).heads[i];
            &&& node.admitted(block, now).heads.len() == node.heads.len()
            &&& {
                ||| after.head_idx == NONE_REF
                ||| stays(before, after)
                ||| {
                    &&& after.head_idx == idx
                    &&& after.arrival_timestamp == now
                    &&& asked_as(
                        if before.head_idx != NONE_REF && parent == Some(before.head_idx) {
                            before.last_request_timestamp
                        } else {
                            0
                        },
                        after,
                    )
                }
            }
        }),
{
    let idx = tree::free_slot(node.blocks, 0)->0;
    let parent = tree::parent_slot(node.blocks, block.previous_hash, block.sequence);
    let active_head = if block.sequence == 0 {
        idx
    } else {
        node.active_head
    };
    let t = Tips {
        heads: node.heads,
        blocks: node.blocks.update(idx as int, admission::admitted_entry(block, parent)),
    };
    let placed = tips::tip_admitted(t, idx, parent, block.previous_hash, now, active_head);
    let counted = Tips { heads: t.heads, blocks: tree::recounted(t.blocks, idx, 1i8) };
    match parent {
        Some(parent_idx) => match tips::head_slot(t.heads, parent_idx, 0) {
            Some(slot) => {
                fit::lemma_head_slot(t.heads, parent_idx, 0);
                let advanced = t.heads.update(
                    slot,
                    ChainHeadEntry { head_idx: idx, arrival_timestamp: now, ..t.heads[slot] },
                );
                lemma_refreshed(advanced, counted.blocks, slot, idx, block.previous_hash);
            },
            None => {
                fit::lemma_head_slot(t.heads, parent_idx, 0);
                lemma_inserted(
                    Tips {
                        heads: t.heads,
                        blocks: tree::recounted(counted.blocks, parent_idx, 1i8),
                    },
                    idx,
                    now,
                    block.previous_hash,
                    active_head,
                    i,
                );
            },
        },
        None => {
            lemma_inserted(counted, idx, now, block.previous_hash, active_head, i);
        },
    }
    if tree::present(placed.blocks, idx) {
        let (known_idx, known_hash) = tips::branch_end(placed.heads, idx, block.previous_hash);
        let linked = tips::tails_linked(placed, 0, placed.heads.len() as int, idx);
        lemma_tails(placed, 0, placed.heads.len() as int, idx, i);
        lemma_waiters(
            linked.heads,
            linked.blocks,
            0,
            placed.heads.len() as int,
            placed.blocks[idx as int].hash,
            known_idx,
            known_hash,
            i,
        );
    }
}

proof fn lemma_dropped(
    heads: Seq<ChainHeadEntry>,
    gone: Seq<u32>,
    heir: Option<u32>,
    slot: int,
    end: int,
    i: int,
)
    requires
        0 <= slot <= end <= heads.len(),
        0 <= i < heads.len(),
    ensures
        ({
            let after = tips::deleted_dropped(heads, gone, heir, slot, end);
            &&& after.len() == heads.len()
            &&& i < slot ==> after[i] == heads[i]
            &&& {
                ||| after[i] == heads[i]
                ||| after[i].head_idx == NONE_REF
                ||| {
                    &&& gone.contains(heads[i].head_idx)
                    &&& heir == Some(after[i].head_idx)
                    &&& after[i] == (ChainHeadEntry { head_idx: after[i].head_idx, ..heads[i] })
                }
            }
        }),
    decreases end - slot,
{
    if slot < end {
        if !(heads[slot].in_use() && gone.contains(heads[slot].head_idx)) {
            lemma_dropped(heads, gone, heir, slot + 1, end, i);
        } else {
            match heir {
                Some(idx) => {
                    let next = heads.update(
                        slot,
                        ChainHeadEntry { head_idx: idx, ..heads[slot] },
                    );
                    lemma_dropped(next, gone, None, slot + 1, end, i);
                },
                None => {
                    let next = heads.update(slot, ChainHeadEntry::vacant());
                    lemma_dropped(next, gone, None, slot + 1, end, i);
                },
            }
        }
    }
}

proof fn lemma_all_refreshed(
    heads: Seq<ChainHeadEntry>,
    blocks: Seq<BlockEntry>,
    slot: int,
    end: int,
    i: int,
)
    requires
        0 <= slot <= end <= heads.len(),
        0 <= i < heads.len(),
    ensures
        ({
            let after = tips::all_refreshed(heads, blocks, slot, end);
            &&& after.len() == heads.len()
            &&& i < slot ==> after[i] == heads[i]
            &&& stays(heads[i], after[i])
        }),
    decreases end - slot,
{
    if slot < end {
        if heads[slot].in_use() {
            lemma_refreshed(heads, blocks, slot, NONE_REF, heads[slot].missing_parent_hash);
            let next = heads.update(
                slot,
                tips::refreshed(heads, blocks, slot, NONE_REF, heads[slot].missing_parent_hash),
            );
            lemma_all_refreshed(next, blocks, slot + 1, end, i);
        } else {
            lemma_all_refreshed(heads, blocks, slot + 1, end, i);
        }
    }
}

/// A deletion leaves every tip that is left with its arrival and its last request;
/// so does the recovery from a failed pass. Where the block below the deleted ones
/// becomes a tip, it goes on with the record of one of theirs.
pub proof fn deletions_keep_the_requests_of_tips(
    node: NodeView,
    target: u32,
    error: ProcessingError,
    tip: u32,
    i: int,
)
    requires
        0 <= i < node.heads.len(),
    ensures
        ({
            let before = node.heads[i];
            let deleted = node.subtree_deleted(target).heads[i];
            let recovered = node.recovered(error, tip).heads[i];
            let below = node.blocks[target as int].parent_ref;
            let beneath = node.blocks[deletion::condemned(error, tip) as int].parent_ref;
            &&& node.subtree_deleted(target).heads.len() == node.heads.len()
            &&& node.recovered(error, tip).heads.len() == node.heads.len()
            &&& {
                ||| deleted.head_idx == NONE_REF
                ||| stays(before, deleted)
                ||| deleted.head_idx == below && goes_on(before, deleted)
            }
            &&& {
                ||| recovered.head_idx == NONE_REF
                ||| stays(before, recovered)
                ||| recovered.head_idx == beneath && goes_on(before, recovered)
            }
            &&& node.subtree_deleted(target).last_emit == node.last_emit
            &&& node.recovered(error, tip).last_emit == node.last_emit
        }),
{
    let end = node.heads.len() as int;
    let gone = tree::subtree(node.blocks, target);
    let t = Tips { heads: node.heads, blocks: tree::without_subtree(node.blocks, target) };
    let heir = tips::heir(t, node.parent_of(target));
    let kept = tips::deleted_dropped(t.heads, gone, heir, 0, end);
    lemma_dropped(t.heads, gone, heir, 0, end, i);
    lemma_all_refreshed(kept, t.blocks, 0, end, i);

    let offender = recovery::deletion_target(error, tip);
    let lost = tree::subtree(node.blocks, offender);
    let trimmed = tree::without_subtree(node.blocks, offender);
    let marked = Tips { heads: node.heads, blocks: recovery::marking_restored(trimmed) };
    let next = tips::heir(marked, node.parent_of(offender));
    let left = tips::deleted_dropped(marked.heads, lost, next, 0, end);
    lemma_dropped(marked.heads, lost, next, 0, end, i);
    lemma_all_refreshed(left, marked.blocks, 0, end, i);
}

proof fn lemma_leaves(
    t: Tips,
    leaves: Seq<BlockEntry>,
    idx: int,
    prev: Seq<BlockHash>,
    now: u64,
    active_head: u32,
    i: int,
)
    requires
        0 <= i < t.heads.len(),
        t.heads[i].head_idx != NONE_REF ==> t.heads[i].arrival_timestamp == now
            && t.heads[i].last_request_timestamp == 0,
    ensures
        ({
            let after = tips::leaves_inserted(t, leaves, idx, prev, now, active_head);
            &&& after.heads.len() == t.heads.len()
            &&& after.heads[i].head_idx != NONE_REF ==> after.heads[i].arrival_timestamp == now
                && after.heads[i].last_request_timestamp == 0
        }),
    decreases leaves.len() - idx,
{
    if 0 <= idx < leaves.len() {
        if leaves[idx].occupied() && tree::childless(leaves, idx as u32)
            && t.blocks[idx].occupied() {
            lemma_inserted(t, idx as u32, now, prev[idx], active_head, i);
            lemma_leaves(
                tips::tip_inserted(t, idx as u32, now, prev[idx], active_head),
                leaves,
                idx + 1,
                prev,
                now,
                active_head,
                i,
            );
        } else {
            lemma_leaves(t, leaves, idx + 1, prev, now, active_head, i);
        }
    }
}

/// After a start no tip has asked, and every one of them arrived with the start.
pub proof fn started_tips_have_not_asked(
    node: NodeView,
    slots: Seq<Option<ChainBlock>>,
    now: u64,
    i: int,
)
    requires
        0 <= i < node.heads.len(),
    ensures
        ({
            let after = node.rebuilt(slots, now);
            &&& after.heads.len() == node.heads.len()
            &&& after.heads[i].head_idx != NONE_REF ==> {
                &&& after.heads[i].arrival_timestamp == now
                &&& after.heads[i].last_request_timestamp == 0
            }
            &&& after.last_emit == node.last_emit
        }),
{
    let heads = Seq::new(node.heads.len(), |k: int| ChainHeadEntry::vacant());
    let leaves = tree::uncounted(node.retained_tree(slots));
    let counted = tips::leaves_counted(leaves, leaves, 0);
    lemma_leaves(
        Tips { heads, blocks: counted },
        leaves,
        0,
        restart::previous_hashes(slots, node.blocks.len()),
        now,
        node.rebuilt(slots, now).active_head,
        i,
    );
}

/// A block brings its configuration exactly if it is a configuration block, the
/// node holds none, and the registry accepts it; the node then holds it, not
/// locked, with that block behind it. Otherwise it holds what it held. What is not
/// locked is withdrawn, and the votes with it, once the block behind it has left
/// the tree.
pub proof fn configurations_come_with_blocks(node: NodeView, block: ChainBlock, now: u64)
    requires
        node.admit_refusal(block) is None,
        node.blocks.len() <= NONE_REF,
    ensures
        ({
            let idx = tree::free_slot(node.blocks, 0)->0;
            let after = node.admitted(block, now);
            let brings = node.config is Unloaded && block.payload_type == 3
                && block.payload is ChainConfig && (
            block.payload->ChainConfig_0).accepted is Some;
            let source = if brings {
                idx
            } else {
                node.config_source
            };
            let left = source == NONE_REF || deletion::held(after.blocks, source as int);
            &&& brings && left ==> {
                &&& after.config is Tentative
                &&& after.config->Tentative_content == (block.payload->ChainConfig_0).content@
                &&& Some(after.config->Tentative_parameters) == (
                block.payload->ChainConfig_0).accepted
                &&& after.config_source == idx
            }
            &&& !brings && left ==> after.config == node.config && after.config_source
                == node.config_source
            &&& left ==> after.vote_reset == node.vote_reset
            &&& !left ==> {
                &&& !(node.config is Durable) ==> after.config is Unloaded
                &&& after.config_source == NONE_REF
                &&& after.vote_reset
            }
            &&& node.config is Durable ==> after.config == node.config
        }),
{
    tree::free_slot_is_first(node.blocks, 0);
    match block.payload {
        BlockPayload::ChainConfig(envelope) => {},
        _ => {},
    }
}

/// The pairs of a tip table: one for every tip, with the end of its branch, in the
/// order of the slots.
pub proof fn pairs_name_every_tip(heads: Seq<ChainHeadEntry>)
    ensures
        forall|slot: int|
            0 <= slot < heads.len() && (#[trigger] heads[slot]).head_idx != NONE_REF
                ==> tips::head_pairs(heads).contains(
                (heads[slot].head_idx, heads[slot].tail_or_connection_idx),
            ),
        forall|k: int|
            0 <= k < tips::head_pairs(heads).len() ==> exists|slot: int|
                0 <= slot < heads.len() && (#[trigger] heads[slot]).head_idx != NONE_REF
                    && #[trigger] tips::head_pairs(heads)[k] == (
                    heads[slot].head_idx,
                    heads[slot].tail_or_connection_idx,
                ),
        tips::head_pairs(heads).len() == tips::tip_count(heads),
        tips::tip_count(heads) <= heads.len(),
    decreases heads.len(),
{
    if heads.len() > 0 {
        let rest = heads.drop_last();
        pairs_name_every_tip(rest);
        let pairs = tips::head_pairs(heads);
        let fewer = tips::head_pairs(rest);
        assert forall|slot: int|
            0 <= slot < heads.len() && (
            #[trigger] heads[slot]).head_idx != NONE_REF implies pairs.contains(
            (heads[slot].head_idx, heads[slot].tail_or_connection_idx),
        ) by {
            let pair = (heads[slot].head_idx, heads[slot].tail_or_connection_idx);
            if slot < rest.len() {
                assert(rest[slot].head_idx != NONE_REF);
                assert(fewer.contains(pair));
                let k = choose|k: int| 0 <= k < fewer.len() && fewer[k] == pair;
                assert(pairs[k] == pair);
            } else {
                assert(pairs[fewer.len() as int] == pair);
            }
        }
        assert forall|k: int| 0 <= k < pairs.len() implies exists|slot: int|
            0 <= slot < heads.len() && (#[trigger] heads[slot]).head_idx != NONE_REF
                && #[trigger] pairs[k] == (
                heads[slot].head_idx,
                heads[slot].tail_or_connection_idx,
            ) by {
            if k < fewer.len() {
                assert(fewer[k] == pairs[k]);
                let slot = choose|slot: int|
                    0 <= slot < rest.len() && (#[trigger] rest[slot]).head_idx != NONE_REF
                        && fewer[k] == (
                        rest[slot].head_idx,
                        rest[slot].tail_or_connection_idx,
                    );
                assert(heads[slot] == rest[slot]);
            } else {
                assert(heads[heads.len() - 1].head_idx != NONE_REF);
            }
        }
    }
}

} // verus!
