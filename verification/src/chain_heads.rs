//! The bounded table of block-tree tips.
//!
//! Every tracked tip is either Connected (its ancestry meets the active chain)
//! or Stored (its ancestry ends at a block whose parent is not in the tree; the
//! node asks its peers for that parent). The table follows admissions and
//! deletions, schedules the parent requests, and evicts the lowest tip when it
//! is full.
//!
//! A block's `head_ref_count` is the number of tracked branches that leave it
//! toward a tip, not the number of tips above it. Evicting a tip therefore
//! takes one branch off each block on the way down, releases the blocks that no
//! branch needs any more, and stops at the first block another branch shares.

use vstd::prelude::*;

use crate::api::ParentRecoveryRequest;
use crate::blocks as tree;
use crate::blocks::{contains_slot, BlockEntry, BlockTable, NONE_REF};
use crate::hash;
use crate::hash::{hash_eq, hash_less, no_hash, BlockHash};

verus! {

/// Bit 0 of `flags`: the tip's ancestry meets the active chain.
pub const FLAG_CONNECTED: u8 = 0b0000_0001;

/// One tracked tip; `head_idx == NONE_REF` marks an empty slot.
#[derive(Clone, Copy)]
pub struct ChainHeadEntry {
    /// Slot of the tip block.
    pub head_idx: u32,
    /// Stored: slot of the lowest block of the branch, whose parent is missing.
    /// Connected: slot of the block at which the branch meets the active chain.
    pub tail_or_connection_idx: u32,
    /// Stored only: the previous hash of the lowest block, that is the hash of
    /// the parent to ask for.
    pub missing_parent_hash: BlockHash,
    /// When the parent was last asked for; `0` means never.
    pub last_request_timestamp: u64,
    /// When the tip block arrived. Never an input of a selection.
    pub arrival_timestamp: u64,
    /// Relative branch value, not populated yet.
    pub branch_value: u64,
    pub flags: u8,
}

/// Where the ancestry of a block ends.
pub enum Anchor {
    /// It meets the active chain at this slot.
    Connection(u32),
    /// It ends at this slot, whose parent is not in the tree.
    Tail(u32),
}

/// The tip table and the block-tree, as one state.
pub ghost struct Tips {
    pub heads: Seq<ChainHeadEntry>,
    pub blocks: Seq<BlockEntry>,
}

impl ChainHeadEntry {
    /// The content of an empty slot.
    pub open spec fn vacant() -> ChainHeadEntry {
        ChainHeadEntry {
            head_idx: NONE_REF,
            tail_or_connection_idx: NONE_REF,
            missing_parent_hash: hash::zero_hash(),
            last_request_timestamp: 0,
            arrival_timestamp: 0,
            branch_value: 0,
            flags: 0,
        }
    }

    /// A tip that was just inserted, before its ancestry is classified.
    pub open spec fn fresh(head_idx: u32, arrival: u64) -> ChainHeadEntry {
        ChainHeadEntry {
            head_idx,
            tail_or_connection_idx: head_idx,
            missing_parent_hash: hash::zero_hash(),
            last_request_timestamp: 0,
            arrival_timestamp: arrival,
            branch_value: 0,
            flags: 0,
        }
    }

    /// Whether the slot tracks a tip.
    pub open spec fn in_use(self) -> bool {
        self.head_idx != NONE_REF
    }

    /// Whether the tip's ancestry meets the active chain.
    pub open spec fn connected(self) -> bool {
        self.flags & FLAG_CONNECTED != 0
    }

    /// Whether the tip is Stored: its branch waits for a missing parent.
    pub open spec fn waiting(self) -> bool {
        self.in_use() && !self.connected()
    }

    /// The content of an empty slot.
    pub fn new_empty() -> (entry: ChainHeadEntry)
        ensures
            entry == ChainHeadEntry::vacant(),
    {
        ChainHeadEntry {
            head_idx: NONE_REF,
            tail_or_connection_idx: NONE_REF,
            missing_parent_hash: no_hash(),
            last_request_timestamp: 0,
            arrival_timestamp: 0,
            branch_value: 0,
            flags: 0,
        }
    }

    /// Whether the slot is empty.
    pub fn is_empty(&self) -> (empty: bool)
        ensures
            empty == !self.in_use(),
    {
        self.head_idx == NONE_REF
    }

    /// Whether the tip's ancestry meets the active chain.
    pub fn is_connected(&self) -> (connected: bool)
        ensures
            connected == self.connected(),
    {
        self.flags & FLAG_CONNECTED != 0
    }

    /// Whether the tip's branch waits for a missing parent.
    pub fn is_stored(&self) -> (stored: bool)
        ensures
            stored == self.waiting(),
    {
        !self.is_empty() && !self.is_connected()
    }
}

// -- Ancestry ----------------------------------------------------------------

/// Where the walk down from `current` ends, over at most `steps` blocks;
/// `last_valid` is the block the walk came from.
pub open spec fn anchor_of(
    blocks: Seq<BlockEntry>,
    current: u32,
    last_valid: u32,
    steps: nat,
) -> Anchor
    decreases steps,
{
    if steps == 0 {
        Anchor::Tail(current)
    } else if !tree::present(blocks, current) {
        Anchor::Tail(last_valid)
    } else if blocks[current as int].active() {
        Anchor::Connection(current)
    } else if blocks[current as int].parent_ref == NONE_REF {
        Anchor::Tail(current)
    } else {
        anchor_of(blocks, blocks[current as int].parent_ref, current, (steps - 1) as nat)
    }
}

/// Where the ancestry of the tip at `head_idx` ends.
pub open spec fn tip_anchor(blocks: Seq<BlockEntry>, head_idx: u32) -> Anchor {
    anchor_of(blocks, head_idx, head_idx, blocks.len())
}

/// The first slot from `from` on whose tip is `head_idx`.
pub open spec fn head_slot(heads: Seq<ChainHeadEntry>, head_idx: u32, from: int) -> Option<int>
    decreases heads.len() - from,
{
    if from < 0 || from >= heads.len() {
        None
    } else if heads[from].in_use() && heads[from].head_idx == head_idx {
        Some(from)
    } else {
        head_slot(heads, head_idx, from + 1)
    }
}

/// The first empty slot from `from` on.
pub open spec fn vacant_slot(heads: Seq<ChainHeadEntry>, from: int) -> Option<int>
    decreases heads.len() - from,
{
    if from < 0 || from >= heads.len() {
        None
    } else if !heads[from].in_use() {
        Some(from)
    } else {
        vacant_slot(heads, from + 1)
    }
}

/// Number of tracked tips.
pub open spec fn tip_count(heads: Seq<ChainHeadEntry>) -> nat
    decreases heads.len(),
{
    if heads.len() == 0 {
        0
    } else if heads.last().in_use() {
        tip_count(heads.drop_last()) + 1
    } else {
        tip_count(heads.drop_last())
    }
}

/// The missing-parent hash that a tip other than the one at `slot` holds for
/// the branch that ends at `tail_idx`: that of the first such tip from `from` on.
pub open spec fn shared_missing_hash(
    heads: Seq<ChainHeadEntry>,
    tail_idx: u32,
    slot: int,
    from: int,
) -> Option<BlockHash>
    decreases heads.len() - from,
{
    if from < 0 || from >= heads.len() {
        None
    } else if from != slot && heads[from].waiting() && heads[from].tail_or_connection_idx
        == tail_idx {
        Some(heads[from].missing_parent_hash)
    } else {
        shared_missing_hash(heads, tail_idx, slot, from + 1)
    }
}

/// The hash that the tip at `slot` has to ask for once its branch ends at
/// `tail_idx`. `known_hash` is the previous hash of the block at `known_idx`.
pub open spec fn missing_hash(
    heads: Seq<ChainHeadEntry>,
    slot: int,
    tail_idx: u32,
    known_idx: u32,
    known_hash: BlockHash,
) -> BlockHash {
    if tail_idx == known_idx {
        known_hash
    } else if heads[slot].waiting() && heads[slot].tail_or_connection_idx == tail_idx {
        heads[slot].missing_parent_hash
    } else {
        match shared_missing_hash(heads, tail_idx, slot, 0) {
            Some(hash) => hash,
            None => known_hash,
        }
    }
}

/// The tip at `slot` with its ancestry classified anew.
pub open spec fn refreshed(
    heads: Seq<ChainHeadEntry>,
    blocks: Seq<BlockEntry>,
    slot: int,
    known_idx: u32,
    known_hash: BlockHash,
) -> ChainHeadEntry {
    match tip_anchor(blocks, heads[slot].head_idx) {
        Anchor::Connection(idx) => ChainHeadEntry {
            tail_or_connection_idx: idx,
            missing_parent_hash: hash::zero_hash(),
            last_request_timestamp: 0,
            flags: heads[slot].flags | FLAG_CONNECTED,
            ..heads[slot]
        },
        Anchor::Tail(idx) => ChainHeadEntry {
            tail_or_connection_idx: idx,
            missing_parent_hash: missing_hash(heads, slot, idx, known_idx, known_hash),
            flags: heads[slot].flags & !FLAG_CONNECTED,
            ..heads[slot]
        },
    }
}

/// The tip and the end of the branch of every tracked entry, in slot order.
pub open spec fn head_pairs(heads: Seq<ChainHeadEntry>) -> Seq<(u32, u32)>
    decreases heads.len(),
{
    if heads.len() == 0 {
        Seq::empty()
    } else if heads.last().in_use() {
        head_pairs(heads.drop_last()).push(
            (heads.last().head_idx, heads.last().tail_or_connection_idx),
        )
    } else {
        head_pairs(heads.drop_last())
    }
}

/// A slot as a mathematical integer.
pub open spec fn as_slot(slot: Option<usize>) -> Option<int> {
    match slot {
        Some(s) => Some(s as int),
        None => None,
    }
}

// -- Eviction ----------------------------------------------------------------

/// Whether the tip at `slot` may be evicted: it is tracked, in the tree, and not
/// the head of the active chain.
pub open spec fn evictable(
    heads: Seq<ChainHeadEntry>,
    blocks: Seq<BlockEntry>,
    active_head_idx: u32,
    slot: int,
) -> bool {
    &&& heads[slot].in_use()
    &&& heads[slot].head_idx != active_head_idx
    &&& tree::present(blocks, heads[slot].head_idx)
}

/// Whether the tip at slot `a` is lower than the one at slot `b`: a smaller
/// sequence, or the same sequence and a smaller hash.
pub open spec fn tip_lower(
    heads: Seq<ChainHeadEntry>,
    blocks: Seq<BlockEntry>,
    a: int,
    b: int,
) -> bool {
    let left = blocks[heads[a].head_idx as int];
    let right = blocks[heads[b].head_idx as int];
    left.sequence < right.sequence || (left.sequence == right.sequence && hash::lex_less(
        left.hash@,
        right.hash@,
    ))
}

/// The eviction victim among `best` and the slots from `slot` on.
pub open spec fn victim_from(
    heads: Seq<ChainHeadEntry>,
    blocks: Seq<BlockEntry>,
    active_head_idx: u32,
    slot: int,
    best: Option<int>,
) -> Option<int>
    decreases heads.len() - slot,
{
    if slot < 0 || slot >= heads.len() {
        best
    } else if evictable(heads, blocks, active_head_idx, slot) && (best is None || tip_lower(
        heads,
        blocks,
        slot,
        best->0,
    )) {
        victim_from(heads, blocks, active_head_idx, slot + 1, Some(slot))
    } else {
        victim_from(heads, blocks, active_head_idx, slot + 1, best)
    }
}

/// The eviction victim.
pub open spec fn victim(
    heads: Seq<ChainHeadEntry>,
    blocks: Seq<BlockEntry>,
    active_head_idx: u32,
) -> Option<int> {
    victim_from(heads, blocks, active_head_idx, 0, None)
}

/// The block-tree after one branch was taken off the ancestry of `current`:
/// a block that no branch needs any more is released and the walk goes on below
/// it; a shared block, or one on the active chain, ends the walk.
pub open spec fn pruned(blocks: Seq<BlockEntry>, current: u32, steps: nat) -> Seq<BlockEntry>
    decreases steps,
{
    if steps == 0 || !tree::present(blocks, current) {
        blocks
    } else {
        let entry = blocks[current as int];
        let fewer = tree::recounted(blocks, current, -1i8);
        if entry.active() || tree::adjusted_count(entry.head_ref_count, -1i8) != 0 {
            fewer
        } else if entry.parent_ref == NONE_REF {
            tree::released(fewer, current)
        } else {
            pruned(tree::released(fewer, current), entry.parent_ref, (steps - 1) as nat)
        }
    }
}

/// The state after one eviction.
pub open spec fn evicted(t: Tips, active_head_idx: u32) -> Tips {
    match victim(t.heads, t.blocks, active_head_idx) {
        Some(slot) => Tips {
            heads: t.heads.update(slot, ChainHeadEntry::vacant()),
            blocks: pruned(t.blocks, t.heads[slot].head_idx, t.blocks.len()),
        },
        None => t,
    }
}

// -- Admission ---------------------------------------------------------------

/// What is known of the end of the branch of `head_idx`, whose previous hash is
/// `prev_hash`, before it is a tip: the lowest block, and the hash that it waits
/// for. A tip that shares the lowest block holds the hash.
pub open spec fn known_end(t: Tips, head_idx: u32, prev_hash: BlockHash) -> (u32, BlockHash) {
    match tip_anchor(t.blocks, head_idx) {
        Anchor::Tail(idx) => if idx == head_idx {
            (head_idx, prev_hash)
        } else {
            match shared_missing_hash(t.heads, idx, t.heads.len() as int, 0) {
                Some(hash) => (idx, hash),
                None => (head_idx, prev_hash),
            }
        },
        Anchor::Connection(idx) => (head_idx, prev_hash),
    }
}

/// The state after the tip `head_idx` was given a slot, evicting another tip
/// when none is free. Without a free slot it stays untracked.
pub open spec fn tip_inserted(
    t: Tips,
    head_idx: u32,
    arrival: u64,
    prev_hash: BlockHash,
    active_head_idx: u32,
) -> Tips {
    let (known_idx, known_hash) = known_end(t, head_idx, prev_hash);
    let room = if tip_count(t.heads) >= t.heads.len() {
        evicted(t, active_head_idx)
    } else {
        t
    };
    match vacant_slot(room.heads, 0) {
        None => room,
        Some(slot) => {
            let placed = room.heads.update(slot, ChainHeadEntry::fresh(head_idx, arrival));
            Tips {
                heads: placed.update(
                    slot,
                    refreshed(placed, room.blocks, slot, known_idx, known_hash),
                ),
                blocks: room.blocks,
            }
        },
    }
}

/// Whether the tip at `slot` waits for the block `x_idx`, whose link to the
/// lowest block of the branch is still open.
pub open spec fn link_pending(t: Tips, slot: int, x_idx: u32) -> bool {
    let h = t.heads[slot];
    let tail = h.tail_or_connection_idx;
    &&& h.waiting()
    &&& tail != x_idx
    &&& h.missing_parent_hash == t.blocks[x_idx as int].hash
    &&& tree::present(t.blocks, tail)
    &&& t.blocks[tail as int].parent_ref == NONE_REF
    &&& t.blocks[tail as int].sequence == t.blocks[x_idx as int].sequence + 1
}

/// The state after the branch of the tip at `slot` was linked to `x_idx`, if
/// that is what it waits for. The first branch to attach takes over the place
/// of `x_idx` as a tip; every further one is a fork at `x_idx`.
pub open spec fn tail_linked(t: Tips, slot: int, x_idx: u32) -> Tips {
    if !link_pending(t, slot, x_idx) {
        t
    } else {
        let tail = t.heads[slot].tail_or_connection_idx;
        let linked = tree::revised(t.blocks, tail, t.blocks[tail as int].with_parent(x_idx));
        match head_slot(t.heads, x_idx, 0) {
            Some(own) => Tips {
                heads: t.heads.update(own, ChainHeadEntry::vacant()),
                blocks: linked,
            },
            None => Tips { heads: t.heads, blocks: tree::recounted(linked, x_idx, 1i8) },
        }
    }
}

/// The state after every slot from `slot` up to `end` was linked.
pub open spec fn tails_linked(t: Tips, slot: int, end: int, x_idx: u32) -> Tips
    decreases end - slot,
{
    if slot >= end {
        t
    } else {
        tails_linked(tail_linked(t, slot, x_idx), slot + 1, end, x_idx)
    }
}

/// The tips after every slot from `slot` up to `end` that waited for `x_hash`
/// was classified anew.
pub open spec fn waiters_refreshed(
    heads: Seq<ChainHeadEntry>,
    blocks: Seq<BlockEntry>,
    slot: int,
    end: int,
    x_hash: BlockHash,
    known_idx: u32,
    known_hash: BlockHash,
) -> Seq<ChainHeadEntry>
    decreases end - slot,
{
    if slot >= end {
        heads
    } else if heads[slot].waiting() && heads[slot].missing_parent_hash == x_hash {
        waiters_refreshed(
            heads.update(slot, refreshed(heads, blocks, slot, known_idx, known_hash)),
            blocks,
            slot + 1,
            end,
            x_hash,
            known_idx,
            known_hash,
        )
    } else {
        waiters_refreshed(heads, blocks, slot + 1, end, x_hash, known_idx, known_hash)
    }
}

/// What is known of the end of the branch below `x_idx`: the lowest block and
/// the hash it waits for.
pub open spec fn branch_end(
    heads: Seq<ChainHeadEntry>,
    x_idx: u32,
    x_prev_hash: BlockHash,
) -> (u32, BlockHash) {
    match head_slot(heads, x_idx, 0) {
        Some(own) => if heads[own].waiting() {
            (heads[own].tail_or_connection_idx, heads[own].missing_parent_hash)
        } else {
            (x_idx, x_prev_hash)
        },
        None => (x_idx, x_prev_hash),
    }
}

/// The state after every branch that waited for the block `x_idx` was attached
/// to it.
pub open spec fn tails_resolved(t: Tips, x_idx: u32, x_prev_hash: BlockHash) -> Tips {
    if !tree::present(t.blocks, x_idx) {
        t
    } else {
        let (known_idx, known_hash) = branch_end(t.heads, x_idx, x_prev_hash);
        let linked = tails_linked(t, 0, t.heads.len() as int, x_idx);
        Tips {
            heads: waiters_refreshed(
                linked.heads,
                linked.blocks,
                0,
                t.heads.len() as int,
                t.blocks[x_idx as int].hash,
                known_idx,
                known_hash,
            ),
            blocks: linked.blocks,
        }
    }
}

/// The state after the block `new_idx` was admitted, before the branches that
/// waited for it are attached: it advances the tip it extends, or becomes a tip
/// of its own.
pub open spec fn tip_admitted(
    t: Tips,
    new_idx: u32,
    parent: Option<u32>,
    prev_hash: BlockHash,
    arrival: u64,
    active_head_idx: u32,
) -> Tips {
    let counted = Tips { heads: t.heads, blocks: tree::recounted(t.blocks, new_idx, 1i8) };
    match parent {
        Some(parent_idx) => match head_slot(t.heads, parent_idx, 0) {
            Some(slot) => {
                let advanced = t.heads.update(
                    slot,
                    ChainHeadEntry {
                        head_idx: new_idx,
                        arrival_timestamp: arrival,
                        ..t.heads[slot]
                    },
                );
                Tips {
                    heads: advanced.update(
                        slot,
                        refreshed(advanced, counted.blocks, slot, new_idx, prev_hash),
                    ),
                    blocks: counted.blocks,
                }
            },
            None => tip_inserted(
                Tips { heads: t.heads, blocks: tree::recounted(counted.blocks, parent_idx, 1i8) },
                new_idx,
                arrival,
                prev_hash,
                active_head_idx,
            ),
        },
        None => tip_inserted(counted, new_idx, arrival, prev_hash, active_head_idx),
    }
}

/// The state after the block `new_idx` was admitted.
pub open spec fn block_admitted(
    t: Tips,
    new_idx: u32,
    parent: Option<u32>,
    prev_hash: BlockHash,
    arrival: u64,
    active_head_idx: u32,
) -> Tips {
    tails_resolved(
        tip_admitted(t, new_idx, parent, prev_hash, arrival, active_head_idx),
        new_idx,
        prev_hash,
    )
}

// -- Deletion and rebuild ----------------------------------------------------

/// The tip that takes over when a subtree below `parent` was deleted: `parent`
/// itself, when it is left without children and is not a tip already.
pub open spec fn heir(t: Tips, parent: u32) -> Option<u32> {
    if tree::present(t.blocks, parent) && tree::childless(t.blocks, parent) && head_slot(t.heads, parent, 0)
        is None {
        Some(parent)
    } else {
        None
    }
}

/// The tips from `slot` up to `end` without those whose block is in `deleted`;
/// the first of them is handed to the heir instead.
pub open spec fn deleted_dropped(
    heads: Seq<ChainHeadEntry>,
    deleted: Seq<u32>,
    heir: Option<u32>,
    slot: int,
    end: int,
) -> Seq<ChainHeadEntry>
    decreases end - slot,
{
    if slot >= end {
        heads
    } else if !(heads[slot].in_use() && deleted.contains(heads[slot].head_idx)) {
        deleted_dropped(heads, deleted, heir, slot + 1, end)
    } else {
        match heir {
            Some(idx) => deleted_dropped(
                heads.update(slot, ChainHeadEntry { head_idx: idx, ..heads[slot] }),
                deleted,
                None,
                slot + 1,
                end,
            ),
            None => deleted_dropped(
                heads.update(slot, ChainHeadEntry::vacant()),
                deleted,
                None,
                slot + 1,
                end,
            ),
        }
    }
}

/// The tips from `slot` up to `end`, each classified anew.
pub open spec fn all_refreshed(
    heads: Seq<ChainHeadEntry>,
    blocks: Seq<BlockEntry>,
    slot: int,
    end: int,
) -> Seq<ChainHeadEntry>
    decreases end - slot,
{
    if slot >= end {
        heads
    } else if heads[slot].in_use() {
        all_refreshed(
            heads.update(
                slot,
                refreshed(heads, blocks, slot, NONE_REF, heads[slot].missing_parent_hash),
            ),
            blocks,
            slot + 1,
            end,
        )
    } else {
        all_refreshed(heads, blocks, slot + 1, end)
    }
}

/// The block-tree after one branch was counted on the ancestry of `current`,
/// down to the first block that another branch had reached before.
pub open spec fn branch_counted(
    blocks: Seq<BlockEntry>,
    current: u32,
    steps: nat,
) -> Seq<BlockEntry>
    decreases steps,
{
    if steps == 0 || !tree::present(blocks, current) {
        blocks
    } else {
        let entry = blocks[current as int];
        let more = tree::recounted(blocks, current, 1i8);
        if entry.head_ref_count != 0 || entry.parent_ref == NONE_REF {
            more
        } else {
            branch_counted(more, entry.parent_ref, (steps - 1) as nat)
        }
    }
}

/// The block-tree after the branches of the tips from `slot` up to `end` were
/// counted.
pub open spec fn tips_counted(
    blocks: Seq<BlockEntry>,
    heads: Seq<ChainHeadEntry>,
    slot: int,
    end: int,
) -> Seq<BlockEntry>
    decreases end - slot,
{
    if slot >= end {
        blocks
    } else if heads[slot].in_use() {
        tips_counted(
            branch_counted(blocks, heads[slot].head_idx, blocks.len()),
            heads,
            slot + 1,
            end,
        )
    } else {
        tips_counted(blocks, heads, slot + 1, end)
    }
}

/// The state after the blocks in `deleted`, a subtree below `parent`, were
/// released: their tips are gone, the shortened branch stays tracked, every
/// remaining tip is classified anew, and the branch counts are restored.
pub open spec fn subtree_dropped(t: Tips, deleted: Seq<u32>, parent: u32) -> Tips {
    let end = t.heads.len() as int;
    let kept = deleted_dropped(t.heads, deleted, heir(t, parent), 0, end);
    let heads = all_refreshed(kept, t.blocks, 0, end);
    Tips { heads, blocks: tips_counted(tree::uncounted(t.blocks), heads, 0, end) }
}

/// The block-tree after the branches of the childless blocks from `idx` on were
/// counted; `leaves` is the tree that says which blocks are childless.
pub open spec fn leaves_counted(
    blocks: Seq<BlockEntry>,
    leaves: Seq<BlockEntry>,
    idx: int,
) -> Seq<BlockEntry>
    decreases leaves.len() - idx,
{
    if idx < 0 || idx >= leaves.len() {
        blocks
    } else if leaves[idx].occupied() && tree::childless(leaves, idx as u32) {
        leaves_counted(branch_counted(blocks, idx as u32, blocks.len()), leaves, idx + 1)
    } else {
        leaves_counted(blocks, leaves, idx + 1)
    }
}

/// The state after the childless blocks from `idx` on were given a slot;
/// `leaves` is the tree that says which blocks are childless.
pub open spec fn leaves_inserted(
    t: Tips,
    leaves: Seq<BlockEntry>,
    idx: int,
    previous_hashes: Seq<BlockHash>,
    now: u64,
    active_head_idx: u32,
) -> Tips
    decreases leaves.len() - idx,
{
    if idx < 0 || idx >= leaves.len() {
        t
    } else if leaves[idx].occupied() && tree::childless(leaves, idx as u32)
        && t.blocks[idx].occupied() {
        leaves_inserted(
            tip_inserted(t, idx as u32, now, previous_hashes[idx], active_head_idx),
            leaves,
            idx + 1,
            previous_hashes,
            now,
            active_head_idx,
        )
    } else {
        leaves_inserted(t, leaves, idx + 1, previous_hashes, now, active_head_idx)
    }
}

/// The tips, each Stored one asking for the previous hash of its lowest block.
pub open spec fn missing_hashes_set(
    heads: Seq<ChainHeadEntry>,
    previous_hashes: Seq<BlockHash>,
) -> Seq<ChainHeadEntry> {
    Seq::new(
        heads.len(),
        |i: int|
            if heads[i].waiting() && heads[i].tail_or_connection_idx < previous_hashes.len() {
                ChainHeadEntry {
                    missing_parent_hash: previous_hashes[heads[i].tail_or_connection_idx as int],
                    ..heads[i]
                }
            } else {
                heads[i]
            },
    )
}

/// The state in which every childless block of the tree is a tip, as far as
/// the table has room. `vacant_heads` is the empty table.
pub open spec fn rebuilt(
    vacant_heads: Seq<ChainHeadEntry>,
    blocks: Seq<BlockEntry>,
    previous_hashes: Seq<BlockHash>,
    now: u64,
    active_head_idx: u32,
) -> Tips {
    let leaves = tree::uncounted(blocks);
    let counted = leaves_counted(leaves, leaves, 0);
    let placed = leaves_inserted(
        Tips { heads: vacant_heads, blocks: counted },
        leaves,
        0,
        previous_hashes,
        now,
        active_head_idx,
    );
    Tips { heads: missing_hashes_set(placed.heads, previous_hashes), blocks: placed.blocks }
}

// -- Parent recovery ---------------------------------------------------------

/// When a tip last asked at `last_request` may ask again: at once if it never
/// did, after the retry interval otherwise.
pub open spec fn eligible_at(last_request: u64, per_head_retry: u64) -> u64 {
    if last_request == 0 {
        0
    } else if last_request + per_head_retry > u64::MAX {
        u64::MAX
    } else {
        (last_request + per_head_retry) as u64
    }
}

/// Whether the tip at `slot` may ask for its missing parent now.
pub open spec fn may_request(
    heads: Seq<ChainHeadEntry>,
    blocks: Seq<BlockEntry>,
    now: u64,
    per_head_retry: u64,
    slot: int,
) -> bool {
    &&& heads[slot].waiting()
    &&& eligible_at(heads[slot].last_request_timestamp, per_head_retry) <= now
    &&& tree::present(blocks, heads[slot].head_idx)
}

/// Whether the tip at slot `a` is served before the one at slot `b`: it asked
/// longer ago, or at the same time and it is the lower tip.
pub open spec fn request_sooner(
    heads: Seq<ChainHeadEntry>,
    blocks: Seq<BlockEntry>,
    a: int,
    b: int,
) -> bool {
    heads[a].last_request_timestamp < heads[b].last_request_timestamp || (
    heads[a].last_request_timestamp == heads[b].last_request_timestamp && tip_lower(
        heads,
        blocks,
        a,
        b,
    ))
}

/// The tip to serve among `best` and the slots from `slot` on.
pub open spec fn requester_from(
    heads: Seq<ChainHeadEntry>,
    blocks: Seq<BlockEntry>,
    now: u64,
    per_head_retry: u64,
    slot: int,
    best: Option<int>,
) -> Option<int>
    decreases heads.len() - slot,
{
    if slot < 0 || slot >= heads.len() {
        best
    } else if may_request(heads, blocks, now, per_head_retry, slot) && (best is None
        || request_sooner(heads, blocks, slot, best->0)) {
        requester_from(heads, blocks, now, per_head_retry, slot + 1, Some(slot))
    } else {
        requester_from(heads, blocks, now, per_head_retry, slot + 1, best)
    }
}

/// The tip to serve, and the request for its missing parent.
pub open spec fn parent_request(
    heads: Seq<ChainHeadEntry>,
    blocks: Seq<BlockEntry>,
    now: u64,
    per_head_retry: u64,
) -> Option<(int, ParentRecoveryRequest)> {
    match requester_from(heads, blocks, now, per_head_retry, 0, None) {
        Some(slot) => if tree::present(blocks, heads[slot].tail_or_connection_idx) {
            let tail = blocks[heads[slot].tail_or_connection_idx as int];
            Some(
                (
                    slot,
                    ParentRecoveryRequest {
                        missing_parent_hash: heads[slot].missing_parent_hash,
                        claimed_parent_sequence: if tail.sequence == 0 {
                            0
                        } else {
                            (tail.sequence - 1) as u32
                        },
                    },
                ),
            )
        } else {
            None
        },
        None => None,
    }
}

/// The earliest instant at which a tip from `slot` on may ask for its parent.
pub open spec fn earliest_deadline(
    heads: Seq<ChainHeadEntry>,
    per_head_retry: u64,
    slot: int,
) -> Option<u64>
    decreases heads.len() - slot,
{
    if slot < 0 || slot >= heads.len() {
        None
    } else {
        let later = earliest_deadline(heads, per_head_retry, slot + 1);
        if !heads[slot].waiting() {
            later
        } else {
            let own = eligible_at(heads[slot].last_request_timestamp, per_head_retry);
            match later {
                Some(other) => if other < own {
                    Some(other)
                } else {
                    Some(own)
                },
                None => Some(own),
            }
        }
    }
}

// -- What the bookkeeping of tips never touches ------------------------------

/// The only changes from `before` to `after` are branch counts, parents that
/// were missing, and released blocks off the active chain.
pub open spec fn tips_only(before: Seq<BlockEntry>, after: Seq<BlockEntry>) -> bool {
    &&& tree::retains(before, after)
    &&& forall|i: int|
        0 <= i < before.len() && (#[trigger] after[i]).occupied() ==> after[i].flags
            == before[i].flags && after[i].spent_bits == before[i].spent_bits
    &&& forall|i: int|
        0 <= i < before.len() && before[i].occupied() && before[i].active() ==> (
        #[trigger] after[i]).occupied()
}

proof fn lemma_tips_only_transitive(
    first: Seq<BlockEntry>,
    second: Seq<BlockEntry>,
    third: Seq<BlockEntry>,
)
    requires
        tips_only(first, second),
        tips_only(second, third),
    ensures
        tips_only(first, third),
{
    tree::retains_transitive(first, second, third);
    assert forall|i: int| 0 <= i < first.len() && (#[trigger] third[i]).occupied() implies third[i].flags
        == first[i].flags && third[i].spent_bits == first[i].spent_bits by {
        assert(second[i].occupied());
    }
    assert forall|i: int|
        0 <= i < first.len() && first[i].occupied() && first[i].active() implies (
    #[trigger] third[i]).occupied() by {
        assert(second[i].occupied());
    }
}

proof fn lemma_pruned_tips_only(blocks: Seq<BlockEntry>, current: u32, steps: nat)
    ensures
        tips_only(blocks, pruned(blocks, current, steps)),
    decreases steps,
{
    if steps != 0 && tree::present(blocks, current) {
        let entry = blocks[current as int];
        let fewer = tree::recounted(blocks, current, -1i8);
        assert(tips_only(blocks, fewer));
        if !(entry.active() || tree::adjusted_count(entry.head_ref_count, -1i8) != 0) {
            let gone = tree::released(fewer, current);
            assert(tips_only(blocks, gone));
            if entry.parent_ref != NONE_REF {
                lemma_pruned_tips_only(gone, entry.parent_ref, (steps - 1) as nat);
                lemma_tips_only_transitive(
                    blocks,
                    gone,
                    pruned(gone, entry.parent_ref, (steps - 1) as nat),
                );
            }
        }
    }
}

/// Evicting a tip never releases a block of the active chain, and changes
/// nothing of a block it keeps but its branch count.
pub proof fn eviction_spares_the_active_chain(t: Tips, active_head_idx: u32)
    ensures
        tips_only(t.blocks, evicted(t, active_head_idx).blocks),
{
    match victim(t.heads, t.blocks, active_head_idx) {
        Some(slot) => {
            lemma_pruned_tips_only(t.blocks, t.heads[slot].head_idx, t.blocks.len());
        },
        None => {},
    }
}

proof fn lemma_tip_inserted_tips_only(
    t: Tips,
    head_idx: u32,
    arrival: u64,
    prev_hash: BlockHash,
    active_head_idx: u32,
)
    ensures
        tips_only(
            t.blocks,
            tip_inserted(t, head_idx, arrival, prev_hash, active_head_idx).blocks,
        ),
{
    eviction_spares_the_active_chain(t, active_head_idx);
}

proof fn lemma_tails_linked_tips_only(t: Tips, slot: int, end: int, x_idx: u32)
    ensures
        tips_only(t.blocks, tails_linked(t, slot, end, x_idx).blocks),
    decreases end - slot,
{
    if slot < end {
        let next = tail_linked(t, slot, x_idx);
        assert(tips_only(t.blocks, next.blocks));
        lemma_tails_linked_tips_only(next, slot + 1, end, x_idx);
        lemma_tips_only_transitive(
            t.blocks,
            next.blocks,
            tails_linked(next, slot + 1, end, x_idx).blocks,
        );
    }
}

/// Admitting a block never releases a block of the active chain, and changes
/// nothing of the other blocks but branch counts and parents that were missing.
pub proof fn admission_spares_the_active_chain(
    t: Tips,
    new_idx: u32,
    parent: Option<u32>,
    prev_hash: BlockHash,
    arrival: u64,
    active_head_idx: u32,
)
    ensures
        tips_only(
            t.blocks,
            block_admitted(t, new_idx, parent, prev_hash, arrival, active_head_idx).blocks,
        ),
{
    let counted = tree::recounted(t.blocks, new_idx, 1i8);
    assert(tips_only(t.blocks, counted));
    let placed = tip_admitted(t, new_idx, parent, prev_hash, arrival, active_head_idx);
    match parent {
        Some(parent_idx) => {
            if head_slot(t.heads, parent_idx, 0) is None {
                let forked = Tips {
                    heads: t.heads,
                    blocks: tree::recounted(counted, parent_idx, 1i8),
                };
                assert(tips_only(t.blocks, forked.blocks));
                lemma_tip_inserted_tips_only(forked, new_idx, arrival, prev_hash, active_head_idx);
                lemma_tips_only_transitive(t.blocks, forked.blocks, placed.blocks);
            }
        },
        None => {
            let start = Tips { heads: t.heads, blocks: counted };
            lemma_tip_inserted_tips_only(start, new_idx, arrival, prev_hash, active_head_idx);
            lemma_tips_only_transitive(t.blocks, counted, placed.blocks);
        },
    }
    lemma_tails_linked_tips_only(placed, 0, placed.heads.len() as int, new_idx);
    lemma_tips_only_transitive(
        t.blocks,
        placed.blocks,
        tails_linked(placed, 0, placed.heads.len() as int, new_idx).blocks,
    );
}

proof fn lemma_branch_counted_tips_only(blocks: Seq<BlockEntry>, current: u32, steps: nat)
    ensures
        tips_only(blocks, branch_counted(blocks, current, steps)),
    decreases steps,
{
    if steps != 0 && tree::present(blocks, current) {
        let entry = blocks[current as int];
        let more = tree::recounted(blocks, current, 1i8);
        assert(tips_only(blocks, more));
        if !(entry.head_ref_count != 0 || entry.parent_ref == NONE_REF) {
            lemma_branch_counted_tips_only(more, entry.parent_ref, (steps - 1) as nat);
            lemma_tips_only_transitive(
                blocks,
                more,
                branch_counted(more, entry.parent_ref, (steps - 1) as nat),
            );
        }
    }
}

proof fn lemma_tips_counted_tips_only(
    blocks: Seq<BlockEntry>,
    heads: Seq<ChainHeadEntry>,
    slot: int,
    end: int,
)
    ensures
        tips_only(blocks, tips_counted(blocks, heads, slot, end)),
    decreases end - slot,
{
    if slot < end {
        if heads[slot].in_use() {
            let next = branch_counted(blocks, heads[slot].head_idx, blocks.len());
            lemma_branch_counted_tips_only(blocks, heads[slot].head_idx, blocks.len());
            lemma_tips_counted_tips_only(next, heads, slot + 1, end);
            lemma_tips_only_transitive(blocks, next, tips_counted(next, heads, slot + 1, end));
        } else {
            lemma_tips_counted_tips_only(blocks, heads, slot + 1, end);
        }
    } else {
        assert(tips_only(blocks, blocks));
    }
}

/// Following a deletion releases nothing further, and changes nothing of the
/// remaining blocks but their branch counts.
pub proof fn deletion_follow_up_spares_the_rest(t: Tips, deleted: Seq<u32>, parent: u32)
    ensures
        tips_only(t.blocks, subtree_dropped(t, deleted, parent).blocks),
{
    let after = subtree_dropped(t, deleted, parent);
    let start = tree::uncounted(t.blocks);
    assert(tips_only(t.blocks, start));
    lemma_tips_counted_tips_only(start, after.heads, 0, t.heads.len() as int);
    lemma_tips_only_transitive(t.blocks, start, after.blocks);
}

/// The two trees differ in branch counts alone.
pub open spec fn counts_only(before: Seq<BlockEntry>, after: Seq<BlockEntry>) -> bool {
    &&& after.len() == before.len()
    &&& forall|i: int| 0 <= i < before.len() ==> (#[trigger] after[i]).with_count(0)
        == before[i].with_count(0)
}

proof fn lemma_branch_counted_counts_only(
    first: Seq<BlockEntry>,
    blocks: Seq<BlockEntry>,
    current: u32,
    steps: nat,
)
    requires
        counts_only(first, blocks),
    ensures
        counts_only(first, branch_counted(blocks, current, steps)),
    decreases steps,
{
    if steps > 0 && tree::present(blocks, current) {
        let next = tree::recounted(blocks, current, 1i8);
        assert(counts_only(first, next));
        if blocks[current as int].parent_ref != NONE_REF {
            lemma_branch_counted_counts_only(
                first,
                next,
                blocks[current as int].parent_ref,
                (steps - 1) as nat,
            );
        }
    }
}

proof fn lemma_tips_counted_counts_only(
    first: Seq<BlockEntry>,
    blocks: Seq<BlockEntry>,
    heads: Seq<ChainHeadEntry>,
    slot: int,
    end: int,
)
    requires
        counts_only(first, blocks),
    ensures
        counts_only(first, tips_counted(blocks, heads, slot, end)),
    decreases end - slot,
{
    if slot < end {
        if heads[slot].in_use() {
            lemma_branch_counted_counts_only(first, blocks, heads[slot].head_idx, blocks.len());
            lemma_tips_counted_counts_only(
                first,
                branch_counted(blocks, heads[slot].head_idx, blocks.len()),
                heads,
                slot + 1,
                end,
            );
        } else {
            lemma_tips_counted_counts_only(first, blocks, heads, slot + 1, end);
        }
    }
}

/// Following up a deletion changes nothing of the remaining tree but branch
/// counts.
pub proof fn deletion_follow_up_only_counts(t: Tips, deleted: Seq<u32>, parent: u32)
    ensures
        counts_only(t.blocks, subtree_dropped(t, deleted, parent).blocks),
        forall|idx: u32|
            #[trigger] tree::present(subtree_dropped(t, deleted, parent).blocks, idx)
                == tree::present(t.blocks, idx),
{
    let after = subtree_dropped(t, deleted, parent);
    let start = tree::uncounted(t.blocks);
    assert(counts_only(t.blocks, start));
    lemma_tips_counted_counts_only(t.blocks, start, after.heads, 0, t.heads.len() as int);
    assert forall|idx: u32| #[trigger] tree::present(after.blocks, idx) == tree::present(
        t.blocks,
        idx,
    ) by {
        if idx < t.blocks.len() {
            assert(after.blocks[idx as int].with_count(0) == t.blocks[idx as int].with_count(0));
        }
    }
}

proof fn lemma_leaves_counted_tips_only(
    blocks: Seq<BlockEntry>,
    leaves: Seq<BlockEntry>,
    idx: int,
)
    ensures
        tips_only(blocks, leaves_counted(blocks, leaves, idx)),
    decreases leaves.len() - idx,
{
    if 0 <= idx < leaves.len() {
        if leaves[idx].occupied() && tree::childless(leaves, idx as u32) {
            let next = branch_counted(blocks, idx as u32, blocks.len());
            lemma_branch_counted_tips_only(blocks, idx as u32, blocks.len());
            lemma_leaves_counted_tips_only(next, leaves, idx + 1);
            lemma_tips_only_transitive(blocks, next, leaves_counted(next, leaves, idx + 1));
        } else {
            lemma_leaves_counted_tips_only(blocks, leaves, idx + 1);
        }
    } else {
        assert(tips_only(blocks, blocks));
    }
}

proof fn lemma_leaves_inserted_tips_only(
    t: Tips,
    leaves: Seq<BlockEntry>,
    idx: int,
    previous_hashes: Seq<BlockHash>,
    now: u64,
    active_head_idx: u32,
)
    ensures
        tips_only(
            t.blocks,
            leaves_inserted(t, leaves, idx, previous_hashes, now, active_head_idx).blocks,
        ),
    decreases leaves.len() - idx,
{
    if 0 <= idx < leaves.len() {
        if leaves[idx].occupied() && tree::childless(leaves, idx as u32)
            && t.blocks[idx].occupied() {
            let next = tip_inserted(t, idx as u32, now, previous_hashes[idx], active_head_idx);
            lemma_tip_inserted_tips_only(
                t,
                idx as u32,
                now,
                previous_hashes[idx],
                active_head_idx,
            );
            lemma_leaves_inserted_tips_only(
                next,
                leaves,
                idx + 1,
                previous_hashes,
                now,
                active_head_idx,
            );
            lemma_tips_only_transitive(
                t.blocks,
                next.blocks,
                leaves_inserted(
                    next,
                    leaves,
                    idx + 1,
                    previous_hashes,
                    now,
                    active_head_idx,
                ).blocks,
            );
        } else {
            lemma_leaves_inserted_tips_only(
                t,
                leaves,
                idx + 1,
                previous_hashes,
                now,
                active_head_idx,
            );
        }
    } else {
        assert(tips_only(t.blocks, t.blocks));
    }
}

/// Rebuilding the table never releases a block of the active chain, and changes
/// nothing of a block it keeps but its branch count.
pub proof fn rebuild_spares_the_active_chain(
    vacant_heads: Seq<ChainHeadEntry>,
    blocks: Seq<BlockEntry>,
    previous_hashes: Seq<BlockHash>,
    now: u64,
    active_head_idx: u32,
)
    ensures
        tips_only(
            blocks,
            rebuilt(vacant_heads, blocks, previous_hashes, now, active_head_idx).blocks,
        ),
{
    let start = tree::uncounted(blocks);
    assert(tips_only(blocks, start));
    let counted = leaves_counted(start, start, 0);
    lemma_leaves_counted_tips_only(start, start, 0);
    lemma_tips_only_transitive(blocks, start, counted);
    let t = Tips { heads: vacant_heads, blocks: counted };
    lemma_leaves_inserted_tips_only(
        t,
        start,
        0,
        previous_hashes,
        now,
        active_head_idx,
    );
    lemma_tips_only_transitive(
        blocks,
        counted,
        leaves_inserted(
            t,
            start,
            0,
            previous_hashes,
            now,
            active_head_idx,
        ).blocks,
    );
}

/// Two trees hold the same blocks with the same links.
pub open spec fn same_shape(a: Seq<BlockEntry>, b: Seq<BlockEntry>) -> bool {
    &&& a.len() == b.len()
    &&& forall|i: int|
        0 <= i < a.len() ==> (#[trigger] a[i]).sequence == b[i].sequence && a[i].parent_ref
            == b[i].parent_ref
}

proof fn lemma_same_shape_childless(a: Seq<BlockEntry>, b: Seq<BlockEntry>, idx: u32)
    requires
        same_shape(a, b),
    ensures
        tree::childless(a, idx) == tree::childless(b, idx),
{
    if tree::childless(a, idx) {
        assert forall|i: int| 0 <= i < b.len() && (#[trigger] b[i]).occupied() implies b[i].parent_ref
            != idx by {
            assert(a[i].occupied());
        }
    }
    if tree::childless(b, idx) {
        assert forall|i: int| 0 <= i < a.len() && (#[trigger] a[i]).occupied() implies a[i].parent_ref
            != idx by {
            assert(b[i].occupied());
        }
    }
}

proof fn lemma_branch_counted_shape(blocks: Seq<BlockEntry>, current: u32, steps: nat)
    ensures
        same_shape(blocks, branch_counted(blocks, current, steps)),
    decreases steps,
{
    if steps != 0 && tree::present(blocks, current) {
        let entry = blocks[current as int];
        assert(same_shape(blocks, tree::recounted(blocks, current, 1i8)));
        if !(entry.head_ref_count != 0 || entry.parent_ref == NONE_REF) {
            lemma_branch_counted_shape(
                tree::recounted(blocks, current, 1i8),
                entry.parent_ref,
                (steps - 1) as nat,
            );
        }
    }
}

/// Bounded table of block-tree tips over `MAX_BRANCH_COUNT` slots.
pub struct ChainHeadsTable<const MAX_BRANCH_COUNT: usize> {
    pub heads: Vec<ChainHeadEntry>,
}

impl<const MAX_BRANCH_COUNT: usize> ChainHeadsTable<MAX_BRANCH_COUNT> {
    /// The table has exactly `MAX_BRANCH_COUNT` slots.
    pub open spec fn wf(self) -> bool {
        self.heads@.len() == MAX_BRANCH_COUNT
    }

    /// The tip table together with the block-tree.
    pub open spec fn tips<const MAX_BLOCKS: usize>(self, blocks: BlockTable<MAX_BLOCKS>) -> Tips {
        Tips { heads: self.heads@, blocks: blocks.blocks@ }
    }

    /// An empty table.
    pub fn new() -> (table: Self)
        ensures
            table.wf(),
            forall|i: int|
                0 <= i < MAX_BRANCH_COUNT ==> table.heads@[i] == ChainHeadEntry::vacant(),
    {
        let mut heads: Vec<ChainHeadEntry> = Vec::new();
        let mut i: usize = 0;
        while i < MAX_BRANCH_COUNT
            invariant
                i <= MAX_BRANCH_COUNT,
                heads@.len() == i,
                forall|j: int| 0 <= j < i ==> heads@[j] == ChainHeadEntry::vacant(),
            decreases MAX_BRANCH_COUNT - i,
        {
            heads.push(ChainHeadEntry::new_empty());
            i = i + 1;
        }
        ChainHeadsTable { heads }
    }

    /// The entry in a slot.
    pub fn head_at(&self, slot: usize) -> (entry: &ChainHeadEntry)
        requires
            self.wf(),
            slot < MAX_BRANCH_COUNT,
        ensures
            *entry == self.heads@[slot as int],
    {
        &self.heads[slot]
    }

    /// Number of tracked tips.
    pub fn count(&self) -> (count: usize)
        requires
            self.wf(),
        ensures
            count == tip_count(self.heads@),
            count <= MAX_BRANCH_COUNT,
    {
        let mut count: usize = 0;
        let mut i: usize = 0;
        while i < self.heads.len()
            invariant
                self.wf(),
                i <= MAX_BRANCH_COUNT,
                count <= i,
                count == tip_count(self.heads@.take(i as int)),
            decreases MAX_BRANCH_COUNT - i,
        {
            assert(self.heads@.take(i + 1).drop_last() =~= self.heads@.take(i as int));
            if !self.heads[i].is_empty() {
                count = count + 1;
            }
            i = i + 1;
        }
        assert(self.heads@.take(i as int) =~= self.heads@);
        count
    }

    /// Whether some tip waits for a missing parent.
    pub fn has_stored_head(&self) -> (found: bool)
        requires
            self.wf(),
        ensures
            found == exists|i: int|
                0 <= i < MAX_BRANCH_COUNT && (#[trigger] self.heads@[i]).waiting(),
    {
        let mut i: usize = 0;
        while i < self.heads.len()
            invariant
                self.wf(),
                i <= MAX_BRANCH_COUNT,
                forall|j: int| 0 <= j < i ==> !(#[trigger] self.heads@[j]).waiting(),
            decreases MAX_BRANCH_COUNT - i,
        {
            if self.heads[i].is_stored() {
                return true;
            }
            i = i + 1;
        }
        false
    }

    /// The tip and the end of the branch of every tracked entry, in slot order.
    pub fn occupied_heads(&self) -> (pairs: Vec<(u32, u32)>)
        requires
            self.wf(),
        ensures
            pairs@ == head_pairs(self.heads@),
    {
        let mut pairs: Vec<(u32, u32)> = Vec::new();
        let mut i: usize = 0;
        while i < self.heads.len()
            invariant
                self.wf(),
                i <= MAX_BRANCH_COUNT,
                pairs@ == head_pairs(self.heads@.take(i as int)),
            decreases MAX_BRANCH_COUNT - i,
        {
            assert(self.heads@.take(i + 1).drop_last() =~= self.heads@.take(i as int));
            if !self.heads[i].is_empty() {
                pairs.push((self.heads[i].head_idx, self.heads[i].tail_or_connection_idx));
            }
            i = i + 1;
        }
        assert(self.heads@.take(i as int) =~= self.heads@);
        pairs
    }

    /// The slot whose tip is `head_idx`.
    pub fn slot_of_head(&self, head_idx: u32) -> (slot: Option<usize>)
        requires
            self.wf(),
        ensures
            match slot {
                Some(s) => s < MAX_BRANCH_COUNT && head_slot(self.heads@, head_idx, 0) == Some(
                    s as int,
                ) && self.heads@[s as int].in_use() && self.heads@[s as int].head_idx == head_idx,
                None => head_slot(self.heads@, head_idx, 0) is None,
            },
    {
        let mut i: usize = 0;
        while i < self.heads.len()
            invariant
                self.wf(),
                i <= MAX_BRANCH_COUNT,
                head_slot(self.heads@, head_idx, 0) == head_slot(self.heads@, head_idx, i as int),
            decreases MAX_BRANCH_COUNT - i,
        {
            if !self.heads[i].is_empty() && self.heads[i].head_idx == head_idx {
                return Some(i);
            }
            i = i + 1;
        }
        None
    }

    /// The first empty slot.
    pub fn first_empty(&self) -> (slot: Option<usize>)
        requires
            self.wf(),
        ensures
            match slot {
                Some(s) => s < MAX_BRANCH_COUNT && vacant_slot(self.heads@, 0) == Some(s as int),
                None => vacant_slot(self.heads@, 0) is None,
            },
    {
        let mut i: usize = 0;
        while i < self.heads.len()
            invariant
                self.wf(),
                i <= MAX_BRANCH_COUNT,
                vacant_slot(self.heads@, 0) == vacant_slot(self.heads@, i as int),
            decreases MAX_BRANCH_COUNT - i,
        {
            if self.heads[i].is_empty() {
                return Some(i);
            }
            i = i + 1;
        }
        None
    }

    /// Walks down from `start_idx` to the end of the branch: the first block on
    /// the active chain, or the block whose parent is missing.
    pub fn locate_anchor<const MAX_BLOCKS: usize>(
        blocks: &BlockTable<MAX_BLOCKS>,
        start_idx: u32,
    ) -> (anchor: Anchor)
        requires
            blocks.wf(),
        ensures
            anchor == tip_anchor(blocks.blocks@, start_idx),
    {
        let mut current: u32 = start_idx;
        let mut last_valid: u32 = start_idx;
        let mut steps: usize = MAX_BLOCKS;
        while steps > 0
            invariant
                blocks.wf(),
                steps <= MAX_BLOCKS,
                tip_anchor(blocks.blocks@, start_idx) == anchor_of(
                    blocks.blocks@,
                    current,
                    last_valid,
                    steps as nat,
                ),
            decreases steps,
        {
            match blocks.get(current) {
                None => {
                    return Anchor::Tail(last_valid);
                },
                Some(entry) => {
                    if entry.is_on_active_chain() {
                        return Anchor::Connection(current);
                    }
                    if entry.parent_ref == NONE_REF {
                        return Anchor::Tail(current);
                    }
                    last_valid = current;
                    current = entry.parent_ref;
                },
            }
            steps = steps - 1;
        }
        Anchor::Tail(current)
    }

    /// The hash that a tip other than the one at `slot` asks for on the branch
    /// that ends at `tail_idx`.
    pub fn cached_missing_hash_for_tail(&self, tail_idx: u32, slot: usize) -> (hash: Option<
        BlockHash,
    >)
        requires
            self.wf(),
        ensures
            hash == shared_missing_hash(self.heads@, tail_idx, slot as int, 0),
    {
        let mut i: usize = 0;
        while i < self.heads.len()
            invariant
                self.wf(),
                i <= MAX_BRANCH_COUNT,
                shared_missing_hash(self.heads@, tail_idx, slot as int, 0) == shared_missing_hash(
                    self.heads@,
                    tail_idx,
                    slot as int,
                    i as int,
                ),
            decreases MAX_BRANCH_COUNT - i,
        {
            if i != slot && self.heads[i].is_stored() && self.heads[i].tail_or_connection_idx
                == tail_idx {
                return Some(self.heads[i].missing_parent_hash);
            }
            i = i + 1;
        }
        None
    }

    /// Classifies the tip at `slot` against the block-tree: Connected where its
    /// branch meets the active chain, Stored otherwise. `known_hash` is the
    /// previous hash of the block at `known_idx`; the hash of another lowest
    /// block is taken from the tips that share it.
    pub fn recompute_caches<const MAX_BLOCKS: usize>(
        &mut self,
        slot: usize,
        blocks: &BlockTable<MAX_BLOCKS>,
        known_idx: u32,
        known_hash: &BlockHash,
    )
        requires
            old(self).wf(),
            blocks.wf(),
            slot < MAX_BRANCH_COUNT,
        ensures
            final(self).wf(),
            final(self).heads@ == old(self).heads@.update(
                slot as int,
                refreshed(
                    old(self).heads@,
                    blocks.blocks@,
                    slot as int,
                    known_idx,
                    *known_hash,
                ),
            ),
    {
        let mut entry: ChainHeadEntry = self.heads[slot];
        match Self::locate_anchor(blocks, entry.head_idx) {
            Anchor::Connection(idx) => {
                entry.flags = entry.flags | FLAG_CONNECTED;
                entry.tail_or_connection_idx = idx;
                entry.last_request_timestamp = 0;
                entry.missing_parent_hash = no_hash();
            },
            Anchor::Tail(idx) => {
                if idx == known_idx {
                    entry.missing_parent_hash = *known_hash;
                } else if !(entry.is_stored() && entry.tail_or_connection_idx == idx) {
                    entry.missing_parent_hash = match self.cached_missing_hash_for_tail(idx, slot) {
                        Some(hash) => hash,
                        None => *known_hash,
                    };
                }
                entry.flags = entry.flags & !FLAG_CONNECTED;
                entry.tail_or_connection_idx = idx;
            },
        }
        self.heads[slot] = entry;
    }

    /// Follows the admission of the block `new_idx`, already in the tree:
    /// `parent` is the slot of its parent if that is in the tree, `prev_hash`
    /// its previous hash, and `active_head_idx` the head of the active chain.
    pub fn on_block_admitted<const MAX_BLOCKS: usize>(
        &mut self,
        blocks: &mut BlockTable<MAX_BLOCKS>,
        new_idx: u32,
        parent: Option<u32>,
        prev_hash: BlockHash,
        arrival_now: u64,
        active_head_idx: u32,
    )
        requires
            old(self).wf(),
            old(blocks).wf(),
        ensures
            final(self).wf(),
            final(blocks).wf(),
            final(self).tips(*final(blocks)) == block_admitted(
                old(self).tips(*old(blocks)),
                new_idx,
                parent,
                prev_hash,
                arrival_now,
                active_head_idx,
            ),
    {
        blocks.adjust_head_ref_count(new_idx, 1);
        match parent {
            Some(parent_idx) => {
                match self.slot_of_head(parent_idx) {
                    Some(slot) => {
                        let mut entry: ChainHeadEntry = self.heads[slot];
                        entry.head_idx = new_idx;
                        entry.arrival_timestamp = arrival_now;
                        self.heads[slot] = entry;
                        self.recompute_caches(slot, blocks, new_idx, &prev_hash);
                    },
                    None => {
                        blocks.adjust_head_ref_count(parent_idx, 1);
                        self.insert_head(blocks, new_idx, arrival_now, &prev_hash, active_head_idx);
                    },
                }
            },
            None => {
                self.insert_head(blocks, new_idx, arrival_now, &prev_hash, active_head_idx);
            },
        }
        self.resolve_pending_tails(blocks, new_idx, &prev_hash);
    }

    /// Gives the tip `head_idx` a slot, evicting another tip when the table is
    /// full. When even that frees none, the tip stays untracked.
    pub fn insert_head<const MAX_BLOCKS: usize>(
        &mut self,
        blocks: &mut BlockTable<MAX_BLOCKS>,
        head_idx: u32,
        arrival_now: u64,
        prev_hash: &BlockHash,
        active_head_idx: u32,
    )
        requires
            old(self).wf(),
            old(blocks).wf(),
        ensures
            final(self).wf(),
            final(blocks).wf(),
            final(self).tips(*final(blocks)) == tip_inserted(
                old(self).tips(*old(blocks)),
                head_idx,
                arrival_now,
                *prev_hash,
                active_head_idx,
            ),
    {
        let (known_idx, known_hash): (u32, BlockHash) = self.known_end(
            blocks,
            head_idx,
            prev_hash,
        );
        if self.count() >= MAX_BRANCH_COUNT {
            self.evict_one(blocks, active_head_idx);
        }
        match self.first_empty() {
            None => {},
            Some(slot) => {
                self.heads[slot] = ChainHeadEntry {
                    head_idx,
                    tail_or_connection_idx: head_idx,
                    missing_parent_hash: no_hash(),
                    last_request_timestamp: 0,
                    arrival_timestamp: arrival_now,
                    branch_value: 0,
                    flags: 0,
                };
                self.recompute_caches(slot, blocks, known_idx, &known_hash);
            },
        }
    }

    /// What is known of the end of the branch of `head_idx` before it is a tip:
    /// its lowest block, and the hash that it waits for.
    fn known_end<const MAX_BLOCKS: usize>(
        &self,
        blocks: &BlockTable<MAX_BLOCKS>,
        head_idx: u32,
        prev_hash: &BlockHash,
    ) -> (known: (u32, BlockHash))
        requires
            self.wf(),
            blocks.wf(),
        ensures
            known == known_end(self.tips(*blocks), head_idx, *prev_hash),
    {
        match Self::locate_anchor(blocks, head_idx) {
            Anchor::Tail(idx) => {
                if idx != head_idx {
                    if let Some(hash) = self.cached_missing_hash_for_tail(idx, MAX_BRANCH_COUNT) {
                        return (idx, hash);
                    }
                }
                (head_idx, *prev_hash)
            },
            Anchor::Connection(_) => (head_idx, *prev_hash),
        }
    }

    /// Attaches every branch that waits for the block `x_idx` to it. Several
    /// tips may share one lowest block: it is linked once, and all of them are
    /// classified anew, so that none keeps asking for a block now in the tree.
    pub fn resolve_pending_tails<const MAX_BLOCKS: usize>(
        &mut self,
        blocks: &mut BlockTable<MAX_BLOCKS>,
        x_idx: u32,
        x_prev_hash: &BlockHash,
    )
        requires
            old(self).wf(),
            old(blocks).wf(),
        ensures
            final(self).wf(),
            final(blocks).wf(),
            final(self).tips(*final(blocks)) == tails_resolved(
                old(self).tips(*old(blocks)),
                x_idx,
                *x_prev_hash,
            ),
    {
        let x_entry: BlockEntry = match blocks.get(x_idx) {
            None => {
                return;
            },
            Some(entry) => *entry,
        };
        let x_hash: BlockHash = x_entry.hash;
        let (known_idx, known_hash): (u32, BlockHash) = match self.slot_of_head(x_idx) {
            Some(own) => {
                if self.heads[own].is_stored() {
                    (self.heads[own].tail_or_connection_idx, self.heads[own].missing_parent_hash)
                } else {
                    (x_idx, *x_prev_hash)
                }
            },
            None => (x_idx, *x_prev_hash),
        };
        let ghost start = self.tips(*blocks);
        let ghost linked = tails_linked(start, 0, MAX_BRANCH_COUNT as int, x_idx);

        let mut slot: usize = 0;
        while slot < MAX_BRANCH_COUNT
            invariant
                self.wf(),
                blocks.wf(),
                slot <= MAX_BRANCH_COUNT,
                x_idx < MAX_BLOCKS,
                blocks.blocks@[x_idx as int].occupied(),
                blocks.blocks@[x_idx as int].hash == x_hash,
                blocks.blocks@[x_idx as int].sequence == x_entry.sequence,
                linked == tails_linked(
                    self.tips(*blocks),
                    slot as int,
                    MAX_BRANCH_COUNT as int,
                    x_idx,
                ),
            decreases MAX_BRANCH_COUNT - slot,
        {
            let entry: ChainHeadEntry = self.heads[slot];
            let tail_idx: u32 = entry.tail_or_connection_idx;
            if entry.is_stored() && tail_idx != x_idx && hash_eq(
                &entry.missing_parent_hash,
                &x_hash,
            ) {
                let open_link: bool = match blocks.get(tail_idx) {
                    Some(tail) => tail.parent_ref == NONE_REF && tail.sequence == x_entry.sequence
                        + 1,
                    None => false,
                };
                if open_link {
                    blocks.resolve_parent_ref(tail_idx, x_idx);
                    match self.slot_of_head(x_idx) {
                        Some(own) => {
                            self.heads[own] = ChainHeadEntry::new_empty();
                        },
                        None => {
                            blocks.adjust_head_ref_count(x_idx, 1);
                        },
                    }
                }
            }
            slot = slot + 1;
        }

        let mut slot: usize = 0;
        while slot < MAX_BRANCH_COUNT
            invariant
                self.wf(),
                blocks.wf(),
                slot <= MAX_BRANCH_COUNT,
                blocks.blocks@ == linked.blocks,
                waiters_refreshed(
                    linked.heads,
                    linked.blocks,
                    0,
                    MAX_BRANCH_COUNT as int,
                    x_hash,
                    known_idx,
                    known_hash,
                ) == waiters_refreshed(
                    self.heads@,
                    linked.blocks,
                    slot as int,
                    MAX_BRANCH_COUNT as int,
                    x_hash,
                    known_idx,
                    known_hash,
                ),
            decreases MAX_BRANCH_COUNT - slot,
        {
            if self.heads[slot].is_stored() && hash_eq(
                &self.heads[slot].missing_parent_hash,
                &x_hash,
            ) {
                self.recompute_caches(slot, blocks, known_idx, &known_hash);
            }
            slot = slot + 1;
        }
    }

    /// Evicts the lowest tip that is not the head of the active chain, and
    /// releases the blocks only its branch needed. A block on the active chain
    /// is never released.
    pub fn evict_one<const MAX_BLOCKS: usize>(
        &mut self,
        blocks: &mut BlockTable<MAX_BLOCKS>,
        active_head_idx: u32,
    )
        requires
            old(self).wf(),
            old(blocks).wf(),
        ensures
            final(self).wf(),
            final(blocks).wf(),
            final(self).tips(*final(blocks)) == evicted(
                old(self).tips(*old(blocks)),
                active_head_idx,
            ),
    {
        let victim_slot: usize = match self.select_eviction_victim(blocks, active_head_idx) {
            None => {
                return;
            },
            Some(slot) => slot,
        };
        let mut current: u32 = self.heads[victim_slot].head_idx;
        self.heads[victim_slot] = ChainHeadEntry::new_empty();
        let ghost goal = pruned(blocks.blocks@, current, MAX_BLOCKS as nat);
        let mut steps: usize = MAX_BLOCKS;
        while steps > 0
            invariant_except_break
                blocks.wf(),
                steps <= MAX_BLOCKS,
                goal == pruned(blocks.blocks@, current, steps as nat),
            ensures
                blocks.wf(),
                blocks.blocks@ == goal,
            decreases steps,
        {
            let (parent, on_active): (u32, bool) = match blocks.get(current) {
                Some(entry) => (entry.parent_ref, entry.is_on_active_chain()),
                None => {
                    break;
                },
            };
            let left: Option<u8> = blocks.adjust_head_ref_count(current, -1);
            if on_active {
                break;
            }
            match left {
                Some(count) => {
                    if count != 0 {
                        break;
                    }
                },
                None => {},
            }
            blocks.delete(current);
            if parent == NONE_REF {
                break;
            }
            current = parent;
            steps = steps - 1;
        }
    }

    /// The tip to evict: the lowest one that is not the head of the active
    /// chain.
    pub fn select_eviction_victim<const MAX_BLOCKS: usize>(
        &self,
        blocks: &BlockTable<MAX_BLOCKS>,
        active_head_idx: u32,
    ) -> (slot: Option<usize>)
        requires
            self.wf(),
            blocks.wf(),
        ensures
            match slot {
                Some(s) => s < MAX_BRANCH_COUNT && victim(
                    self.heads@,
                    blocks.blocks@,
                    active_head_idx,
                ) == Some(s as int),
                None => victim(self.heads@, blocks.blocks@, active_head_idx) is None,
            },
    {
        let mut best: Option<usize> = None;
        let mut slot: usize = 0;
        while slot < MAX_BRANCH_COUNT
            invariant
                self.wf(),
                blocks.wf(),
                slot <= MAX_BRANCH_COUNT,
                match best {
                    Some(b) => b < MAX_BRANCH_COUNT && evictable(
                        self.heads@,
                        blocks.blocks@,
                        active_head_idx,
                        b as int,
                    ),
                    None => true,
                },
                victim(self.heads@, blocks.blocks@, active_head_idx) == victim_from(
                    self.heads@,
                    blocks.blocks@,
                    active_head_idx,
                    slot as int,
                    as_slot(best),
                ),
            decreases MAX_BRANCH_COUNT - slot,
        {
            let head: ChainHeadEntry = self.heads[slot];
            if !head.is_empty() && head.head_idx != active_head_idx && blocks.get(
                head.head_idx,
            ).is_some() {
                let take: bool = match best {
                    None => true,
                    Some(b) => self.is_lower(blocks, slot, b),
                };
                if take {
                    best = Some(slot);
                }
            }
            slot = slot + 1;
        }
        best
    }

    /// Whether the tip at slot `a` is lower than the one at slot `b`.
    fn is_lower<const MAX_BLOCKS: usize>(
        &self,
        blocks: &BlockTable<MAX_BLOCKS>,
        a: usize,
        b: usize,
    ) -> (lower: bool)
        requires
            self.wf(),
            blocks.wf(),
            a < MAX_BRANCH_COUNT,
            b < MAX_BRANCH_COUNT,
            self.heads@[a as int].head_idx < MAX_BLOCKS,
            self.heads@[b as int].head_idx < MAX_BLOCKS,
        ensures
            lower == tip_lower(self.heads@, blocks.blocks@, a as int, b as int),
    {
        let left: &BlockEntry = &blocks.blocks[self.heads[a].head_idx as usize];
        let right: &BlockEntry = &blocks.blocks[self.heads[b].head_idx as usize];
        left.sequence < right.sequence || (left.sequence == right.sequence && hash_less(
            &left.hash,
            &right.hash,
        ))
    }

    /// The tip whose missing parent to ask for, with the request: among the
    /// Stored tips whose retry interval is over, the one that asked longest
    /// ago, then the lowest one.
    pub fn select_parent_recovery<const MAX_BLOCKS: usize>(
        &self,
        blocks: &BlockTable<MAX_BLOCKS>,
        now: u64,
        per_head_retry: u64,
    ) -> (selected: Option<(usize, ParentRecoveryRequest)>)
        requires
            self.wf(),
            blocks.wf(),
        ensures
            match selected {
                Some((slot, request)) => slot < MAX_BRANCH_COUNT && parent_request(
                    self.heads@,
                    blocks.blocks@,
                    now,
                    per_head_retry,
                ) == Some((slot as int, request)),
                None => parent_request(self.heads@, blocks.blocks@, now, per_head_retry) is None,
            },
    {
        let mut best: Option<usize> = None;
        let mut slot: usize = 0;
        while slot < MAX_BRANCH_COUNT
            invariant
                self.wf(),
                blocks.wf(),
                slot <= MAX_BRANCH_COUNT,
                match best {
                    Some(b) => b < MAX_BRANCH_COUNT && may_request(
                        self.heads@,
                        blocks.blocks@,
                        now,
                        per_head_retry,
                        b as int,
                    ),
                    None => true,
                },
                requester_from(self.heads@, blocks.blocks@, now, per_head_retry, 0, None)
                    == requester_from(
                    self.heads@,
                    blocks.blocks@,
                    now,
                    per_head_retry,
                    slot as int,
                    as_slot(best),
                ),
            decreases MAX_BRANCH_COUNT - slot,
        {
            let head: ChainHeadEntry = self.heads[slot];
            if head.is_stored() && Self::head_eligible_at(
                head.last_request_timestamp,
                per_head_retry,
            ) <= now && blocks.get(head.head_idx).is_some() {
                let take: bool = match best {
                    None => true,
                    Some(b) => {
                        let asked: u64 = self.heads[b].last_request_timestamp;
                        head.last_request_timestamp < asked || (head.last_request_timestamp
                            == asked && self.is_lower(blocks, slot, b))
                    },
                };
                if take {
                    best = Some(slot);
                }
            }
            slot = slot + 1;
        }
        match best {
            None => None,
            Some(slot) => {
                let tail_idx: u32 = self.heads[slot].tail_or_connection_idx;
                match blocks.get(tail_idx) {
                    None => None,
                    Some(tail) => {
                        let claimed: u32 = if tail.sequence == 0 {
                            0
                        } else {
                            tail.sequence - 1
                        };
                        Some(
                            (
                                slot,
                                ParentRecoveryRequest::new(
                                    self.heads[slot].missing_parent_hash,
                                    claimed,
                                ),
                            ),
                        )
                    },
                }
            },
        }
    }

    /// When a tip last asked at `last_request_timestamp` may ask again.
    pub fn head_eligible_at(last_request_timestamp: u64, per_head_retry: u64) -> (at: u64)
        ensures
            at == eligible_at(last_request_timestamp, per_head_retry),
    {
        if last_request_timestamp == 0 {
            0
        } else if last_request_timestamp > u64::MAX - per_head_retry {
            u64::MAX
        } else {
            last_request_timestamp + per_head_retry
        }
    }

    /// The earliest instant at which some Stored tip may ask for its parent;
    /// nothing when no tip waits.
    pub fn earliest_recovery_deadline(&self, per_head_retry: u64) -> (deadline: Option<u64>)
        requires
            self.wf(),
        ensures
            deadline == earliest_deadline(self.heads@, per_head_retry, 0),
    {
        let mut earliest: Option<u64> = None;
        let mut slot: usize = MAX_BRANCH_COUNT;
        while slot > 0
            invariant
                self.wf(),
                slot <= MAX_BRANCH_COUNT,
                earliest == earliest_deadline(self.heads@, per_head_retry, slot as int),
            decreases slot,
        {
            slot = slot - 1;
            if self.heads[slot].is_stored() {
                let own: u64 = Self::head_eligible_at(
                    self.heads[slot].last_request_timestamp,
                    per_head_retry,
                );
                earliest = match earliest {
                    Some(other) => if other < own {
                        Some(other)
                    } else {
                        Some(own)
                    },
                    None => Some(own),
                };
            }
        }
        earliest
    }

    /// Follows the deletion of the blocks in `deleted`, a whole subtree whose
    /// root had the parent `parent_of_target`: drops their tips, keeps the
    /// shortened branch tracked, classifies the remaining tips anew and restores
    /// the branch counts.
    pub fn on_blocks_deleted<const MAX_BLOCKS: usize>(
        &mut self,
        blocks: &mut BlockTable<MAX_BLOCKS>,
        deleted: &Vec<u32>,
        parent_of_target: u32,
    )
        requires
            old(self).wf(),
            old(blocks).wf(),
        ensures
            final(self).wf(),
            final(blocks).wf(),
            final(self).tips(*final(blocks)) == subtree_dropped(
                old(self).tips(*old(blocks)),
                deleted@,
                parent_of_target,
            ),
    {
        let ghost start = self.tips(*blocks);
        let ghost end = MAX_BRANCH_COUNT as int;
        let ghost kept = deleted_dropped(
            start.heads,
            deleted@,
            heir(start, parent_of_target),
            0,
            end,
        );
        let mut heir_idx: Option<u32> = None;
        if blocks.get(parent_of_target).is_some() && blocks.is_childless(parent_of_target)
            && self.slot_of_head(parent_of_target).is_none() {
            heir_idx = Some(parent_of_target);
        }
        let mut slot: usize = 0;
        while slot < MAX_BRANCH_COUNT
            invariant
                self.wf(),
                slot <= MAX_BRANCH_COUNT,
                end == MAX_BRANCH_COUNT,
                kept == deleted_dropped(self.heads@, deleted@, heir_idx, slot as int, end),
            decreases MAX_BRANCH_COUNT - slot,
        {
            if !self.heads[slot].is_empty() && contains_slot(deleted, self.heads[slot].head_idx) {
                match heir_idx {
                    Some(idx) => {
                        self.heads[slot].head_idx = idx;
                        heir_idx = None;
                    },
                    None => {
                        self.heads[slot] = ChainHeadEntry::new_empty();
                    },
                }
            }
            slot = slot + 1;
        }

        let mut slot: usize = 0;
        while slot < MAX_BRANCH_COUNT
            invariant
                self.wf(),
                blocks.wf(),
                slot <= MAX_BRANCH_COUNT,
                end == MAX_BRANCH_COUNT,
                blocks.blocks@ == start.blocks,
                all_refreshed(kept, start.blocks, 0, end) == all_refreshed(
                    self.heads@,
                    start.blocks,
                    slot as int,
                    end,
                ),
            decreases MAX_BRANCH_COUNT - slot,
        {
            if !self.heads[slot].is_empty() {
                let own_hash: BlockHash = self.heads[slot].missing_parent_hash;
                self.recompute_caches(slot, blocks, NONE_REF, &own_hash);
            }
            slot = slot + 1;
        }

        blocks.clear_head_ref_counts();
        let ghost goal = tips_counted(tree::uncounted(start.blocks), self.heads@, 0, end);
        let mut slot: usize = 0;
        while slot < MAX_BRANCH_COUNT
            invariant
                self.wf(),
                blocks.wf(),
                slot <= MAX_BRANCH_COUNT,
                end == MAX_BRANCH_COUNT,
                goal == tips_counted(blocks.blocks@, self.heads@, slot as int, end),
            decreases MAX_BRANCH_COUNT - slot,
        {
            if !self.heads[slot].is_empty() {
                Self::count_branch(blocks, self.heads[slot].head_idx);
            }
            slot = slot + 1;
        }
    }

    /// Counts the branch of the tip `head_idx` on the blocks below it.
    fn count_branch<const MAX_BLOCKS: usize>(blocks: &mut BlockTable<MAX_BLOCKS>, head_idx: u32)
        requires
            old(blocks).wf(),
        ensures
            final(blocks).wf(),
            final(blocks).blocks@ == branch_counted(
                old(blocks).blocks@,
                head_idx,
                MAX_BLOCKS as nat,
            ),
    {
        let ghost goal = branch_counted(blocks.blocks@, head_idx, MAX_BLOCKS as nat);
        let mut current: u32 = head_idx;
        let mut steps: usize = MAX_BLOCKS;
        while steps > 0
            invariant_except_break
                blocks.wf(),
                steps <= MAX_BLOCKS,
                goal == branch_counted(blocks.blocks@, current, steps as nat),
            ensures
                blocks.wf(),
                blocks.blocks@ == goal,
            decreases steps,
        {
            let (parent, count): (u32, u8) = match blocks.get(current) {
                Some(entry) => (entry.parent_ref, entry.head_ref_count),
                None => {
                    break;
                },
            };
            blocks.adjust_head_ref_count(current, 1);
            if count != 0 || parent == NONE_REF {
                break;
            }
            current = parent;
            steps = steps - 1;
        }
    }

    /// Rebuilds the table from a block-tree: every childless block becomes a
    /// tip. `previous_hashes` holds the previous hash of the block in each slot.
    pub fn rebuild_from_blocks<const MAX_BLOCKS: usize>(
        &mut self,
        blocks: &mut BlockTable<MAX_BLOCKS>,
        previous_hashes: &Vec<BlockHash>,
        now: u64,
        active_head_idx: u32,
    )
        requires
            old(self).wf(),
            old(blocks).wf(),
            previous_hashes@.len() == MAX_BLOCKS,
        ensures
            final(self).wf(),
            final(blocks).wf(),
            final(self).tips(*final(blocks)) == rebuilt(
                Seq::new(MAX_BRANCH_COUNT as nat, |i: int| ChainHeadEntry::vacant()),
                old(blocks).blocks@,
                previous_hashes@,
                now,
                active_head_idx,
            ),
    {
        let ghost before = blocks.blocks@;
        let ghost vacant_heads = Seq::new(
            MAX_BRANCH_COUNT as nat,
            |i: int| ChainHeadEntry::vacant(),
        );
        let mut slot: usize = 0;
        while slot < MAX_BRANCH_COUNT
            invariant
                self.wf(),
                slot <= MAX_BRANCH_COUNT,
                forall|i: int| 0 <= i < slot ==> self.heads@[i] == ChainHeadEntry::vacant(),
            decreases MAX_BRANCH_COUNT - slot,
        {
            self.heads[slot] = ChainHeadEntry::new_empty();
            slot = slot + 1;
        }
        assert(self.heads@ =~= vacant_heads);

        blocks.clear_head_ref_counts();
        let ghost leaves = tree::uncounted(before);
        let ghost counted = leaves_counted(leaves, leaves, 0);
        let mut childless: Vec<bool> = Vec::new();
        let mut idx: usize = 0;
        while idx < MAX_BLOCKS
            invariant
                blocks.wf(),
                idx <= MAX_BLOCKS,
                leaves.len() == MAX_BLOCKS,
                same_shape(leaves, blocks.blocks@),
                counted == leaves_counted(blocks.blocks@, leaves, idx as int),
                childless@.len() == idx,
                forall|i: int|
                    0 <= i < idx ==> #[trigger] childless@[i] == (leaves[i].occupied()
                        && tree::childless(leaves, i as u32)),
            decreases MAX_BLOCKS - idx,
        {
            proof {
                lemma_same_shape_childless(leaves, blocks.blocks@, idx as u32);
            }
            let leaf: bool = blocks.get(idx as u32).is_some() && blocks.is_childless(idx as u32);
            childless.push(leaf);
            if leaf {
                proof {
                    lemma_branch_counted_shape(blocks.blocks@, idx as u32, MAX_BLOCKS as nat);
                }
                Self::count_branch(blocks, idx as u32);
            }
            idx = idx + 1;
        }

        let ghost placed = leaves_inserted(
            Tips { heads: vacant_heads, blocks: counted },
            leaves,
            0,
            previous_hashes@,
            now,
            active_head_idx,
        );
        let mut idx: usize = 0;
        while idx < MAX_BLOCKS
            invariant
                self.wf(),
                blocks.wf(),
                idx <= MAX_BLOCKS,
                previous_hashes@.len() == MAX_BLOCKS,
                leaves.len() == MAX_BLOCKS,
                childless@.len() == MAX_BLOCKS,
                forall|i: int|
                    0 <= i < MAX_BLOCKS ==> #[trigger] childless@[i] == (leaves[i].occupied()
                        && tree::childless(leaves, i as u32)),
                placed == leaves_inserted(
                    self.tips(*blocks),
                    leaves,
                    idx as int,
                    previous_hashes@,
                    now,
                    active_head_idx,
                ),
            decreases MAX_BLOCKS - idx,
        {
            if childless[idx] && blocks.get(idx as u32).is_some() {
                self.insert_head(blocks, idx as u32, now, &previous_hashes[idx], active_head_idx);
            }
            idx = idx + 1;
        }

        let mut slot: usize = 0;
        while slot < MAX_BRANCH_COUNT
            invariant
                self.wf(),
                slot <= MAX_BRANCH_COUNT,
                previous_hashes@.len() == MAX_BLOCKS,
                placed.heads.len() == MAX_BRANCH_COUNT,
                forall|i: int|
                    0 <= i < slot ==> self.heads@[i] == missing_hashes_set(
                        placed.heads,
                        previous_hashes@,
                    )[i],
                forall|i: int| slot <= i < MAX_BRANCH_COUNT ==> self.heads@[i] == placed.heads[i],
            decreases MAX_BRANCH_COUNT - slot,
        {
            let tail: usize = self.heads[slot].tail_or_connection_idx as usize;
            if self.heads[slot].is_stored() && tail < MAX_BLOCKS {
                self.heads[slot].missing_parent_hash = previous_hashes[tail];
            }
            slot = slot + 1;
        }
        assert(self.heads@ =~= missing_hashes_set(placed.heads, previous_hashes@));
    }

    /// Records that the tip at `slot` asked for its parent at `now`.
    pub fn mark_requested(&mut self, slot: usize, now: u64)
        requires
            old(self).wf(),
        ensures
            final(self).wf(),
            final(self).heads@ == if slot < MAX_BRANCH_COUNT {
                old(self).heads@.update(
                    slot as int,
                    ChainHeadEntry {
                        last_request_timestamp: now,
                        ..old(self).heads@[slot as int]
                    },
                )
            } else {
                old(self).heads@
            },
    {
        if slot < self.heads.len() {
            self.heads[slot].last_request_timestamp = now;
        }
    }
}

} // verus!
