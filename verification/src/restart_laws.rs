//! A restart gives back the tree that was stored.

use vstd::prelude::*;

use crate::api::NodeView;
use crate::block_data::ChainBlock;
use crate::blocks as tree;
use crate::blocks::{BlockEntry, NONE_REF};
use crate::chain_heads as tips;
use crate::chain_heads::{ChainHeadEntry, Tips};
use crate::coherence as fit;
use crate::coherence_laws as laws;
use crate::coherent_counts as counts;
use crate::coherent_rebuild as rebuild_fit;
use crate::hash::BlockHash;
use crate::recovery;
use crate::restart;

verus! {

/// Number of childless blocks from `from` on.
pub open spec fn leaf_count(s: Seq<BlockEntry>, from: int) -> nat
    decreases s.len() - from,
{
    if from < 0 || from >= s.len() {
        0
    } else if s[from].occupied() && tree::childless(s, from as u32) {
        leaf_count(s, from + 1) + 1
    } else {
        leaf_count(s, from + 1)
    }
}

/// Storage holds the blocks of the tree, each in the slot it has there, and no
/// other.
pub open spec fn mirrors(
    node: NodeView,
    prev: Seq<BlockHash>,
    slots: Seq<Option<ChainBlock>>,
) -> bool {
    &&& slots.len() == node.blocks.len()
    &&& forall|i: int|
        0 <= i < slots.len() ==> {
            &&& (#[trigger] slots[i] is Some) == node.blocks[i].occupied()
            &&& slots[i] matches Some(block) ==> block.sequence == node.blocks[i].sequence
                && block.hash == node.blocks[i].hash && block.previous_hash == prev[i]
        }
}

/// The trees hold the same blocks in the same slots, with the same links and
/// marks.
pub open spec fn same_tree(s: Seq<BlockEntry>, other: Seq<BlockEntry>) -> bool {
    &&& other.len() == s.len()
    &&& forall|i: int| 0 <= i < s.len() ==> (#[trigger] other[i]).occupied() == s[i].occupied()
    &&& forall|i: int|
        0 <= i < s.len() && (#[trigger] other[i]).occupied() ==> {
            &&& other[i].sequence == s[i].sequence
            &&& other[i].hash == s[i].hash
            &&& other[i].parent_ref == s[i].parent_ref
            &&& other[i].active() == s[i].active()
        }
}

proof fn lemma_same_leaves(s: Seq<BlockEntry>, other: Seq<BlockEntry>, from: int)
    requires
        same_tree(s, other),
        0 <= from,
    ensures
        leaf_count(other, from) == leaf_count(s, from),
        forall|idx: u32| #[trigger] tree::childless(other, idx) == tree::childless(s, idx),
        forall|idx: u32| #[trigger] fit::kids(other, idx) == fit::kids(s, idx),
    decreases s.len() - from,
{
    assert forall|idx: u32| #[trigger] fit::kids(other, idx) == fit::kids(s, idx) by {
        assert forall|j: int| 0 <= j < other.len() implies fit::child_of(#[trigger] other[j], idx)
            == fit::child_of(s[j], idx) by {}
        fit::lemma_kids_same(other, s, idx);
    }
    assert forall|idx: u32| #[trigger] tree::childless(other, idx) == tree::childless(s, idx) by {
        fit::lemma_kids_childless(other, idx);
        fit::lemma_kids_childless(s, idx);
        assert(fit::kids(other, idx) == fit::kids(s, idx));
    }
    if from < s.len() {
        assert(other[from].occupied() == s[from].occupied());
        lemma_same_leaves(s, other, from + 1);
    }
}

/// Before any tip is placed, the tree that a restart builds is the one that was
/// stored.
proof fn lemma_tree_restored(
    node: NodeView,
    prev: Seq<BlockHash>,
    fresh: NodeView,
    slots: Seq<Option<ChainBlock>>,
)
    requires
        fit::linked(node.blocks, prev),
        fit::complete(node.blocks, prev, NONE_REF),
        fit::marked(node.blocks, node.active_head),
        tree::unique_blocks(node.blocks),
        mirrors(node, prev, slots),
        fresh.treeless(),
        fresh.blocks.len() == node.blocks.len(),
    ensures
        same_tree(node.blocks, fresh.retained_tree(slots)),
{
    let s = node.blocks;
    let m = restart::materialized(fresh.blocks, slots, 0);
    let linked = restart::linked(m, slots, 0);
    let after = fresh.retained_tree(slots);
    let read = restart::previous_hashes(slots, s.len());
    assert(tree::unique_blocks(fresh.blocks)) by {
        assert forall|i: int| 0 <= i < fresh.blocks.len() implies !(
        #[trigger] fresh.blocks[i]).occupied() by {}
    }
    restart::lemma_materialized(fresh.blocks, slots, 0);
    laws::lemma_links_set(m, m, slots, 0);
    laws::lemma_retained_tree(fresh, slots);
    recovery::genesis_slot_is_first(linked, 0);
    assert forall|i: int| 0 <= i < s.len() implies {
        &&& (#[trigger] m[i]).occupied() == s[i].occupied()
        &&& m[i].occupied() ==> m[i].sequence == s[i].sequence && m[i].hash == s[i].hash
            && read[i] == prev[i]
    } by {
        if slots[i] is Some {
            let block = slots[i]->0;
            assert(restart::holds_block(m, block.sequence, block.hash));
            let j = choose|j: int|
                0 <= j < m.len() && (#[trigger] m[j]).is_block(block.sequence, block.hash);
            assert(m[j].occupied());
            assert(slots[j] is Some);
            assert(s[i].occupied() && s[j].occupied());
            assert(i == j);
        }
        if m[i].occupied() {
            assert(slots[i] is Some);
        }
    }
    assert forall|i: int| 0 <= i < s.len() implies {
        &&& (#[trigger] after[i]).occupied() == s[i].occupied()
        &&& after[i].occupied() ==> after[i].sequence == s[i].sequence && after[i].hash
            == s[i].hash && after[i].parent_ref == linked[i].parent_ref && after[i].active()
            == s[i].active()
    } by {
        assert(m[i].occupied() == s[i].occupied());
        assert(linked[i].sequence == m[i].sequence);
        if s[i].occupied() && s[i].sequence == 0 {
            let g = recovery::genesis_slot(linked, 0);
            assert(linked[i].occupied());
            assert(g is Some);
            let k = g->0 as int;
            assert(linked[k].occupied());
            assert(m[k].occupied() == s[k].occupied());
        }
    }
    assert forall|i: int| 0 <= i < s.len() && s[i].occupied() implies linked[i].parent_ref
        == #[trigger] s[i].parent_ref by {
        assert(m[i].occupied() == s[i].occupied());
        assert(linked[i].occupied());
        let sequence = s[i].sequence;
        if sequence > 0 {
            tree::slot_of_is_first(m, (sequence - 1) as u32, prev[i], 0);
            match tree::slot_of(m, (sequence - 1) as u32, prev[i], 0) {
                Some(found) => {
                    let f = found as int;
                    assert(m[f].occupied() == s[f].occupied());
                    assert(s[f].occupied());
                    if s[i].parent_ref == NONE_REF {
                        assert(false);
                    }
                    let p = s[i].parent_ref as int;
                    assert(s[p].occupied());
                    assert(p == f);
                },
                None => {
                    if s[i].parent_ref != NONE_REF {
                        let p = s[i].parent_ref as int;
                        assert(m[p].occupied() == s[p].occupied());
                        assert(m[p].is_block((sequence - 1) as u32, prev[i]));
                    }
                },
            }
        }
    }
    assert forall|i: int| 0 <= i < s.len() && (#[trigger] after[i]).occupied() implies {
        &&& after[i].sequence == s[i].sequence
        &&& after[i].hash == s[i].hash
        &&& after[i].parent_ref == s[i].parent_ref
        &&& after[i].active() == s[i].active()
    } by {
        assert(s[i].occupied());
        assert(linked[i].parent_ref == s[i].parent_ref);
    }
}

proof fn lemma_tip_placed(heads: Seq<ChainHeadEntry>, slot: int, entry: ChainHeadEntry)
    requires
        0 <= slot < heads.len(),
        !heads[slot].in_use(),
    ensures
        tips::tip_count(heads.update(slot, entry)) <= tips::tip_count(heads) + 1,
    decreases heads.len(),
{
    let after = heads.update(slot, entry);
    if slot == heads.len() - 1 {
        assert(after.drop_last() =~= heads.drop_last());
    } else {
        assert(after.drop_last() =~= heads.drop_last().update(slot, entry));
        lemma_tip_placed(heads.drop_last(), slot, entry);
    }
}

/// Where the table has room for every childless block, none is evicted.
proof fn lemma_all_placed(
    t: Tips,
    leaves: Seq<BlockEntry>,
    idx: int,
    prev: Seq<BlockHash>,
    now: u64,
    active_head: u32,
)
    requires
        0 <= idx <= leaves.len(),
        leaves.len() <= NONE_REF,
        tips::tip_count(t.heads) + leaf_count(leaves, idx) <= t.heads.len(),
    ensures
        ({
            let after = tips::leaves_inserted(t, leaves, idx, prev, now, active_head);
            &&& after.blocks == t.blocks
            &&& forall|x: u32| #[trigger] fit::is_tip(t.heads, x) ==> fit::is_tip(after.heads, x)
            &&& forall|x: u32|
                idx <= x < leaves.len() && leaves[x as int].occupied() && #[trigger] tree::childless(
                    leaves,
                    x,
                ) && t.blocks[x as int].occupied() ==> fit::is_tip(after.heads, x)
        }),
    decreases leaves.len() - idx,
{
    if idx < leaves.len() {
        if leaves[idx].occupied() && tree::childless(leaves, idx as u32)
            && t.blocks[idx].occupied() {
            let next = tips::tip_inserted(t, idx as u32, now, prev[idx], active_head);
            fit::lemma_tip_count(t.heads);
            fit::lemma_vacant_slot(t.heads, 0);
            let slot = tips::vacant_slot(t.heads, 0)->0;
            let placed = t.heads.update(slot, ChainHeadEntry::fresh(idx as u32, now));
            lemma_tip_placed(t.heads, slot, next.heads[slot]);
            assert(next.heads =~= t.heads.update(slot, next.heads[slot]));
            assert(next.blocks == t.blocks);
            assert forall|x: u32| #[trigger] fit::is_tip(t.heads, x) implies fit::is_tip(
                next.heads,
                x,
            ) by {
                let at = choose|at: int|
                    0 <= at < t.heads.len() && (#[trigger] t.heads[at]).in_use()
                        && t.heads[at].head_idx == x;
                assert(next.heads[at] == t.heads[at]);
            }
            assert(next.heads[slot].in_use());
            assert(fit::is_tip(next.heads, idx as u32));
            lemma_all_placed(next, leaves, idx + 1, prev, now, active_head);
        } else {
            lemma_all_placed(t, leaves, idx + 1, prev, now, active_head);
        }
    }
}

proof fn lemma_no_tips(heads: Seq<ChainHeadEntry>)
    requires
        forall|i: int| 0 <= i < heads.len() ==> !(#[trigger] heads[i]).in_use(),
    ensures
        tips::tip_count(heads) == 0,
    decreases heads.len(),
{
    if heads.len() > 0 {
        assert(!heads[heads.len() - 1].in_use());
        assert forall|i: int| 0 <= i < heads.drop_last().len() implies !(
        #[trigger] heads.drop_last()[i]).in_use() by {
            assert(heads.drop_last()[i] == heads[i]);
        }
        lemma_no_tips(heads.drop_last());
    }
}

/// A restart gives back what was stored: the same blocks in the same slots, with
/// the same parents and marks, and off the active chain the same branch counts
/// and tips. Every childless block is a tip. What it gives back is coherent over
/// the same previous hashes, and its blocks are as they were read, but for the
/// branch counts. The table of tips has to have room for every childless block.
pub proof fn restart_restores_the_tree(
    node: NodeView,
    prev: Seq<BlockHash>,
    fresh: NodeView,
    slots: Seq<Option<ChainBlock>>,
    now: u64,
)
    requires
        laws::coherent_node(node, prev),
        tree::unique_blocks(node.blocks),
        mirrors(node, prev, slots),
        leaf_count(node.blocks, 0) <= node.heads.len(),
        fresh.treeless(),
        fresh.blocks.len() == node.blocks.len(),
        fresh.heads.len() == node.heads.len(),
    ensures
        ({
            let after = fresh.rebuilt(slots, now);
            &&& after.active_head == node.active_head
            &&& same_tree(node.blocks, after.blocks)
            &&& forall|i: int|
                0 <= i < node.blocks.len() && (#[trigger] after.blocks[i]).occupied()
                    && !after.blocks[i].active() ==> {
                    &&& after.blocks[i].head_ref_count == node.blocks[i].head_ref_count
                    &&& fit::is_tip(after.heads, i as u32) == fit::is_tip(node.heads, i as u32)
                }
            &&& laws::coherent_node(after, restart::previous_hashes(slots, node.blocks.len()))
            &&& forall|i: int|
                0 <= i < node.blocks.len() && (#[trigger] after.blocks[i]).occupied()
                    ==> restart::previous_hashes(slots, node.blocks.len())[i] == prev[i]
            &&& tips::counts_only(fresh.retained_tree(slots), after.blocks)
            &&& forall|idx: u32|
                tree::present(node.blocks, idx) && #[trigger] tree::childless(node.blocks, idx)
                    ==> fit::is_tip(after.heads, idx)
        }),
{
    let s = node.blocks;
    let after = fresh.rebuilt(slots, now);
    let retained = fresh.retained_tree(slots);
    let read = restart::previous_hashes(slots, s.len());
    lemma_tree_restored(node, prev, fresh, slots);
    lemma_same_leaves(s, retained, 0);
    assert(counts::kids_fit(retained)) by {
        assert forall|idx: u32| tree::present(retained, idx) implies #[trigger] fit::kids(
            retained,
            idx,
        ) <= 254 by {
            assert(tree::present(s, idx));
            fit::lemma_kids_bound(
                node.tips(),
                prev,
                node.active_head,
                Set::empty(),
                idx,
            );
        }
    }
    assert forall|i: int, j: int|
        0 <= i < j < slots.len() && (#[trigger] slots[i]) is Some && (#[trigger] slots[j])
            is Some && (slots[i]->0).sequence == 0 && (slots[j]->0).sequence == 0 implies (
    slots[i]->0).hash == (slots[j]->0).hash by {
        assert(s[i].occupied() && s[j].occupied());
    }
    laws::restart_is_coherent(fresh, slots, now);
    lemma_blocks_rebuilt(node, fresh, slots, now);
    lemma_same_leaves(s, after.blocks, 0);
    assert forall|i: int|
        0 <= i < s.len() && (#[trigger] after.blocks[i]).occupied()
            && !after.blocks[i].active() implies after.blocks[i].head_ref_count
        == s[i].head_ref_count && fit::is_tip(after.heads, i as u32) == fit::is_tip(
        node.heads,
        i as u32,
    ) by {
        assert(s[i].occupied());
        lemma_same_tip(node, prev, after, read, i);
    }
    lemma_same_head(node, after);
    assert forall|i: int| 0 <= i < s.len() && (#[trigger] after.blocks[i]).occupied() implies read[i]
        == prev[i] by {
        assert(s[i].occupied());
        assert(slots[i] is Some);
    }
}

proof fn lemma_same_head(node: NodeView, after: NodeView)
    requires
        node.blocks.len() <= NONE_REF,
        fit::marked(node.blocks, node.active_head),
        fit::marked(after.blocks, after.active_head),
        same_tree(node.blocks, after.blocks),
    ensures
        after.active_head == node.active_head,
{
    if node.active_head != NONE_REF {
        assert(node.blocks[node.active_head as int].occupied());
        assert(after.blocks[node.active_head as int].occupied());
    }
    if after.active_head != NONE_REF {
        assert(after.blocks[after.active_head as int].occupied());
    }
}

/// The tips that a restart places take no block away.
pub(crate) proof fn lemma_blocks_rebuilt(
    node: NodeView,
    fresh: NodeView,
    slots: Seq<Option<ChainBlock>>,
    now: u64,
)
    requires
        node.blocks.len() <= NONE_REF,
        same_tree(node.blocks, fresh.retained_tree(slots)),
        counts::kids_fit(fresh.retained_tree(slots)),
        fit::linked(
            fresh.retained_tree(slots),
            restart::previous_hashes(slots, node.blocks.len()),
        ),
        leaf_count(node.blocks, 0) <= node.heads.len(),
        fresh.blocks.len() == node.blocks.len(),
        fresh.heads.len() == node.heads.len(),
    ensures
        same_tree(node.blocks, fresh.rebuilt(slots, now).blocks),
        tips::counts_only(fresh.retained_tree(slots), fresh.rebuilt(slots, now).blocks),
        forall|idx: u32|
            tree::present(node.blocks, idx) && #[trigger] tree::childless(node.blocks, idx)
                ==> fit::is_tip(fresh.rebuilt(slots, now).heads, idx),
{
    let s = node.blocks;
    let retained = fresh.retained_tree(slots);
    let read = restart::previous_hashes(slots, s.len());
    let start = tree::uncounted(retained);
    counts::lemma_uncounted(retained);
    counts::lemma_counts_only(retained, start, read);
    assert(rebuild_fit::leaves_below(start, 0) =~= Set::<u32>::empty());
    assert(tips::counts_only(start, start));
    rebuild_fit::lemma_leaves_counted(start, start, read, 0);
    let counted = tips::leaves_counted(start, start, 0);
    assert(same_tree(s, counted)) by {
        assert forall|i: int| 0 <= i < s.len() implies {
            &&& (#[trigger] counted[i]).occupied() == s[i].occupied()
            &&& counted[i].occupied() ==> counted[i].sequence == s[i].sequence
                && counted[i].hash == s[i].hash && counted[i].parent_ref == s[i].parent_ref
                && counted[i].active() == s[i].active()
        } by {
            assert(counted[i].with_count(0) == start[i].with_count(0));
            assert(start[i].with_count(0) == retained[i].with_count(0));
            assert(counted[i].with_count(0).flags == retained[i].with_count(0).flags);
            assert(counted[i].with_count(0).sequence == retained[i].with_count(0).sequence);
            assert(counted[i].with_count(0).hash == retained[i].with_count(0).hash);
            assert(counted[i].with_count(0).parent_ref == retained[i].with_count(0).parent_ref);
            assert(retained[i].occupied() == s[i].occupied());
        }
    }
    assert(same_tree(s, start)) by {
        assert forall|i: int| 0 <= i < s.len() implies {
            &&& (#[trigger] start[i]).occupied() == s[i].occupied()
            &&& start[i].occupied() ==> start[i].sequence == s[i].sequence && start[i].hash
                == s[i].hash && start[i].parent_ref == s[i].parent_ref && start[i].active()
                == s[i].active()
        } by {
            assert(start[i].with_count(0) == retained[i].with_count(0));
            assert(start[i].with_count(0).flags == retained[i].with_count(0).flags);
            assert(start[i].with_count(0).sequence == retained[i].with_count(0).sequence);
            assert(start[i].with_count(0).hash == retained[i].with_count(0).hash);
            assert(start[i].with_count(0).parent_ref == retained[i].with_count(0).parent_ref);
            assert(retained[i].occupied() == s[i].occupied());
        }
    }
    lemma_same_leaves(s, start, 0);
    let heads = Seq::new(fresh.heads.len(), |i: int| ChainHeadEntry::vacant());
    lemma_no_tips(heads);
    let active_head = match recovery::genesis_slot(
        restart::linked(restart::materialized(fresh.blocks, slots, 0), slots, 0),
        0,
    ) {
        Some(idx) => idx,
        None => NONE_REF,
    };
    let t = Tips { heads, blocks: counted };
    lemma_all_placed(t, start, 0, read, now, active_head);
    let placed = tips::leaves_inserted(t, start, 0, read, now, active_head);
    let after = fresh.rebuilt(slots, now);
    assert forall|i: int| 0 <= i < retained.len() implies (#[trigger] after.blocks[i]).with_count(0)
        == retained[i].with_count(0) by {
        assert(counted[i].with_count(0) == start[i].with_count(0));
        assert(start[i].with_count(0) == retained[i].with_count(0));
    }
    assert forall|idx: u32|
        tree::present(s, idx) && #[trigger] tree::childless(s, idx) implies fit::is_tip(
        after.heads,
        idx,
    ) by {
        assert(start[idx as int].occupied() && counted[idx as int].occupied());
        assert(tree::childless(start, idx));
        assert(fit::is_tip(placed.heads, idx));
        let slot = choose|slot: int|
            0 <= slot < placed.heads.len() && (#[trigger] placed.heads[slot]).in_use()
                && placed.heads[slot].head_idx == idx;
        assert(after.heads[slot].head_idx == idx);
        assert(after.heads[slot].in_use());
    }
}

/// In two coherent nodes with the same tree, a block off the active chain is a
/// tip in both or in none, and has the same branch count.
proof fn lemma_same_tip(
    node: NodeView,
    prev: Seq<BlockHash>,
    after: NodeView,
    read: Seq<BlockHash>,
    i: int,
)
    requires
        laws::coherent_node(node, prev),
        laws::coherent_node(after, read),
        same_tree(node.blocks, after.blocks),
        forall|idx: u32| #[trigger]
            tree::childless(after.blocks, idx) == tree::childless(node.blocks, idx),
        forall|idx: u32| #[trigger]
            fit::kids(after.blocks, idx) == fit::kids(node.blocks, idx),
        0 <= i < node.blocks.len(),
        after.blocks[i].occupied(),
        !after.blocks[i].active(),
    ensures
        after.blocks[i].head_ref_count == node.blocks[i].head_ref_count,
        fit::is_tip(after.heads, i as u32) == fit::is_tip(node.heads, i as u32),
{
    let none = Set::<u32>::empty();
    let t = node.tips();
    let u = after.tips();
    assert(node.blocks[i].occupied());
    assert(tree::childless(u.blocks, i as u32) == tree::childless(t.blocks, i as u32));
    assert(t.blocks[i].head_ref_count == fit::branches(t, none, i as u32));
    assert(u.blocks[i].head_ref_count == fit::branches(u, none, i as u32));
    assert(fit::kids(u.blocks, i as u32) == fit::kids(t.blocks, i as u32));
    if fit::is_tip(t.heads, i as u32) {
        let slot = choose|slot: int|
            0 <= slot < t.heads.len() && (#[trigger] t.heads[slot]).in_use()
                && t.heads[slot].head_idx == i as u32;
        assert(tree::childless(t.blocks, t.heads[slot].head_idx));
    }
    if fit::is_tip(u.heads, i as u32) {
        let slot = choose|slot: int|
            0 <= slot < u.heads.len() && (#[trigger] u.heads[slot]).in_use()
                && u.heads[slot].head_idx == i as u32;
        assert(tree::childless(u.blocks, u.heads[slot].head_idx));
    }
}

} // verus!
