//! What an eviction takes out of the tree, and how many branches a block has.

use vstd::prelude::*;
use vstd::set_lib::*;

use crate::ancestry;
use crate::blocks as tree;
use crate::blocks::{BlockEntry, NONE_REF};
use crate::branching;
use crate::chain_heads as tips;
use crate::chain_heads::{ChainHeadEntry, Tips};
use crate::coherence as fit;
use crate::hash::BlockHash;
use crate::tip_laws;

verus! {

/// Whether `idx` lies on the path of a tip other than the one at slot `v`. The
/// blocks in `late` are tips that have no slot yet.
pub open spec fn on_remaining_path(t: Tips, late: Set<u32>, v: int, idx: u32) -> bool {
    ||| exists|slot: int|
        0 <= slot < t.heads.len() && slot != v && (#[trigger] t.heads[slot]).in_use()
            && tree::descends(t.blocks, t.heads[slot].head_idx, idx, t.blocks.len())
    ||| exists|tip: u32| #[trigger]
        late.contains(tip) && tree::descends(t.blocks, tip, idx, t.blocks.len())
}

/// Whether the block at `idx`, or one above it, is on the active chain.
pub open spec fn below_active(s: Seq<BlockEntry>, idx: u32) -> bool {
    exists|a: u32| #[trigger]
        tree::descends(s, a, idx, s.len()) && s[a as int].active()
}

/// What is below a block of the active chain is on the active chain.
pub open spec fn active_below(s: Seq<BlockEntry>) -> bool {
    forall|i: int|
        0 <= i < s.len() && s[i].occupied() && s[i].active() && #[trigger] s[i].parent_ref
            != NONE_REF ==> s[s[i].parent_ref as int].active()
}

/// Above every block there is a childless one.
pub(crate) proof fn lemma_leaf_above(s: Seq<BlockEntry>, idx: u32) -> (leaf: u32)
    requires
        branching::rooted(s),
        tree::present(s, idx),
    ensures
        tree::present(s, leaf),
        tree::childless(s, leaf),
        tree::descends(s, leaf, idx, s.len()),
        leaf != idx ==> s[leaf as int].parent_ref != NONE_REF,
    decreases NONE_REF - s[idx as int].sequence,
{
    if tree::childless(s, idx) {
        assert(tree::descends(s, idx, idx, s.len()));
        idx
    } else {
        let c = choose|i: int|
            0 <= i < s.len() && s[i].occupied() && #[trigger] s[i].parent_ref == idx;
        assert(s[c].parent_ref != NONE_REF);
        assert(tree::present(s, c as u32));
        let leaf = lemma_leaf_above(s, c as u32);
        fit::lemma_descends_to_parent(s, leaf, c as u32, s.len());
        ancestry::bounded_walks_suffice(s, leaf, idx, s.len() + 1);
        leaf
    }
}

/// Where active blocks lie on active blocks, none lies on another block.
proof fn lemma_active_below(s: Seq<BlockEntry>, a: u32, idx: u32, steps: nat)
    requires
        branching::rooted(s),
        active_below(s),
        tree::descends(s, a, idx, steps),
        s[a as int].active(),
    ensures
        s[idx as int].active(),
    decreases steps,
{
    if a != idx {
        assert(s[a as int].parent_ref != NONE_REF);
        lemma_active_below(s, s[a as int].parent_ref, idx, (steps - 1) as nat);
    }
}

/// An eviction that has a victim releases a block exactly if it lies on the path
/// of the victim, carries no block of the active chain, and lies on the path of
/// no remaining tip. So where the active chain reaches down to its lowest block,
/// a released block is one on the victim's path that is off the active chain and
/// on no remaining path. Without a victim nothing changes.
pub proof fn eviction_is_exact(t: Tips, active_head: u32, late: Set<u32>, idx: u32)
    requires
        branching::sprouted(t, late),
        tree::present(t.blocks, idx),
    ensures
        ({
            let after = tips::evicted(t, active_head);
            match tips::victim(t.heads, t.blocks, active_head) {
                Some(v) => {
                    let on_path = tree::descends(
                        t.blocks,
                        t.heads[v].head_idx,
                        idx,
                        t.blocks.len(),
                    );
                    &&& !tree::present(after.blocks, idx) <==> on_path && !below_active(
                        t.blocks,
                        idx,
                    ) && !on_remaining_path(t, late, v, idx)
                    &&& active_below(t.blocks) ==> (!tree::present(after.blocks, idx) <==> on_path
                        && !t.blocks[idx as int].active() && !on_remaining_path(t, late, v, idx))
                },
                None => after == t,
            }
        }),
{
    tip_laws::eviction_takes_the_lowest_tip(t.heads, t.blocks, active_head);
    if let Some(v) = tips::victim(t.heads, t.blocks, active_head) {
        lemma_eviction(t, active_head, late, idx, v);
    }
}

proof fn lemma_eviction(t: Tips, active_head: u32, late: Set<u32>, idx: u32, v: int)
    requires
        branching::sprouted(t, late),
        tree::present(t.blocks, idx),
        tips::victim(t.heads, t.blocks, active_head) == Some(v),
        0 <= v < t.heads.len(),
        t.heads[v].in_use(),
    ensures
        ({
            let after = tips::evicted(t, active_head);
            let on_path = tree::descends(t.blocks, t.heads[v].head_idx, idx, t.blocks.len());
            &&& !tree::present(after.blocks, idx) <==> on_path && !below_active(t.blocks, idx)
                && !on_remaining_path(t, late, v, idx)
            &&& active_below(t.blocks) ==> (!tree::present(after.blocks, idx) <==> on_path
                && !t.blocks[idx as int].active() && !on_remaining_path(t, late, v, idx))
        }),
{
    let s = t.blocks;
    let after = tips::evicted(t, active_head);
    branching::lemma_victim_dropped(t, late, v);
    tips::eviction_spares_the_active_chain(t, active_head);
    if below_active(s, idx) {
        let a = choose|a: u32| #[trigger] tree::descends(s, a, idx, s.len()) && s[a as int].active();
        assert(s[a as int].occupied());
        assert(after.blocks[a as int].occupied());
        lemma_kept(after.blocks, s, a, idx);
        if active_below(s) {
            lemma_active_below(s, a, idx, s.len());
        }
    }
    if s[idx as int].active() {
        assert(tree::descends(s, idx, idx, s.len()));
        assert(below_active(s, idx));
    }
    if on_remaining_path(t, late, v, idx) {
        lemma_remaining_kept(t, after, late, v, idx);
    }
    if tree::present(after.blocks, idx) {
        lemma_kept_is_needed(t, after, late, v, idx);
    } else {
        let leaf = lemma_leaf_above(s, idx);
        assert(s[leaf as int].occupied());
        if s[leaf as int].active() {
            assert(below_active(s, idx));
        } else if late.contains(leaf) {
            assert(on_remaining_path(t, late, v, idx));
        } else {
            assert(fit::is_tip(t.heads, leaf));
            let slot = choose|slot: int|
                0 <= slot < t.heads.len() && (#[trigger] t.heads[slot]).in_use()
                    && t.heads[slot].head_idx == leaf;
            assert(slot == v);
        }
    }
}

proof fn lemma_kept(part: Seq<BlockEntry>, whole: Seq<BlockEntry>, top: u32, idx: u32)
    requires
        fit::part_of(part, whole),
        branching::rooted(part),
        tree::present(part, top),
        tree::descends(whole, top, idx, whole.len()),
    ensures
        tree::present(part, idx),
{
    branching::lemma_descends_kept(part, whole, top, idx, whole.len());
    branching::lemma_descends_lower(part, top, idx, whole.len());
}

/// What lies on the path of a remaining tip is kept.
proof fn lemma_remaining_kept(t: Tips, after: Tips, late: Set<u32>, v: int, idx: u32)
    requires
        branching::sprouted(after, late),
        fit::part_of(after.blocks, t.blocks),
        after.heads == t.heads.update(v, ChainHeadEntry::vacant()),
        0 <= v < t.heads.len(),
        on_remaining_path(t, late, v, idx),
    ensures
        tree::present(after.blocks, idx),
{
    if exists|slot: int|
        0 <= slot < t.heads.len() && slot != v && (#[trigger] t.heads[slot]).in_use()
            && tree::descends(t.blocks, t.heads[slot].head_idx, idx, t.blocks.len()) {
        let slot = choose|slot: int|
            0 <= slot < t.heads.len() && slot != v && (#[trigger] t.heads[slot]).in_use()
                && tree::descends(t.blocks, t.heads[slot].head_idx, idx, t.blocks.len());
        assert(after.heads[slot].in_use());
        lemma_kept(after.blocks, t.blocks, t.heads[slot].head_idx, idx);
    } else {
        let tip = choose|tip: u32| #[trigger]
            late.contains(tip) && tree::descends(t.blocks, tip, idx, t.blocks.len());
        lemma_kept(after.blocks, t.blocks, tip, idx);
    }
}

/// What is kept carries a block of the active chain, or lies on the path of a
/// remaining tip.
proof fn lemma_kept_is_needed(t: Tips, after: Tips, late: Set<u32>, v: int, idx: u32)
    requires
        branching::sprouted(after, late),
        fit::part_of(after.blocks, t.blocks),
        after.heads == t.heads.update(v, ChainHeadEntry::vacant()),
        0 <= v < t.heads.len(),
        tree::present(after.blocks, idx),
    ensures
        below_active(t.blocks, idx) || on_remaining_path(t, late, v, idx),
{
    let leaf = lemma_leaf_above(after.blocks, idx);
    assert(after.blocks[leaf as int].occupied());
    branching::lemma_descends_whole(after.blocks, t.blocks, leaf, idx, t.blocks.len());
    if !after.blocks[leaf as int].active() && !late.contains(leaf) {
        assert(fit::is_tip(after.heads, leaf));
        let slot = choose|slot: int|
            0 <= slot < after.heads.len() && (#[trigger] after.heads[slot]).in_use()
                && after.heads[slot].head_idx == leaf;
        assert(slot != v);
        assert(t.heads[slot].in_use());
    }
}

// -- The number of branches --------------------------------------------------

/// Whether a child of the block at `idx` is on the active chain.
pub open spec fn carries_active(s: Seq<BlockEntry>, idx: u32) -> bool {
    exists|c: int|
        0 <= c < s.len() && (#[trigger] s[c]).occupied() && s[c].active() && s[c].parent_ref == idx
}

/// The active chain ends in `head`: every other block of it carries one, but
/// for the first block of the chain, which may stand alone.
pub open spec fn led_by(s: Seq<BlockEntry>, head: u32) -> bool {
    forall|i: int|
        0 <= i < s.len() && (#[trigger] s[i]).occupied() && s[i].active() && s[i].sequence != 0
            && i != head ==> carries_active(s, i as u32)
}

/// The hash of the parent of each block.
pub(crate) open spec fn parent_hashes(s: Seq<BlockEntry>) -> Seq<BlockHash> {
    Seq::new(s.len(), |i: int| s[s[i].parent_ref as int].hash)
}

pub(crate) proof fn lemma_parent_hashes(s: Seq<BlockEntry>)
    requires
        branching::rooted(s),
    ensures
        fit::linked(s, parent_hashes(s)),
{
}

/// Whether the block at `idx` lies on the path of the tip at slot `p`, or, for
/// `-1`, on that of `head`.
spec fn placed(t: Tips, head: u32, idx: u32, p: int) -> bool {
    ||| 0 <= p < t.heads.len() && t.heads[p].in_use() && tree::descends(
        t.blocks,
        t.heads[p].head_idx,
        idx,
        t.blocks.len(),
    )
    ||| p == -1 && tree::descends(t.blocks, head, idx, t.blocks.len())
}

spec fn place_of(t: Tips, head: u32, idx: u32) -> int {
    choose|p: int| placed(t, head, idx, p)
}

proof fn lemma_placed(t: Tips, head: u32, idx: u32)
    requires
        branching::branching(t),
        led_by(t.blocks, head),
        tree::present(t.blocks, idx),
        t.blocks[idx as int].parent_ref != NONE_REF,
    ensures
        exists|p: int| placed(t, head, idx, p),
{
    let s = t.blocks;
    let leaf = lemma_leaf_above(s, idx);
    assert(s[leaf as int].occupied());
    assert(s[leaf as int].parent_ref != NONE_REF);
    if fit::is_tip(t.heads, leaf) {
        let p = choose|p: int|
            0 <= p < t.heads.len() && (#[trigger] t.heads[p]).in_use() && t.heads[p].head_idx
                == leaf;
        assert(placed(t, head, idx, p));
    } else {
        assert(s[leaf as int].active());
        if leaf != head {
            let c = choose|c: int|
                0 <= c < s.len() && (#[trigger] s[c]).occupied() && s[c].active()
                    && s[c].parent_ref == leaf;
            assert(s[c].parent_ref == leaf);
        }
        assert(placed(t, head, idx, -1));
    }
}

/// A block has no more children than there are tips, and one to the head of the
/// active chain; so a table of moderate size never fills a branch count.
pub proof fn branch_counts_have_room(t: Tips, head: u32)
    requires
        branching::branching(t),
        led_by(t.blocks, head),
        t.heads.len() <= 253,
    ensures
        branching::counts_fit(t),
{
    let s = t.blocks;
    let prev = parent_hashes(s);
    lemma_parent_hashes(s);
    assert forall|i: int| 0 <= i < s.len() && (#[trigger] s[i]).occupied() implies s[i].head_ref_count
        < 255 by {
        let idx = i as u32;
        let children = fit::kid_set(s, idx);
        fit::lemma_kid_set(s, idx);
        fit::lemma_kids_childless(s, idx);
        let place = |c: int| place_of(t, head, c as u32);
        assert forall|c: int| children.contains(c) implies placed(
            t,
            head,
            c as u32,
            #[trigger] place(c),
        ) by {
            assert(s[c].parent_ref != NONE_REF);
            lemma_placed(t, head, c as u32);
        }
        assert forall|a: int, b: int|
            children.contains(a) && children.contains(b) && #[trigger] place(a)
                == #[trigger] place(b) implies a == b by {
            assert(s[a].parent_ref == idx && s[b].parent_ref == idx);
            let top = if place(a) == -1 {
                head
            } else {
                t.heads[place(a)].head_idx
            };
            fit::lemma_one_ancestor(s, prev, top, a as u32, b as u32, s.len(), s.len());
        }
        let image = children.map(place);
        lemma_map_size(children, image, place);
        let all = set_int_range(-1, t.heads.len() as int);
        lemma_int_range(-1, t.heads.len() as int);
        assert(image.subset_of(all));
        lemma_len_subset(image, all);
        assert(s[i].head_ref_count == fit::branches(t, Set::empty(), idx));
        if fit::is_tip(t.heads, idx) {
            let slot = choose|slot: int|
                0 <= slot < t.heads.len() && (#[trigger] t.heads[slot]).in_use()
                    && t.heads[slot].head_idx == idx;
            assert(tree::childless(s, t.heads[slot].head_idx));
        }
    }
}

} // verus!
