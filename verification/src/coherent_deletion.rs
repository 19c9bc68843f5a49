//! Deleting a subtree keeps the tree and its tips together.

use vstd::prelude::*;

use crate::ancestry;
use crate::blocks as tree;
use crate::blocks::{BlockEntry, NONE_REF};
use crate::chain_heads as tips;
use crate::chain_heads::{ChainHeadEntry, Tips};
use crate::coherence as fit;
use crate::coherent_admission as admission_fit;
use crate::coherent_counts as counts;
use crate::hash::BlockHash;
use crate::recovery;

verus! {

/// Whether `rest` is the tree without the subtree of `target`.
pub open spec fn rest_of(whole: Seq<BlockEntry>, rest: Seq<BlockEntry>, target: u32) -> bool {
    &&& fit::part_of(rest, whole)
    &&& forall|idx: u32| #[trigger]
        tree::present(rest, idx) == (tree::present(whole, idx) && !tree::descends(
            whole,
            idx,
            target,
            whole.len(),
        ))
}

/// The head of the active chain once the subtree of `target` is gone.
pub open spec fn head_left(whole: Seq<BlockEntry>, active_head: u32, target: u32) -> u32 {
    if tree::descends(whole, active_head, target, whole.len()) {
        NONE_REF
    } else {
        active_head
    }
}

/// What is left is linked as before.
proof fn lemma_rest(
    whole: Seq<BlockEntry>,
    rest: Seq<BlockEntry>,
    prev: Seq<BlockHash>,
    active_head: u32,
    target: u32,
)
    requires
        fit::linked(whole, prev),
        fit::complete(whole, prev, NONE_REF),
        fit::marked(whole, active_head),
        rest_of(whole, rest, target),
    ensures
        fit::linked(rest, prev),
        fit::complete(rest, prev, NONE_REF),
        fit::marked(rest, head_left(whole, active_head, target)),
{
    fit::lemma_part_complete(rest, whole, prev, NONE_REF);
    assert(fit::linked(rest, prev)) by {
        assert forall|i: int|
            0 <= i < rest.len() && rest[i].occupied() && #[trigger] rest[i].parent_ref
                != NONE_REF implies {
            &&& tree::present(rest, rest[i].parent_ref)
            &&& rest[rest[i].parent_ref as int].sequence + 1 == rest[i].sequence
            &&& rest[rest[i].parent_ref as int].hash == prev[i]
        } by {
            let idx = i as u32;
            let p = rest[i].parent_ref;
            assert(tree::present(rest, idx));
            assert(whole[i].parent_ref == p);
            if tree::descends(whole, p, target, whole.len()) {
                ancestry::subtree_is_closed(whole, idx, target);
            }
            assert(tree::present(rest, p));
            assert(rest[p as int].occupied());
        }
    }
    assert forall|i: int| 0 <= i < rest.len() && (#[trigger] rest[i]).occupied() implies {
        &&& rest[i].active() == (rest[i].sequence == 0)
        &&& rest[i].sequence == 0 ==> head_left(whole, active_head, target) == i
    } by {
        assert(whole[i].occupied());
        assert(tree::present(rest, i as u32));
    }
    if head_left(whole, active_head, target) != NONE_REF {
        assert(tree::present(rest, active_head));
        assert(rest[active_head as int].occupied());
    }
}

/// Whether the tip at `slot` is deleted.
pub open spec fn doomed(heads: Seq<ChainHeadEntry>, deleted: Seq<u32>, slot: int) -> bool {
    heads[slot].in_use() && deleted.contains(heads[slot].head_idx)
}

/// The first deleted tip is handed to the heir, the others are dropped, and the
/// rest is kept.
pub(crate) proof fn lemma_deleted_dropped(
    heads: Seq<ChainHeadEntry>,
    deleted: Seq<u32>,
    heir: Option<u32>,
    slot: int,
)
    requires
        0 <= slot <= heads.len(),
        heir matches Some(idx) ==> idx != NONE_REF,
    ensures
        ({
            let after = tips::deleted_dropped(heads, deleted, heir, slot, heads.len() as int);
            &&& after.len() == heads.len()
            &&& forall|i: int|
                0 <= i < heads.len() ==> #[trigger] after[i] == if i < slot || !doomed(
                    heads,
                    deleted,
                    i,
                ) {
                    heads[i]
                } else if heir is Some && forall|j: int|
                    slot <= j < i ==> !#[trigger] doomed(heads, deleted, j) {
                    ChainHeadEntry { head_idx: heir->0, ..heads[i] }
                } else {
                    ChainHeadEntry::vacant()
                }
        }),
    decreases heads.len() - slot,
{
    if slot < heads.len() {
        let after = tips::deleted_dropped(heads, deleted, heir, slot, heads.len() as int);
        if !doomed(heads, deleted, slot) {
            lemma_deleted_dropped(heads, deleted, heir, slot + 1);
            assert forall|i: int| 0 <= i < heads.len() implies #[trigger] after[i] == (if i < slot
                || !doomed(heads, deleted, i) {
                heads[i]
            } else if heir is Some && forall|j: int|
                slot <= j < i ==> !#[trigger] doomed(heads, deleted, j) {
                ChainHeadEntry { head_idx: heir->0, ..heads[i] }
            } else {
                ChainHeadEntry::vacant()
            }) by {
                if i > slot && forall|j: int|
                    slot + 1 <= j < i ==> !#[trigger] doomed(heads, deleted, j) {
                    assert forall|j: int| slot <= j < i implies !#[trigger] doomed(
                        heads,
                        deleted,
                        j,
                    ) by {}
                }
            }
        } else {
            let replaced = match heir {
                Some(idx) => ChainHeadEntry { head_idx: idx, ..heads[slot] },
                None => ChainHeadEntry::vacant(),
            };
            let next = heads.update(slot, replaced);
            lemma_deleted_dropped(next, deleted, None, slot + 1);
            assert forall|i: int| slot < i < heads.len() implies doomed(next, deleted, i) == doomed(
                heads,
                deleted,
                i,
            ) by {
                assert(next[i] == heads[i]);
            }
            assert(after == tips::deleted_dropped(
                next,
                deleted,
                None,
                slot + 1,
                heads.len() as int,
            ));
            assert forall|i: int| 0 <= i < heads.len() implies #[trigger] after[i] == (if i < slot
                || !doomed(heads, deleted, i) {
                heads[i]
            } else if heir is Some && forall|j: int|
                slot <= j < i ==> !#[trigger] doomed(heads, deleted, j) {
                ChainHeadEntry { head_idx: heir->0, ..heads[i] }
            } else {
                ChainHeadEntry::vacant()
            }) by {
                if i > slot {
                    assert(doomed(heads, deleted, slot));
                    assert(next[i] == heads[i]);
                }
            }
        }
    }
}

/// A tip lies in the subtree of every block off the active chain.
proof fn lemma_doomed_tip(
    t: Tips,
    prev: Seq<BlockHash>,
    active_head: u32,
    deleted: Seq<u32>,
    target: u32,
) -> (slot: int)
    requires
        fit::coherent(t, prev, active_head),
        tree::present(t.blocks, target),
        !t.blocks[target as int].active(),
        deleted == tree::subtree(t.blocks, target),
    ensures
        0 <= slot < t.heads.len(),
        doomed(t.heads, deleted, slot),
        forall|j: int| 0 <= j < slot ==> !#[trigger] doomed(t.heads, deleted, j),
{
    let tip = fit::lemma_tip_above(t, prev, active_head, Set::empty(), target);
    recovery::lemma_subtree_members(t.blocks, target, t.blocks.len());
    assert(deleted.contains(tip));
    let some = choose|i: int|
        0 <= i < t.heads.len() && (#[trigger] t.heads[i]).in_use() && t.heads[i].head_idx == tip;
    assert(doomed(t.heads, deleted, some));
    lemma_first_doomed(t.heads, deleted, some)
}

pub(crate) proof fn lemma_first_doomed(heads: Seq<ChainHeadEntry>, deleted: Seq<u32>, some: int) -> (first: int)
    requires
        0 <= some < heads.len(),
        doomed(heads, deleted, some),
    ensures
        0 <= first <= some,
        doomed(heads, deleted, first),
        forall|j: int| 0 <= j < first ==> !#[trigger] doomed(heads, deleted, j),
    decreases some,
{
    if exists|j: int| 0 <= j < some && #[trigger] doomed(heads, deleted, j) {
        let j = choose|j: int| 0 <= j < some && #[trigger] doomed(heads, deleted, j);
        lemma_first_doomed(heads, deleted, j)
    } else {
        some
    }
}

/// A block that loses a child with a subtree is the parent of its root.
pub(crate) proof fn lemma_bereft(
    whole: Seq<BlockEntry>,
    rest: Seq<BlockEntry>,
    prev: Seq<BlockHash>,
    target: u32,
    idx: u32,
)
    requires
        fit::linked(whole, prev),
        rest_of(whole, rest, target),
        tree::present(rest, idx),
        tree::childless(rest, idx),
        !tree::childless(whole, idx),
    ensures
        tree::present(whole, target),
        whole[target as int].parent_ref == idx,
{
    let c = choose|i: int|
        0 <= i < whole.len() && whole[i].occupied() && #[trigger] whole[i].parent_ref == idx;
    let child = c as u32;
    assert(tree::present(whole, child));
    if tree::present(rest, child) {
        assert(rest[c].occupied());
        assert(rest[c].parent_ref == idx);
    }
    assert(tree::descends(whole, child, target, whole.len()));
    if child != target {
        assert(tree::descends(whole, idx, target, (whole.len() - 1) as nat));
        ancestry::bounded_walks_suffice(whole, idx, target, (whole.len() - 1) as nat);
        assert(tree::present(rest, idx));
    }
}

/// The tips that are left, with the heir among them.
pub open spec fn tips_left(t: Tips, rest: Seq<BlockEntry>, target: u32) -> Seq<ChainHeadEntry> {
    tips::deleted_dropped(
        t.heads,
        tree::subtree(t.blocks, target),
        tips::heir(Tips { heads: t.heads, blocks: rest }, t.blocks[target as int].parent_ref),
        0,
        t.heads.len() as int,
    )
}

/// What each slot of the table holds after a deletion.
pub(crate) proof fn lemma_slot_left(t: Tips, rest: Seq<BlockEntry>, target: u32, slot: int)
    requires
        t.blocks.len() <= NONE_REF,
        rest.len() == t.blocks.len(),
        0 <= slot < t.heads.len(),
    ensures
        tips_left(t, rest, target).len() == t.heads.len(),
        ({
            let left = tips_left(t, rest, target)[slot];
            let gone = tree::subtree(t.blocks, target);
            let parent = t.blocks[target as int].parent_ref;
            left.in_use() ==> {
                ||| !doomed(t.heads, gone, slot) && left == t.heads[slot]
                ||| {
                    &&& doomed(t.heads, gone, slot)
                    &&& left == (ChainHeadEntry { head_idx: parent, ..t.heads[slot] })
                    &&& parent != NONE_REF
                    &&& tree::present(rest, parent)
                    &&& tree::childless(rest, parent)
                    &&& !fit::is_tip(t.heads, parent)
                    &&& forall|j: int| 0 <= j < slot ==> !#[trigger] doomed(t.heads, gone, j)
                }
            }
        }),
        !doomed(t.heads, tree::subtree(t.blocks, target), slot) ==> tips_left(
            t,
            rest,
            target,
        )[slot] == t.heads[slot],
{
    let gone = tree::subtree(t.blocks, target);
    let parent = t.blocks[target as int].parent_ref;
    let heir = tips::heir(Tips { heads: t.heads, blocks: rest }, parent);
    fit::lemma_head_slot(t.heads, parent, 0);
    lemma_deleted_dropped(t.heads, gone, heir, 0);
    let left = tips_left(t, rest, target)[slot];
}

/// Each tip that is left stands at the end of a branch of what is left, and
/// knows where that ends.
proof fn lemma_tip_left(
    t: Tips,
    rest: Seq<BlockEntry>,
    prev: Seq<BlockHash>,
    active_head: u32,
    target: u32,
    slot: int,
)
    requires
        fit::coherent(t, prev, active_head),
        tree::present(t.blocks, target),
        rest_of(t.blocks, rest, target),
        fit::linked(rest, prev),
        0 <= slot < t.heads.len(),
        tips_left(t, rest, target)[slot].in_use(),
    ensures
        ({
            let left = tips_left(t, rest, target)[slot];
            &&& tree::present(rest, left.head_idx)
            &&& tree::childless(rest, left.head_idx)
            &&& fit::knows_its_end(left, rest)
            &&& fit::knows_its_parent(left, prev)
        }),
{
    let whole = t.blocks;
    let gone = tree::subtree(whole, target);
    let left = tips_left(t, rest, target)[slot];
    let entry = t.heads[slot];
    lemma_slot_left(t, rest, target, slot);
    recovery::lemma_subtree_members(whole, target, whole.len());
    assert(entry.in_use());
    assert(fit::knows_its_end(entry, whole) && fit::knows_its_parent(entry, prev));
    let h = left.head_idx;
    if !doomed(t.heads, gone, slot) {
        assert(!gone.contains(h));
        assert(tree::present(rest, h));
        assert(tree::childless(rest, h)) by {
            assert forall|i: int|
                0 <= i < rest.len() && rest[i].occupied() implies #[trigger] rest[i].parent_ref
                != h by {
                assert(whole[i].occupied() && whole[i].parent_ref == rest[i].parent_ref);
            }
        }
        fit::lemma_anchor_part(rest, whole, prev, h);
    } else {
        let d = entry.head_idx;
        assert(gone.contains(d));
        fit::lemma_anchor_of_descendant(whole, prev, active_head, d, target, whole.len());
        assert(whole[target as int].occupied());
        fit::lemma_anchor_step(whole, prev, target);
        fit::lemma_anchor_part(rest, whole, prev, h);
    }
}

/// The tips that are left are the childless blocks of what is left.
proof fn lemma_tips_left(
    t: Tips,
    rest: Seq<BlockEntry>,
    prev: Seq<BlockHash>,
    active_head: u32,
    target: u32,
)
    requires
        fit::coherent(t, prev, active_head),
        tree::present(t.blocks, target),
        rest_of(t.blocks, rest, target),
        fit::linked(rest, prev),
    ensures
        tips_left(t, rest, target).len() == t.heads.len(),
        fit::tips_are_leaves(
            Tips { heads: tips_left(t, rest, target), blocks: rest },
            Set::empty(),
        ),
{
    let whole = t.blocks;
    let gone = tree::subtree(whole, target);
    let heads = tips_left(t, rest, target);
    let none = Set::<u32>::empty();
    let parent = whole[target as int].parent_ref;
    fit::lemma_head_slot(t.heads, parent, 0);
    let heir = tips::heir(Tips { heads: t.heads, blocks: rest }, parent);
    lemma_deleted_dropped(t.heads, gone, heir, 0);
    recovery::lemma_subtree_members(whole, target, whole.len());
    assert forall|i: int| 0 <= i < heads.len() && (#[trigger] heads[i]).in_use() implies {
        &&& tree::present(rest, heads[i].head_idx)
        &&& tree::childless(rest, heads[i].head_idx)
        &&& !none.contains(heads[i].head_idx)
    } by {
        lemma_tip_left(t, rest, prev, active_head, target, i);
    }
    assert forall|a: int, b: int|
        0 <= a < b < heads.len() && (#[trigger] heads[a]).in_use() && (
        #[trigger] heads[b]).in_use() implies heads[a].head_idx != heads[b].head_idx by {
        lemma_slot_left(t, rest, target, a);
        lemma_slot_left(t, rest, target, b);
        assert(t.heads[a].in_use() && t.heads[b].in_use());
        if doomed(t.heads, gone, a) && doomed(t.heads, gone, b) {
            assert(!doomed(t.heads, gone, a));
        }
        assert(fit::is_tip(t.heads, t.heads[a].head_idx) && fit::is_tip(
            t.heads,
            t.heads[b].head_idx,
        ));
    }
    assert forall|i: int|
        0 <= i < rest.len() && (#[trigger] rest[i]).occupied() && !rest[i].active()
            && tree::childless(rest, i as u32) implies fit::is_tip(heads, i as u32)
        || none.contains(i as u32) by {
        let idx = i as u32;
        assert(whole[i].occupied());
        assert(tree::present(rest, idx));
        if tree::childless(whole, idx) {
            assert(fit::is_tip(t.heads, idx));
            let slot = choose|slot: int|
                0 <= slot < t.heads.len() && (#[trigger] t.heads[slot]).in_use()
                    && t.heads[slot].head_idx == idx;
            assert(!gone.contains(idx));
            assert(!doomed(t.heads, gone, slot));
            assert(heads[slot] == t.heads[slot]);
        } else {
            lemma_bereft(whole, rest, prev, target, idx);
            assert(whole[target as int].occupied());
            assert(!fit::is_tip(t.heads, idx)) by {
                if fit::is_tip(t.heads, idx) {
                    let slot = choose|slot: int|
                        0 <= slot < t.heads.len() && (#[trigger] t.heads[slot]).in_use()
                            && t.heads[slot].head_idx == idx;
                    assert(tree::childless(whole, t.heads[slot].head_idx));
                }
            }
            assert(heir == Some(idx));
            let slot = lemma_doomed_tip(t, prev, active_head, gone, target);
            assert(heads[slot].in_use() && heads[slot].head_idx == idx);
        }
    }
}

/// Classifying tips anew that know the ends of their branches keeps what they
/// know.
proof fn lemma_all_refreshed(
    heads: Seq<ChainHeadEntry>,
    blocks: Seq<BlockEntry>,
    prev: Seq<BlockHash>,
    slot: int,
)
    requires
        0 <= slot <= heads.len(),
        prev.len() <= NONE_REF,
        forall|i: int|
            0 <= i < heads.len() && (#[trigger] heads[i]).in_use() ==> fit::knows_its_end(
                heads[i],
                blocks,
            ) && fit::knows_its_parent(heads[i], prev),
    ensures
        ({
            let after = tips::all_refreshed(heads, blocks, slot, heads.len() as int);
            &&& after.len() == heads.len()
            &&& forall|i: int|
                0 <= i < heads.len() ==> {
                    &&& (#[trigger] after[i]).head_idx == heads[i].head_idx
                    &&& after[i].in_use() ==> fit::knows_its_end(after[i], blocks)
                        && fit::knows_its_parent(after[i], prev)
                }
        }),
    decreases heads.len() - slot,
{
    if slot < heads.len() {
        if heads[slot].in_use() {
            let hash = heads[slot].missing_parent_hash;
            let fresh = tips::refreshed(heads, blocks, slot, NONE_REF, hash);
            admission_fit::lemma_refreshed(heads, blocks, slot, NONE_REF, hash);
            assert(fit::knows_its_end(heads[slot], blocks));
            let next = heads.update(slot, fresh);
            assert(fit::knows_its_parent(fresh, prev));
            assert forall|i: int|
                0 <= i < next.len() && (#[trigger] next[i]).in_use() implies fit::knows_its_end(
                next[i],
                blocks,
            ) && fit::knows_its_parent(next[i], prev) by {
                if i != slot {
                    assert(heads[i].in_use());
                }
            }
            lemma_all_refreshed(next, blocks, prev, slot + 1);
            let after = tips::all_refreshed(heads, blocks, slot, heads.len() as int);
            assert forall|i: int| 0 <= i < heads.len() implies (#[trigger] after[i]).head_idx
                == heads[i].head_idx by {
                assert(next[i].head_idx == heads[i].head_idx);
            }
        } else {
            lemma_all_refreshed(heads, blocks, prev, slot + 1);
        }
    }
}

/// A coherent tree that loses a subtree is coherent again.
pub(crate) proof fn lemma_subtree_dropped(
    t: Tips,
    rest: Seq<BlockEntry>,
    prev: Seq<BlockHash>,
    active_head: u32,
    target: u32,
)
    requires
        fit::coherent(t, prev, active_head),
        fit::table_fits(t.heads),
        tree::present(t.blocks, target),
        rest_of(t.blocks, rest, target),
    ensures
        ({
            let after = tips::subtree_dropped(
                Tips { heads: t.heads, blocks: rest },
                tree::subtree(t.blocks, target),
                t.blocks[target as int].parent_ref,
            );
            &&& fit::coherent(after, prev, head_left(t.blocks, active_head, target))
            &&& after.heads.len() == t.heads.len()
            &&& tips::counts_only(rest, after.blocks)
        }),
{
    let whole = t.blocks;
    let none = Set::<u32>::empty();
    let head = head_left(whole, active_head, target);
    let kept = tips_left(t, rest, target);
    lemma_rest(whole, rest, prev, active_head, target);
    lemma_tips_left(t, rest, prev, active_head, target);
    assert forall|i: int|
        0 <= i < kept.len() && (#[trigger] kept[i]).in_use() implies fit::knows_its_end(
        kept[i],
        rest,
    ) && fit::knows_its_parent(kept[i], prev) by {
        lemma_tip_left(t, rest, prev, active_head, target, i);
    }
    lemma_all_refreshed(kept, rest, prev, 0);
    let heads = tips::all_refreshed(kept, rest, 0, t.heads.len() as int);
    let plain = Tips { heads, blocks: rest };
    assert(fit::tips_are_leaves(plain, none)) by {
        lemma_same_tips(kept, heads, rest);
    }
    let after = tips::subtree_dropped(
        Tips { heads: t.heads, blocks: rest },
        tree::subtree(whole, target),
        whole[target as int].parent_ref,
    );
    assert(after.heads == heads);
    lemma_recounted_tips(plain, after.blocks, prev, head);
}

/// Tips at the same blocks are leaves alike.
proof fn lemma_same_tips(
    kept: Seq<ChainHeadEntry>,
    heads: Seq<ChainHeadEntry>,
    blocks: Seq<BlockEntry>,
)
    requires
        kept.len() == heads.len(),
        forall|i: int| 0 <= i < heads.len() ==> (#[trigger] heads[i]).head_idx == kept[i].head_idx,
        fit::tips_are_leaves(Tips { heads: kept, blocks }, Set::empty()),
    ensures
        fit::tips_are_leaves(Tips { heads, blocks }, Set::empty()),
{
    let none = Set::<u32>::empty();
    let before = Tips { heads: kept, blocks };
    assert forall|i: int| 0 <= i < heads.len() && (#[trigger] heads[i]).in_use() implies {
        &&& tree::present(blocks, heads[i].head_idx)
        &&& tree::childless(blocks, heads[i].head_idx)
        &&& !none.contains(heads[i].head_idx)
    } by {
        assert(before.heads[i].in_use());
    }
    assert forall|a: int, b: int|
        0 <= a < b < heads.len() && (#[trigger] heads[a]).in_use() && (
        #[trigger] heads[b]).in_use() implies heads[a].head_idx != heads[b].head_idx by {
        assert(before.heads[a].in_use() && before.heads[b].in_use());
    }
    assert forall|idx: u32| fit::is_tip(kept, idx) implies #[trigger] fit::is_tip(heads, idx) by {
        let i = choose|i: int|
            0 <= i < kept.len() && (#[trigger] kept[i]).in_use() && kept[i].head_idx == idx;
        assert(heads[i].in_use() && heads[i].head_idx == idx);
    }
    assert forall|i: int|
        0 <= i < blocks.len() && (#[trigger] blocks[i]).occupied() && !blocks[i].active()
            && tree::childless(blocks, i as u32) implies fit::is_tip(heads, i as u32)
        || none.contains(i as u32) by {
        assert(before.blocks[i].occupied());
        assert(fit::is_tip(kept, i as u32));
    }
}

/// Counting all branches anew completes the tree.
proof fn lemma_recounted_tips(
    t: Tips,
    after: Seq<BlockEntry>,
    prev: Seq<BlockHash>,
    active_head: u32,
)
    requires
        fit::linked(t.blocks, prev),
        fit::complete(t.blocks, prev, NONE_REF),
        fit::marked(t.blocks, active_head),
        fit::tips_are_leaves(t, Set::empty()),
        fit::table_fits(t.heads),
        forall|i: int|
            0 <= i < t.heads.len() && (#[trigger] t.heads[i]).in_use() ==> fit::knows_its_end(
                t.heads[i],
                t.blocks,
            ) && fit::knows_its_parent(t.heads[i], prev),
        after == tips::tips_counted(
            tree::uncounted(t.blocks),
            t.heads,
            0,
            t.heads.len() as int,
        ),
    ensures
        fit::coherent(Tips { heads: t.heads, blocks: after }, prev, active_head),
        tips::counts_only(t.blocks, after),
{
    let none = Set::<u32>::empty();
    let s = t.blocks;
    let start = tree::uncounted(s);
    let all = counts::tips_below(t.heads, t.heads.len() as int);
    assert(counts::kids_fit(s)) by {
        assert forall|idx: u32| tree::present(s, idx) implies #[trigger] fit::kids(s, idx) <= 254 by {
            fit::lemma_kids_bound(t, prev, active_head, none, idx);
        }
    }
    counts::lemma_uncounted(s);
    counts::lemma_counts_only(s, start, prev);
    assert(counts::tips_below(t.heads, 0) =~= none);
    assert forall|i: int|
        0 <= i < t.heads.len() && (#[trigger] t.heads[i]).in_use() implies tree::present(
        start,
        t.heads[i].head_idx,
    ) by {}
    counts::lemma_tips_counted(start, prev, t.heads, 0);
    assert(tips::counts_only(s, after)) by {
        assert forall|i: int| 0 <= i < s.len() implies (#[trigger] after[i]).with_count(0)
            == s[i].with_count(0) by {
            assert(start[i].with_count(0) == s[i].with_count(0));
        }
    }
    counts::lemma_counts_only(s, after, prev);
    lemma_recounted_rest(t, after, prev, active_head);
    let done = Tips { heads: t.heads, blocks: after };
    assert forall|idx: u32| #[trigger] all.contains(idx) == fit::is_tip(t.heads, idx) by {}
    counts::lemma_tally_exact(after, prev, active_head, all);
    assert(fit::counted(done, none)) by {
        assert forall|i: int|
            0 <= i < after.len() && (#[trigger] after[i]).occupied()
                && !after[i].active() implies after[i].head_ref_count == fit::branches(
            done,
            none,
            i as u32,
        ) by {}
    }
}

/// All but the counts is as it was.
proof fn lemma_recounted_rest(
    t: Tips,
    after: Seq<BlockEntry>,
    prev: Seq<BlockHash>,
    active_head: u32,
)
    requires
        fit::linked(t.blocks, prev),
        fit::complete(t.blocks, prev, NONE_REF),
        fit::marked(t.blocks, active_head),
        fit::tips_are_leaves(t, Set::empty()),
        forall|i: int|
            0 <= i < t.heads.len() && (#[trigger] t.heads[i]).in_use() ==> fit::knows_its_end(
                t.heads[i],
                t.blocks,
            ) && fit::knows_its_parent(t.heads[i], prev),
        tips::counts_only(t.blocks, after),
    ensures
        fit::linked(after, prev),
        fit::complete(after, prev, NONE_REF),
        fit::marked(after, active_head),
        fit::tips_are_leaves(Tips { heads: t.heads, blocks: after }, Set::empty()),
        fit::ends_known(Tips { heads: t.heads, blocks: after }),
        fit::parents_known(Tips { heads: t.heads, blocks: after }, prev),
        forall|i: int|
            0 <= i < after.len() && (#[trigger] after[i]).occupied() && !after[i].active()
                && tree::childless(after, i as u32) ==> fit::is_tip(t.heads, i as u32),
{
    let s = t.blocks;
    counts::lemma_counts_only(s, after, prev);
    fit::lemma_part_complete(after, s, prev, NONE_REF);
    assert(fit::marked(after, active_head)) by {
        assert forall|i: int| 0 <= i < after.len() && (#[trigger] after[i]).occupied() implies {
            &&& after[i].active() == (after[i].sequence == 0)
            &&& after[i].sequence == 0 ==> active_head == i
        } by {
            assert(s[i].occupied());
        }
        if active_head != NONE_REF {
            assert(tree::present(after, active_head) == tree::present(s, active_head));
            assert(after[active_head as int].occupied());
        }
    }
    assert forall|i: int|
        0 <= i < after.len() && (#[trigger] after[i]).occupied() && !after[i].active()
            && tree::childless(after, i as u32) implies fit::is_tip(t.heads, i as u32) by {
        assert(s[i].occupied());
        assert(tree::childless(s, i as u32));
    }
    assert forall|i: int|
        0 <= i < t.heads.len() && (#[trigger] t.heads[i]).in_use() implies tree::present(
        after,
        t.heads[i].head_idx,
    ) && tree::childless(after, t.heads[i].head_idx) && fit::knows_its_end(
        t.heads[i],
        after,
    ) by {
        fit::lemma_anchor_part(after, s, prev, t.heads[i].head_idx);
    }
}

} // verus!
