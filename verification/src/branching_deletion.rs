//! Deleting a subtree keeps the tree branching as its tips say, whatever its
//! active chain is.

use vstd::prelude::*;

use crate::ancestry;
use crate::blocks as tree;
use crate::blocks::{BlockEntry, NONE_REF};
use crate::branching;
use crate::chain_heads as tips;
use crate::chain_heads::{ChainHeadEntry, Tips};
use crate::coherence as fit;
use crate::coherent_admission as admission_fit;
use crate::coherent_counts as counts;
use crate::coherent_deletion as deletion_fit;
use crate::eviction_laws;
use crate::recovery;

verus! {

/// Every childless block that is linked to a parent is a tip.
pub open spec fn tracked_leaves(t: Tips) -> bool {
    forall|i: int|
        0 <= i < t.blocks.len() && (#[trigger] t.blocks[i]).occupied() && t.blocks[i].parent_ref
            != NONE_REF && tree::childless(t.blocks, i as u32) ==> fit::is_tip(t.heads, i as u32)
}

/// What is left is linked as before.
proof fn lemma_rest(whole: Seq<BlockEntry>, rest: Seq<BlockEntry>, target: u32)
    requires
        branching::rooted(whole),
        deletion_fit::rest_of(whole, rest, target),
    ensures
        branching::rooted(rest),
{
    assert forall|i: int|
        0 <= i < rest.len() && rest[i].occupied() && #[trigger] rest[i].parent_ref
            != NONE_REF implies tree::present(rest, rest[i].parent_ref)
        && rest[rest[i].parent_ref as int].sequence + 1 == rest[i].sequence by {
        let idx = i as u32;
        let p = rest[i].parent_ref;
        assert(tree::present(rest, idx));
        assert(whole[i].parent_ref == p);
        if tree::descends(whole, p, target, whole.len()) {
            ancestry::subtree_is_closed(whole, idx, target);
        }
        assert(tree::present(rest, p));
        assert(rest[p as int].occupied());
    }
}

/// A tip lies in the subtree of every block that is linked to a parent.
proof fn lemma_doomed_tip(t: Tips, target: u32) -> (slot: int)
    requires
        branching::rooted(t.blocks),
        tracked_leaves(t),
        tree::present(t.blocks, target),
        t.blocks[target as int].parent_ref != NONE_REF,
    ensures
        0 <= slot < t.heads.len(),
        deletion_fit::doomed(t.heads, tree::subtree(t.blocks, target), slot),
        forall|j: int|
            0 <= j < slot ==> !#[trigger] deletion_fit::doomed(
                t.heads,
                tree::subtree(t.blocks, target),
                j,
            ),
{
    let gone = tree::subtree(t.blocks, target);
    let leaf = eviction_laws::lemma_leaf_above(t.blocks, target);
    recovery::lemma_subtree_members(t.blocks, target, t.blocks.len());
    assert(gone.contains(leaf));
    assert(t.blocks[leaf as int].occupied());
    assert(fit::is_tip(t.heads, leaf));
    let some = choose|i: int|
        0 <= i < t.heads.len() && (#[trigger] t.heads[i]).in_use() && t.heads[i].head_idx == leaf;
    assert(deletion_fit::doomed(t.heads, gone, some));
    deletion_fit::lemma_first_doomed(t.heads, gone, some)
}

/// The tips that are left are the childless blocks of what is left.
proof fn lemma_tips_left(t: Tips, rest: Seq<BlockEntry>, target: u32)
    requires
        branching::branching(t),
        tracked_leaves(t),
        tree::present(t.blocks, target),
        deletion_fit::rest_of(t.blocks, rest, target),
        branching::rooted(rest),
    ensures
        ({
            let left = Tips { heads: deletion_fit::tips_left(t, rest, target), blocks: rest };
            &&& left.heads.len() == t.heads.len()
            &&& fit::tips_are_leaves(left, Set::empty())
            &&& tracked_leaves(left)
        }),
{
    let whole = t.blocks;
    let gone = tree::subtree(whole, target);
    let heads = deletion_fit::tips_left(t, rest, target);
    let none = Set::<u32>::empty();
    let parent = whole[target as int].parent_ref;
    fit::lemma_head_slot(t.heads, parent, 0);
    let heir = tips::heir(Tips { heads: t.heads, blocks: rest }, parent);
    deletion_fit::lemma_deleted_dropped(t.heads, gone, heir, 0);
    recovery::lemma_subtree_members(whole, target, whole.len());
    assert forall|i: int| 0 <= i < heads.len() && (#[trigger] heads[i]).in_use() implies {
        &&& tree::present(rest, heads[i].head_idx)
        &&& tree::childless(rest, heads[i].head_idx)
        &&& !none.contains(heads[i].head_idx)
    } by {
        deletion_fit::lemma_slot_left(t, rest, target, i);
        if !deletion_fit::doomed(t.heads, gone, i) {
            let h = heads[i].head_idx;
            assert(t.heads[i].in_use());
            assert(!gone.contains(h));
            assert(tree::present(rest, h));
            assert forall|j: int|
                0 <= j < rest.len() && rest[j].occupied() implies #[trigger] rest[j].parent_ref
                != h by {
                assert(whole[j].occupied() && whole[j].parent_ref == rest[j].parent_ref);
            }
        }
    }
    assert forall|a: int, b: int|
        0 <= a < b < heads.len() && (#[trigger] heads[a]).in_use() && (
        #[trigger] heads[b]).in_use() implies heads[a].head_idx != heads[b].head_idx by {
        deletion_fit::lemma_slot_left(t, rest, target, a);
        deletion_fit::lemma_slot_left(t, rest, target, b);
        assert(t.heads[a].in_use() && t.heads[b].in_use());
        if deletion_fit::doomed(t.heads, gone, a) && deletion_fit::doomed(t.heads, gone, b) {
            assert(!deletion_fit::doomed(t.heads, gone, a));
        }
        assert(fit::is_tip(t.heads, t.heads[a].head_idx) && fit::is_tip(
            t.heads,
            t.heads[b].head_idx,
        ));
    }
    assert forall|i: int|
        0 <= i < rest.len() && (#[trigger] rest[i]).occupied() && (!rest[i].active()
            || rest[i].parent_ref != NONE_REF) && tree::childless(
            rest,
            i as u32,
        ) implies fit::is_tip(heads, i as u32) by {
        let idx = i as u32;
        assert(whole[i].occupied());
        assert(tree::present(rest, idx));
        if tree::childless(whole, idx) {
            assert(fit::is_tip(t.heads, idx));
            let slot = choose|slot: int|
                0 <= slot < t.heads.len() && (#[trigger] t.heads[slot]).in_use()
                    && t.heads[slot].head_idx == idx;
            assert(!gone.contains(idx));
            assert(!deletion_fit::doomed(t.heads, gone, slot));
            assert(heads[slot] == t.heads[slot]);
        } else {
            let prev = eviction_laws::parent_hashes(whole);
            eviction_laws::lemma_parent_hashes(whole);
            deletion_fit::lemma_bereft(whole, rest, prev, target, idx);
            assert(!fit::is_tip(t.heads, idx)) by {
                if fit::is_tip(t.heads, idx) {
                    let slot = choose|slot: int|
                        0 <= slot < t.heads.len() && (#[trigger] t.heads[slot]).in_use()
                            && t.heads[slot].head_idx == idx;
                    assert(tree::childless(whole, t.heads[slot].head_idx));
                }
            }
            assert(heir == Some(idx));
            let slot = lemma_doomed_tip(t, target);
            assert(heads[slot].in_use() && heads[slot].head_idx == idx);
        }
    }
}

/// Classifying tips anew lets them name the ends of their branches.
proof fn lemma_all_refreshed(heads: Seq<ChainHeadEntry>, blocks: Seq<BlockEntry>, slot: int)
    requires
        branching::rooted(blocks),
        0 <= slot <= heads.len(),
        forall|i: int|
            0 <= i < heads.len() && (#[trigger] heads[i]).in_use() ==> tree::present(
                blocks,
                heads[i].head_idx,
            ),
    ensures
        ({
            let after = tips::all_refreshed(heads, blocks, slot, heads.len() as int);
            &&& after.len() == heads.len()
            &&& forall|i: int|
                0 <= i < heads.len() ==> {
                    &&& (#[trigger] after[i]).head_idx == heads[i].head_idx
                    &&& i < slot ==> after[i] == heads[i]
                    &&& i >= slot && after[i].in_use() ==> tree::descends(
                        blocks,
                        after[i].head_idx,
                        after[i].tail_or_connection_idx,
                        blocks.len(),
                    )
                }
        }),
    decreases heads.len() - slot,
{
    if slot < heads.len() {
        let after = tips::all_refreshed(heads, blocks, slot, heads.len() as int);
        if heads[slot].in_use() {
            let hash = heads[slot].missing_parent_hash;
            let fresh = tips::refreshed(heads, blocks, slot, NONE_REF, hash);
            let h = heads[slot].head_idx;
            admission_fit::lemma_refreshed(heads, blocks, slot, NONE_REF, hash);
            fit::lemma_below_bound(blocks, blocks[h as int].sequence as int);
            branching::lemma_anchor_below(blocks, h, h, blocks.len());
            let next = heads.update(slot, fresh);
            assert forall|i: int|
                0 <= i < next.len() && (#[trigger] next[i]).in_use() implies tree::present(
                blocks,
                next[i].head_idx,
            ) by {
                assert(heads[i].in_use());
            }
            lemma_all_refreshed(next, blocks, slot + 1);
            assert forall|i: int| 0 <= i < heads.len() implies {
                &&& (#[trigger] after[i]).head_idx == heads[i].head_idx
                &&& i < slot ==> after[i] == heads[i]
                &&& i >= slot && after[i].in_use() ==> tree::descends(
                    blocks,
                    after[i].head_idx,
                    after[i].tail_or_connection_idx,
                    blocks.len(),
                )
            } by {
                assert(next[i].head_idx == heads[i].head_idx);
                if i == slot {
                    assert(after[i] == next[i]);
                }
            }
        } else {
            lemma_all_refreshed(heads, blocks, slot + 1);
        }
    }
}

/// Where every leaf that is linked to a parent starts a branch, some branch
/// reaches every block that is linked to a parent.
pub(crate) proof fn lemma_reached(s: Seq<BlockEntry>, starts: Set<u32>, idx: u32)
    requires
        branching::rooted(s),
        counts::tallied(s, starts),
        forall|i: int|
            0 <= i < s.len() && (#[trigger] s[i]).occupied() && s[i].parent_ref != NONE_REF
                && tree::childless(s, i as u32) ==> starts.contains(i as u32),
        tree::present(s, idx),
        s[idx as int].parent_ref != NONE_REF,
    ensures
        s[idx as int].head_ref_count > 0,
    decreases NONE_REF - s[idx as int].sequence,
{
    assert(s[idx as int].occupied());
    counts::lemma_reached_bounds(s, idx);
    if !tree::childless(s, idx) {
        let c = choose|i: int|
            0 <= i < s.len() && s[i].occupied() && #[trigger] s[i].parent_ref == idx;
        assert(s[c].parent_ref != NONE_REF);
        lemma_reached(s, starts, c as u32);
        counts::lemma_reached_some(s, c, idx);
    }
}

/// Counting the branches of all tips anew gives every block its own.
proof fn lemma_recounted(t: Tips, after: Seq<BlockEntry>)
    requires
        branching::rooted(t.blocks),
        fit::tips_are_leaves(t, Set::empty()),
        tracked_leaves(t),
        branching::ends_below(t),
        counts::kids_fit(t.blocks),
        after == tips::tips_counted(
            tree::uncounted(t.blocks),
            t.heads,
            0,
            t.heads.len() as int,
        ),
    ensures
        branching::branching(Tips { heads: t.heads, blocks: after }),
        tracked_leaves(Tips { heads: t.heads, blocks: after }),
        tips::counts_only(t.blocks, after),
        forall|idx: u32| #[trigger] fit::kids(after, idx) == fit::kids(t.blocks, idx),
{
    let none = Set::<u32>::empty();
    let s = t.blocks;
    let prev = eviction_laws::parent_hashes(s);
    eviction_laws::lemma_parent_hashes(s);
    let start = tree::uncounted(s);
    let all = counts::tips_below(t.heads, t.heads.len() as int);
    counts::lemma_uncounted(s);
    counts::lemma_counts_only(s, start, prev);
    assert(counts::tips_below(t.heads, 0) =~= none);
    assert forall|i: int|
        0 <= i < t.heads.len() && (#[trigger] t.heads[i]).in_use() implies tree::present(
        start,
        t.heads[i].head_idx,
    ) by {}
    counts::lemma_tips_counted(start, prev, t.heads, 0);
    assert(tips::counts_only(s, after)) by {
        assert forall|i: int| 0 <= i < s.len() implies (#[trigger] after[i]).with_count(0)
            == s[i].with_count(0) by {
            assert(start[i].with_count(0) == s[i].with_count(0));
        }
    }
    counts::lemma_counts_only(s, after, prev);
    let done = Tips { heads: t.heads, blocks: after };
    assert forall|i: int| 0 <= i < s.len() implies {
        &&& (#[trigger] after[i]).occupied() == s[i].occupied()
        &&& after[i].parent_ref == s[i].parent_ref
        &&& after[i].sequence == s[i].sequence
        &&& after[i].active() == s[i].active()
    } by {
        assert(after[i].with_count(0) == s[i].with_count(0));
    }
    assert(fit::part_of(after, s));
    assert(branching::rooted(after)) by {
        assert forall|i: int|
            0 <= i < after.len() && after[i].occupied() && #[trigger] after[i].parent_ref
                != NONE_REF implies tree::present(after, after[i].parent_ref)
            && after[after[i].parent_ref as int].sequence + 1 == after[i].sequence by {
            assert(after[i].occupied() == s[i].occupied());
            assert(s[i].parent_ref != NONE_REF);
            let p = s[i].parent_ref as int;
            assert(after[p].occupied() == s[p].occupied());
        }
    }
    assert forall|i: int|
        0 <= i < t.heads.len() && (#[trigger] done.heads[i]).in_use() implies {
        &&& tree::present(after, done.heads[i].head_idx)
        &&& tree::childless(after, done.heads[i].head_idx)
        &&& !none.contains(done.heads[i].head_idx)
        &&& tree::descends(
            after,
            done.heads[i].head_idx,
            done.heads[i].tail_or_connection_idx,
            after.len(),
        )
    } by {
        let h = t.heads[i].head_idx;
        assert(after[h as int].occupied() == s[h as int].occupied());
        branching::lemma_descends_kept(
            after,
            s,
            h,
            t.heads[i].tail_or_connection_idx,
            s.len(),
        );
    }
    assert forall|i: int|
        0 <= i < after.len() && (#[trigger] after[i]).occupied() && (!after[i].active()
            || after[i].parent_ref != NONE_REF) && tree::childless(
            after,
            i as u32,
        ) implies fit::is_tip(t.heads, i as u32) by {
        assert(s[i].occupied());
        assert(tree::childless(s, i as u32));
    }
    assert forall|idx: u32| #[trigger] all.contains(idx) == fit::is_tip(t.heads, idx) by {}
    assert forall|i: int|
        0 <= i < after.len() && (#[trigger] after[i]).occupied() implies after[i].head_ref_count
        == fit::branches(done, none, i as u32) by {
        let idx = i as u32;
        assert forall|j: int|
            0 <= j < after.len() && fit::child_of(
                #[trigger] after[j],
                idx,
            ) implies after[j].head_ref_count > 0 by {
            assert(after[j].parent_ref == idx);
            lemma_reached(after, all, j as u32);
        }
        counts::lemma_reached_all(after, idx);
    }
}

/// A tree that loses a subtree branches as its tips say again.
pub proof fn deletion_keeps_branching(t: Tips, rest: Seq<BlockEntry>, target: u32)
    requires
        branching::branching(t),
        branching::counts_fit(t),
        tracked_leaves(t),
        tree::present(t.blocks, target),
        deletion_fit::rest_of(t.blocks, rest, target),
    ensures
        ({
            let after = tips::subtree_dropped(
                Tips { heads: t.heads, blocks: rest },
                tree::subtree(t.blocks, target),
                t.blocks[target as int].parent_ref,
            );
            &&& branching::branching(after)
            &&& branching::counts_fit(after)
            &&& tracked_leaves(after)
            &&& after.heads.len() == t.heads.len()
            &&& tips::counts_only(rest, after.blocks)
        }),
{
    let whole = t.blocks;
    let none = Set::<u32>::empty();
    let kept = deletion_fit::tips_left(t, rest, target);
    lemma_rest(whole, rest, target);
    lemma_tips_left(t, rest, target);
    let left = Tips { heads: kept, blocks: rest };
    assert forall|i: int|
        0 <= i < kept.len() && (#[trigger] kept[i]).in_use() implies tree::present(
        rest,
        kept[i].head_idx,
    ) by {
        assert(left.heads[i].in_use());
    }
    lemma_all_refreshed(kept, rest, 0);
    let heads = tips::all_refreshed(kept, rest, 0, t.heads.len() as int);
    let plain = Tips { heads, blocks: rest };
    branching::lemma_same_tips(kept, heads);
    assert(fit::tips_are_leaves(plain, none)) by {
        assert forall|i: int| 0 <= i < heads.len() && (#[trigger] heads[i]).in_use() implies {
            &&& tree::present(rest, heads[i].head_idx)
            &&& tree::childless(rest, heads[i].head_idx)
            &&& !none.contains(heads[i].head_idx)
        } by {
            assert(left.heads[i].in_use());
        }
        assert forall|a: int, b: int|
            0 <= a < b < heads.len() && (#[trigger] heads[a]).in_use() && (
            #[trigger] heads[b]).in_use() implies heads[a].head_idx != heads[b].head_idx by {
            assert(left.heads[a].in_use() && left.heads[b].in_use());
        }
        assert forall|i: int|
            0 <= i < rest.len() && (#[trigger] rest[i]).occupied() && !rest[i].active()
                && tree::childless(rest, i as u32) implies fit::is_tip(heads, i as u32)
            || none.contains(i as u32) by {
            assert(left.blocks[i].occupied());
            assert(fit::is_tip(heads, i as u32) == fit::is_tip(kept, i as u32));
        }
    }
    assert(tracked_leaves(plain)) by {
        assert forall|i: int|
            0 <= i < rest.len() && (#[trigger] plain.blocks[i]).occupied()
                && plain.blocks[i].parent_ref != NONE_REF && tree::childless(
                plain.blocks,
                i as u32,
            ) implies fit::is_tip(heads, i as u32) by {
            assert(left.blocks[i].occupied());
            assert(fit::is_tip(heads, i as u32) == fit::is_tip(kept, i as u32));
        }
    }
    assert forall|idx: u32| tree::present(rest, idx) implies #[trigger] fit::kids(rest, idx)
        <= 254 by {
        lemma_fewer_kids(rest, whole, idx);
        assert(rest[idx as int].occupied());
        assert(whole[idx as int].occupied());
        assert(whole[idx as int].head_ref_count == fit::branches(t, none, idx));
    }
    let after = tips::subtree_dropped(
        Tips { heads: t.heads, blocks: rest },
        tree::subtree(whole, target),
        whole[target as int].parent_ref,
    );
    lemma_recounted(plain, after.blocks);
    assert forall|i: int|
        0 <= i < after.blocks.len() && (
        #[trigger] after.blocks[i]).occupied() implies after.blocks[i].head_ref_count < 255 by {
        let idx = i as u32;
        assert(after.blocks[i].with_count(0) == rest[i].with_count(0));
        assert(tree::present(rest, idx));
        assert(fit::kids(rest, idx) <= 254);
        assert(fit::kids(after.blocks, idx) == fit::kids(rest, idx));
        assert(after.blocks[i].head_ref_count == fit::branches(after, none, idx));
        if fit::is_tip(after.heads, idx) {
            let slot = choose|slot: int|
                0 <= slot < after.heads.len() && (#[trigger] after.heads[slot]).in_use()
                    && after.heads[slot].head_idx == idx;
            assert(tree::childless(after.blocks, after.heads[slot].head_idx));
            fit::lemma_kids_childless(after.blocks, idx);
        }
    }
}

pub(crate) proof fn lemma_fewer_kids(part: Seq<BlockEntry>, whole: Seq<BlockEntry>, idx: u32)
    requires
        fit::part_of(part, whole),
    ensures
        fit::kids(part, idx) <= fit::kids(whole, idx),
    decreases part.len(),
{
    if part.len() > 0 {
        assert(part[part.len() - 1] == part.last());
        assert forall|i: int|
            0 <= i < part.drop_last().len() && (
            #[trigger] part.drop_last()[i]).occupied() implies whole.drop_last()[i].occupied()
            && whole.drop_last()[i].parent_ref == part.drop_last()[i].parent_ref
            && whole.drop_last()[i].active() == part.drop_last()[i].active()
            && whole.drop_last()[i].sequence == part.drop_last()[i].sequence
            && whole.drop_last()[i].hash == part.drop_last()[i].hash by {
            assert(part[i] == part.drop_last()[i]);
            assert(whole[i] == whole.drop_last()[i]);
        }
        lemma_fewer_kids(part.drop_last(), whole.drop_last(), idx);
    }
}

} // verus!
