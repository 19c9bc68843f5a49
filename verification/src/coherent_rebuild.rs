//! A tree that was read back from storage fits together with its tips.

use vstd::prelude::*;

use crate::blocks as tree;
use crate::blocks::{BlockEntry, NONE_REF};
use crate::chain_heads as tips;
use crate::chain_heads::{ChainHeadEntry, Tips};
use crate::coherence as fit;
use crate::coherent_admission as admission_fit;
use crate::coherent_counts as counts;
use crate::hash::BlockHash;

verus! {

/// The childless blocks below `end`.
pub open spec fn leaves_below(s: Seq<BlockEntry>, end: int) -> Set<u32> {
    Set::new(|idx: u32| idx < end && tree::present(s, idx) && tree::childless(s, idx))
}

/// The childless blocks from `from` on.
pub open spec fn leaves_from(s: Seq<BlockEntry>, from: int) -> Set<u32> {
    Set::new(|idx: u32| idx >= from && tree::present(s, idx) && tree::childless(s, idx))
}

/// Counting the branches of all childless blocks.
pub(crate) proof fn lemma_leaves_counted(
    s: Seq<BlockEntry>,
    leaves: Seq<BlockEntry>,
    prev: Seq<BlockHash>,
    idx: int,
)
    requires
        fit::linked(leaves, prev),
        counts::kids_fit(leaves),
        tips::counts_only(leaves, s),
        counts::tallied(s, leaves_below(leaves, idx)),
        0 <= idx <= leaves.len(),
    ensures
        ({
            let after = tips::leaves_counted(s, leaves, idx);
            &&& counts::tallied(after, leaves_below(leaves, leaves.len() as int))
            &&& tips::counts_only(leaves, after)
        }),
    decreases leaves.len() - idx,
{
    if idx < leaves.len() {
        let now = leaves_below(leaves, idx);
        let x = idx as u32;
        counts::lemma_counts_only(leaves, s, prev);
        if leaves[idx].occupied() && tree::childless(leaves, x) {
            assert(leaves_below(leaves, idx + 1) =~= now.insert(x));
            counts::lemma_owing(s, now, x);
            assert(tree::present(leaves, x));
            assert(tree::present(s, x));
            fit::lemma_below_bound(s, s[idx].sequence as int);
            counts::lemma_branch_counted(s, prev, now.insert(x), x, s.len());
            let next = tips::branch_counted(s, x, s.len());
            assert forall|i: int| 0 <= i < leaves.len() implies (#[trigger] next[i]).with_count(0)
                == leaves[i].with_count(0) by {
                assert(s[i].with_count(0) == leaves[i].with_count(0));
            }
            lemma_leaves_counted(next, leaves, prev, idx + 1);
        } else {
            assert(leaves_below(leaves, idx + 1) =~= now);
            lemma_leaves_counted(s, leaves, prev, idx + 1);
        }
    }
}

/// Giving the childless blocks their slots, one after the other.
proof fn lemma_leaves_inserted(
    t: Tips,
    base: Seq<BlockEntry>,
    prev: Seq<BlockHash>,
    active_head: u32,
    idx: int,
    now: u64,
)
    requires
        fit::settled(t, prev, active_head, NONE_REF, leaves_from(base, idx)),
        fit::table_fits(t.heads),
        base.len() == t.blocks.len(),
        0 <= idx <= base.len(),
    ensures
        ({
            let after = tips::leaves_inserted(t, base, idx, prev, now, active_head);
            &&& fit::settled(after, prev, active_head, NONE_REF, Set::empty())
            &&& after.heads.len() == t.heads.len()
        }),
    decreases base.len() - idx,
{
    let late = leaves_from(base, idx);
    if idx < base.len() {
        let x = idx as u32;
        let next_late = leaves_from(base, idx + 1);
        assert(next_late =~= late.remove(x)) by {
            assert forall|h: u32| next_late.contains(h) <==> late.remove(x).contains(h) by {}
        }
        if base[idx].occupied() && tree::childless(base, x) {
            assert(late.contains(x));
            assert(tree::present(t.blocks, x));
            admission_fit::lemma_tip_inserted(
                t,
                prev,
                active_head,
                NONE_REF,
                late,
                x,
                now,
                prev[idx],
            );
            let next = tips::tip_inserted(t, x, now, prev[idx], active_head);
            lemma_leaves_inserted(next, base, prev, active_head, idx + 1, now);
        } else {
            assert(!late.contains(x));
            assert(next_late =~= late);
            lemma_leaves_inserted(t, base, prev, active_head, idx + 1, now);
        }
    } else {
        assert(late =~= Set::<u32>::empty());
    }
}

/// With the tree linked and marked, the rebuilt tips fit it.
pub(crate) proof fn lemma_rebuilt(
    vacant_heads: Seq<ChainHeadEntry>,
    blocks: Seq<BlockEntry>,
    prev: Seq<BlockHash>,
    now: u64,
    active_head: u32,
)
    requires
        fit::linked(blocks, prev),
        fit::complete(blocks, prev, NONE_REF),
        fit::marked(blocks, active_head),
        counts::kids_fit(blocks),
        fit::table_fits(vacant_heads),
        forall|i: int| 0 <= i < vacant_heads.len() ==> !(#[trigger] vacant_heads[i]).in_use(),
    ensures
        fit::coherent(tips::rebuilt(vacant_heads, blocks, prev, now, active_head), prev, active_head),
        tips::rebuilt(vacant_heads, blocks, prev, now, active_head).heads.len()
            == vacant_heads.len(),
{
    let start = tree::uncounted(blocks);
    let none = Set::<u32>::empty();
    counts::lemma_uncounted(blocks);
    counts::lemma_counts_only(blocks, start, prev);
    assert(leaves_below(start, 0) =~= none);
    assert(tips::counts_only(start, start));
    lemma_leaves_counted(start, start, prev, 0);
    let counted = tips::leaves_counted(start, start, 0);
    let all = leaves_below(start, start.len() as int);
    counts::lemma_counts_only(start, counted, prev);
    let t = Tips { heads: vacant_heads, blocks: counted };
    let late = leaves_from(start, 0);
    assert(late =~= all);
    lemma_unmoved(blocks, counted, prev, active_head);
    assert(!exists|h: u32| fit::is_tip(vacant_heads, h)) by {
        assert forall|h: u32| !fit::is_tip(vacant_heads, h) by {}
    }
    assert forall|i: int|
        0 <= i < counted.len() && (#[trigger] counted[i]).occupied() && !counted[i].active()
            && tree::childless(counted, i as u32) implies all.contains(i as u32) by {
        assert(tree::present(counted, i as u32));
    }
    counts::lemma_tally_exact(counted, prev, active_head, all);
    assert(fit::settled(t, prev, active_head, NONE_REF, late)) by {
        assert forall|idx: u32| #[trigger] late.contains(idx) implies tree::present(counted, idx)
            && tree::childless(counted, idx) by {}
        assert(fit::counted(t, late)) by {
            assert forall|i: int|
                0 <= i < counted.len() && (#[trigger] counted[i]).occupied()
                    && !counted[i].active() implies counted[i].head_ref_count == fit::branches(
                t,
                late,
                i as u32,
            ) by {}
        }
    }
    lemma_leaves_inserted(t, start, prev, active_head, 0, now);
    let placed = tips::leaves_inserted(t, start, 0, prev, now, active_head);
    let after = tips::rebuilt(vacant_heads, blocks, prev, now, active_head);
    assert(after.blocks == placed.blocks);
    assert(after.heads =~= tips::missing_hashes_set(placed.heads, prev));
    lemma_hashes_set(placed, after, prev, active_head);
}

/// Counting leaves the links and the marks.
proof fn lemma_unmoved(
    blocks: Seq<BlockEntry>,
    counted: Seq<BlockEntry>,
    prev: Seq<BlockHash>,
    active_head: u32,
)
    requires
        fit::linked(blocks, prev),
        fit::complete(blocks, prev, NONE_REF),
        fit::marked(blocks, active_head),
        tips::counts_only(tree::uncounted(blocks), counted),
    ensures
        fit::linked(counted, prev),
        fit::complete(counted, prev, NONE_REF),
        fit::marked(counted, active_head),
{
    assert(tips::counts_only(blocks, counted)) by {
        assert forall|i: int| 0 <= i < blocks.len() implies (#[trigger] counted[i]).with_count(0)
            == blocks[i].with_count(0) by {
            assert(counted[i].with_count(0) == tree::uncounted(blocks)[i].with_count(0));
        }
    }
    counts::lemma_counts_only(blocks, counted, prev);
    fit::lemma_part_complete(counted, blocks, prev, NONE_REF);
    assert forall|i: int| 0 <= i < counted.len() && (#[trigger] counted[i]).occupied() implies {
        &&& counted[i].active() == (counted[i].sequence == 0)
        &&& counted[i].sequence == 0 ==> active_head == i
    } by {
        assert(blocks[i].occupied());
    }
    if active_head != NONE_REF {
        assert(tree::present(counted, active_head) == tree::present(blocks, active_head));
        assert(counted[active_head as int].occupied());
    }
}

/// Setting the hashes of the missing parents completes the tips.
proof fn lemma_hashes_set(t: Tips, after: Tips, prev: Seq<BlockHash>, active_head: u32)
    requires
        fit::settled(t, prev, active_head, NONE_REF, Set::empty()),
        after.blocks == t.blocks,
        after.heads == tips::missing_hashes_set(t.heads, prev),
    ensures
        fit::coherent(after, prev, active_head),
        after.heads.len() == t.heads.len(),
{
    let none = Set::<u32>::empty();
    assert forall|i: int| 0 <= i < t.heads.len() implies {
        &&& (#[trigger] after.heads[i]).head_idx == t.heads[i].head_idx
        &&& after.heads[i].flags == t.heads[i].flags
        &&& after.heads[i].tail_or_connection_idx == t.heads[i].tail_or_connection_idx
    } by {}
    assert forall|idx: u32| #[trigger] fit::is_tip(after.heads, idx) == fit::is_tip(t.heads, idx) by {
        if fit::is_tip(after.heads, idx) {
            let i = choose|i: int|
                0 <= i < after.heads.len() && (#[trigger] after.heads[i]).in_use()
                    && after.heads[i].head_idx == idx;
            assert(t.heads[i].in_use() && t.heads[i].head_idx == idx);
        }
        if fit::is_tip(t.heads, idx) {
            let i = choose|i: int|
                0 <= i < t.heads.len() && (#[trigger] t.heads[i]).in_use() && t.heads[i].head_idx
                    == idx;
            assert(after.heads[i].in_use() && after.heads[i].head_idx == idx);
        }
    }
    assert(fit::tips_are_leaves(after, none)) by {
        assert forall|i: int|
            0 <= i < after.heads.len() && (#[trigger] after.heads[i]).in_use() implies {
            &&& tree::present(after.blocks, after.heads[i].head_idx)
            &&& tree::childless(after.blocks, after.heads[i].head_idx)
            &&& !none.contains(after.heads[i].head_idx)
        } by {
            assert(t.heads[i].in_use());
        }
        assert forall|a: int, b: int|
            0 <= a < b < after.heads.len() && (#[trigger] after.heads[a]).in_use() && (
            #[trigger] after.heads[b]).in_use() implies after.heads[a].head_idx
            != after.heads[b].head_idx by {
            assert(t.heads[a].in_use() && t.heads[b].in_use());
        }
    }
    assert(fit::counted(after, none)) by {
        assert forall|i: int|
            0 <= i < after.blocks.len() && (#[trigger] after.blocks[i]).occupied()
                && !after.blocks[i].active() implies after.blocks[i].head_ref_count
            == fit::branches(after, none, i as u32) by {
            assert(t.blocks[i].head_ref_count == fit::branches(t, none, i as u32));
        }
    }
    assert forall|i: int|
        0 <= i < after.heads.len() && (#[trigger] after.heads[i]).in_use() implies fit::knows_its_end(
        after.heads[i],
        after.blocks,
    ) && fit::knows_its_parent(after.heads[i], prev) by {
        assert(t.heads[i].in_use());
        assert(fit::knows_its_end(t.heads[i], t.blocks));
        admission_fit::lemma_anchor_end(t.blocks, prev, t.heads[i].head_idx);
    }
}

} // verus!
