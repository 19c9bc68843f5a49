//! Counting branches from nothing gives every block its number of branches.

use vstd::prelude::*;

use crate::blocks as tree;
use crate::blocks::{BlockEntry, NONE_REF};
use crate::chain_heads as tips;
use crate::chain_heads::ChainHeadEntry;
use crate::coherence as fit;
use crate::hash::BlockHash;

verus! {

/// Whether the entry is a child of `idx` that some branch has reached.
pub open spec fn reached_child(entry: BlockEntry, idx: u32) -> bool {
    fit::child_of(entry, idx) && entry.head_ref_count > 0
}

/// Number of children of `idx` that some branch has reached.
pub open spec fn reached_kids(s: Seq<BlockEntry>, idx: u32) -> int
    decreases s.len(),
{
    if s.len() == 0 {
        0
    } else {
        reached_kids(s.drop_last(), idx) + fit::one_if(reached_child(s.last(), idx))
    }
}

proof fn lemma_reached_update(s: Seq<BlockEntry>, j: int, entry: BlockEntry, idx: u32)
    requires
        0 <= j < s.len(),
    ensures
        reached_kids(s.update(j, entry), idx) == reached_kids(s, idx) + fit::one_if(
            reached_child(entry, idx),
        ) - fit::one_if(reached_child(s[j], idx)),
    decreases s.len(),
{
    let after = s.update(j, entry);
    if j == s.len() - 1 {
        assert(after.drop_last() =~= s.drop_last());
    } else {
        assert(after.drop_last() =~= s.drop_last().update(j, entry));
        lemma_reached_update(s.drop_last(), j, entry, idx);
    }
}

pub(crate) proof fn lemma_reached_bounds(s: Seq<BlockEntry>, idx: u32)
    ensures
        0 <= reached_kids(s, idx) <= fit::kids(s, idx),
    decreases s.len(),
{
    if s.len() > 0 {
        lemma_reached_bounds(s.drop_last(), idx);
    }
}

pub(crate) proof fn lemma_reached_some(s: Seq<BlockEntry>, j: int, idx: u32)
    requires
        0 <= j < s.len(),
        reached_child(s[j], idx),
    ensures
        reached_kids(s, idx) >= 1,
    decreases s.len(),
{
    lemma_reached_bounds(s.drop_last(), idx);
    if j < s.len() - 1 {
        assert(s.drop_last()[j] == s[j]);
        lemma_reached_some(s.drop_last(), j, idx);
    }
}

pub(crate) proof fn lemma_reached_all(s: Seq<BlockEntry>, idx: u32)
    requires
        forall|j: int|
            0 <= j < s.len() && fit::child_of(#[trigger] s[j], idx) ==> s[j].head_ref_count > 0,
    ensures
        reached_kids(s, idx) == fit::kids(s, idx),
    decreases s.len(),
{
    if s.len() > 0 {
        assert(s[s.len() - 1] == s.last());
        assert forall|j: int|
            0 <= j < s.drop_last().len() && fit::child_of(
                #[trigger] s.drop_last()[j],
                idx,
            ) implies s.drop_last()[j].head_ref_count > 0 by {
            assert(s[j] == s.drop_last()[j]);
        }
        lemma_reached_all(s.drop_last(), idx);
    }
}

proof fn lemma_reached_none(s: Seq<BlockEntry>, idx: u32)
    requires
        forall|j: int| 0 <= j < s.len() ==> (#[trigger] s[j]).head_ref_count == 0,
    ensures
        reached_kids(s, idx) == 0,
    decreases s.len(),
{
    if s.len() > 0 {
        assert(s[s.len() - 1] == s.last());
        assert forall|j: int| 0 <= j < s.drop_last().len() implies (
        #[trigger] s.drop_last()[j]).head_ref_count == 0 by {
            assert(s[j] == s.drop_last()[j]);
        }
        lemma_reached_none(s.drop_last(), idx);
    }
}

/// Every count is the number of reached children, and one more at a start.
pub open spec fn tallied(s: Seq<BlockEntry>, starts: Set<u32>) -> bool {
    forall|i: int|
        0 <= i < s.len() && (#[trigger] s[i]).occupied() ==> s[i].head_ref_count == fit::one_if(
            starts.contains(i as u32),
        ) + reached_kids(s, i as u32)
}

/// As `tallied`, with one branch still to be counted at `cur`.
pub open spec fn owing(s: Seq<BlockEntry>, starts: Set<u32>, cur: u32) -> bool {
    forall|i: int|
        0 <= i < s.len() && (#[trigger] s[i]).occupied() ==> s[i].head_ref_count + fit::one_if(
            i == cur,
        ) == fit::one_if(starts.contains(i as u32)) + reached_kids(s, i as u32)
}

/// A count can hold a branch to each child.
pub open spec fn kids_fit(s: Seq<BlockEntry>) -> bool {
    forall|idx: u32| tree::present(s, idx) ==> #[trigger] fit::kids(s, idx) <= 254
}

/// The trees differ in branch counts alone, so that all else is the same.
pub(crate) proof fn lemma_counts_only(s: Seq<BlockEntry>, other: Seq<BlockEntry>, prev: Seq<BlockHash>)
    requires
        tips::counts_only(s, other),
        fit::linked(s, prev),
    ensures
        fit::linked(other, prev),
        fit::part_of(s, other),
        fit::part_of(other, s),
        forall|idx: u32| #[trigger] fit::kids(other, idx) == fit::kids(s, idx),
        forall|idx: u32| #[trigger] tree::childless(other, idx) == tree::childless(s, idx),
        forall|idx: u32| #[trigger] tree::present(other, idx) == tree::present(s, idx),
        kids_fit(s) ==> kids_fit(other),
{
    assert forall|i: int| 0 <= i < s.len() implies {
        &&& (#[trigger] other[i]).occupied() == s[i].occupied()
        &&& other[i].parent_ref == s[i].parent_ref
        &&& other[i].flags == s[i].flags
        &&& other[i].sequence == s[i].sequence
        &&& other[i].hash == s[i].hash
    } by {
        assert(other[i].with_count(0) == s[i].with_count(0));
    }
    assert forall|idx: u32| #[trigger] fit::kids(other, idx) == fit::kids(s, idx) by {
        assert forall|j: int| 0 <= j < other.len() implies fit::child_of(#[trigger] other[j], idx)
            == fit::child_of(s[j], idx) by {}
        fit::lemma_kids_same(other, s, idx);
    }
    assert forall|idx: u32| #[trigger] tree::childless(other, idx) == tree::childless(s, idx) by {
        fit::lemma_kids_childless(other, idx);
        fit::lemma_kids_childless(s, idx);
        assert(fit::kids(other, idx) == fit::kids(s, idx));
    }
    assert forall|idx: u32| #[trigger] tree::present(other, idx) == tree::present(s, idx) by {
        if idx < s.len() {
            assert(other[idx as int].occupied() == s[idx as int].occupied());
        }
    }
    assert(fit::linked(other, prev)) by {
        assert forall|i: int|
            0 <= i < other.len() && other[i].occupied() && #[trigger] other[i].parent_ref
                != NONE_REF implies {
            &&& tree::present(other, other[i].parent_ref)
            &&& other[other[i].parent_ref as int].sequence + 1 == other[i].sequence
            &&& other[other[i].parent_ref as int].hash == prev[i]
        } by {
            assert(other[i].occupied() == s[i].occupied());
            assert(s[i].parent_ref != NONE_REF);
            let p = s[i].parent_ref as int;
            assert(other[p].occupied() == s[p].occupied());
        }
    }
    if kids_fit(s) {
        assert forall|idx: u32| tree::present(other, idx) implies #[trigger] fit::kids(other, idx)
            <= 254 by {
            assert(tree::present(s, idx));
            assert(fit::kids(s, idx) <= 254);
        }
    }
}

/// Counting one branch, from its tip down to the first block reached before.
pub(crate) proof fn lemma_branch_counted(
    s: Seq<BlockEntry>,
    prev: Seq<BlockHash>,
    starts: Set<u32>,
    cur: u32,
    steps: nat,
)
    requires
        fit::linked(s, prev),
        kids_fit(s),
        tree::present(s, cur),
        owing(s, starts, cur),
        steps >= fit::below(s, s[cur as int].sequence as int),
    ensures
        tallied(tips::branch_counted(s, cur, steps), starts),
        tips::counts_only(s, tips::branch_counted(s, cur, steps)),
    decreases steps,
{
    fit::lemma_below_step(s, cur);
    let entry = s[cur as int];
    assert(entry.occupied());
    lemma_reached_bounds(s, cur);
    assert(fit::kids(s, cur) <= 254);
    let count = tree::adjusted_count(entry.head_ref_count, 1i8);
    let more = s.update(cur as int, entry.with_count(count));
    assert(count == entry.head_ref_count + 1);
    assert(tree::recounted(s, cur, 1i8) == more);
    assert(tips::counts_only(s, more));
    assert forall|idx: u32| #[trigger] reached_kids(more, idx) == reached_kids(s, idx)
        + fit::one_if(entry.parent_ref == idx && entry.head_ref_count == 0) by {
        lemma_reached_update(s, cur as int, entry.with_count(count), idx);
    }
    if entry.head_ref_count != 0 || entry.parent_ref == NONE_REF {
        assert forall|i: int|
            0 <= i < more.len() && (#[trigger] more[i]).occupied() implies more[i].head_ref_count
            == fit::one_if(starts.contains(i as u32)) + reached_kids(more, i as u32) by {
            assert(s[i].occupied());
            assert(reached_kids(more, i as u32) == reached_kids(s, i as u32) + fit::one_if(
                entry.parent_ref == i as u32 && entry.head_ref_count == 0,
            ));
        }
    } else {
        let parent = entry.parent_ref;
        assert(owing(more, starts, parent)) by {
            assert forall|i: int|
                0 <= i < more.len() && (
                #[trigger] more[i]).occupied() implies more[i].head_ref_count + fit::one_if(
                i == parent,
            ) == fit::one_if(starts.contains(i as u32)) + reached_kids(more, i as u32) by {
                assert(s[i].occupied());
                assert(reached_kids(more, i as u32) == reached_kids(s, i as u32) + fit::one_if(
                    entry.parent_ref == i as u32 && entry.head_ref_count == 0,
                ));
            }
        }
        lemma_counts_only(s, more, prev);
        fit::lemma_below_part(more, s, s[parent as int].sequence as int);
        lemma_branch_counted(more, prev, starts, parent, (steps - 1) as nat);
        let after = tips::branch_counted(more, parent, (steps - 1) as nat);
        assert forall|i: int| 0 <= i < s.len() implies (#[trigger] after[i]).with_count(0)
            == s[i].with_count(0) by {
            assert(more[i].with_count(0) == s[i].with_count(0));
        }
    }
}

/// One more start is one more branch to be counted.
pub(crate) proof fn lemma_owing(s: Seq<BlockEntry>, starts: Set<u32>, cur: u32)
    requires
        tallied(s, starts),
        !starts.contains(cur),
        s.len() <= NONE_REF,
    ensures
        owing(s, starts.insert(cur), cur),
{
    assert forall|i: int|
        0 <= i < s.len() && (#[trigger] s[i]).occupied() implies s[i].head_ref_count + fit::one_if(
        i == cur,
    ) == fit::one_if(starts.insert(cur).contains(i as u32)) + reached_kids(s, i as u32) by {}
}

/// The tips in the slots below `end`.
pub open spec fn tips_below(heads: Seq<ChainHeadEntry>, end: int) -> Set<u32> {
    Set::new(
        |idx: u32|
            exists|slot: int|
                0 <= slot < end && slot < heads.len() && (#[trigger] heads[slot]).in_use()
                    && heads[slot].head_idx == idx,
    )
}

/// Counting the branches of all tips.
pub(crate) proof fn lemma_tips_counted(
    s: Seq<BlockEntry>,
    prev: Seq<BlockHash>,
    heads: Seq<ChainHeadEntry>,
    slot: int,
)
    requires
        fit::linked(s, prev),
        kids_fit(s),
        tallied(s, tips_below(heads, slot)),
        0 <= slot <= heads.len(),
        forall|i: int|
            0 <= i < heads.len() && (#[trigger] heads[i]).in_use() ==> tree::present(
                s,
                heads[i].head_idx,
            ),
        forall|a: int, b: int|
            0 <= a < b < heads.len() && (#[trigger] heads[a]).in_use() && (
            #[trigger] heads[b]).in_use() ==> heads[a].head_idx != heads[b].head_idx,
    ensures
        ({
            let after = tips::tips_counted(s, heads, slot, heads.len() as int);
            &&& tallied(after, tips_below(heads, heads.len() as int))
            &&& tips::counts_only(s, after)
        }),
    decreases heads.len() - slot,
{
    if slot < heads.len() {
        let now = tips_below(heads, slot);
        if heads[slot].in_use() {
            let h = heads[slot].head_idx;
            assert(!now.contains(h));
            assert(tips_below(heads, slot + 1) =~= now.insert(h)) by {
                assert forall|idx: u32| tips_below(heads, slot + 1).contains(idx) <==> now.insert(
                    h,
                ).contains(idx) by {
                    if tips_below(heads, slot + 1).contains(idx) {
                        let i = choose|i: int|
                            0 <= i < slot + 1 && i < heads.len() && (#[trigger] heads[i]).in_use()
                                && heads[i].head_idx == idx;
                        if i < slot {
                            assert(now.contains(idx));
                        }
                    }
                    if now.contains(idx) {
                        let i = choose|i: int|
                            0 <= i < slot && i < heads.len() && (#[trigger] heads[i]).in_use()
                                && heads[i].head_idx == idx;
                        assert(heads[i].in_use());
                    }
                }
            }
            lemma_owing(s, now, h);
            fit::lemma_below_bound(s, s[h as int].sequence as int);
            lemma_branch_counted(s, prev, now.insert(h), h, s.len());
            let next = tips::branch_counted(s, h, s.len());
            lemma_counts_only(s, next, prev);
            lemma_tips_counted(next, prev, heads, slot + 1);
            let after = tips::tips_counted(next, heads, slot + 1, heads.len() as int);
            assert forall|i: int| 0 <= i < s.len() implies (#[trigger] after[i]).with_count(0)
                == s[i].with_count(0) by {
                assert(next[i].with_count(0) == s[i].with_count(0));
            }
        } else {
            assert(tips_below(heads, slot + 1) =~= now) by {
                assert forall|idx: u32| tips_below(heads, slot + 1).contains(idx) <==> now.contains(
                    idx,
                ) by {
                    if tips_below(heads, slot + 1).contains(idx) {
                        let i = choose|i: int|
                            0 <= i < slot + 1 && i < heads.len() && (#[trigger] heads[i]).in_use()
                                && heads[i].head_idx == idx;
                        assert(i < slot);
                    }
                    if now.contains(idx) {
                        let i = choose|i: int|
                            0 <= i < slot && i < heads.len() && (#[trigger] heads[i]).in_use()
                                && heads[i].head_idx == idx;
                        assert(heads[i].in_use());
                    }
                }
            }
            lemma_tips_counted(s, prev, heads, slot + 1);
        }
    }
}

/// With nothing counted, everything is tallied from no start.
pub(crate) proof fn lemma_uncounted(s: Seq<BlockEntry>)
    ensures
        tallied(tree::uncounted(s), Set::empty()),
        tips::counts_only(s, tree::uncounted(s)),
{
    let after = tree::uncounted(s);
    assert forall|i: int|
        0 <= i < after.len() && (#[trigger] after[i]).occupied() implies after[i].head_ref_count
        == fit::one_if(Set::<u32>::empty().contains(i as u32)) + reached_kids(after, i as u32) by {
        lemma_reached_none(after, i as u32);
    }
}

/// Where every childless block is a start, some branch reaches every block off
/// the active chain.
proof fn lemma_reached(
    s: Seq<BlockEntry>,
    prev: Seq<BlockHash>,
    active_head: u32,
    starts: Set<u32>,
    idx: u32,
)
    requires
        fit::linked(s, prev),
        fit::marked(s, active_head),
        tallied(s, starts),
        forall|i: int|
            0 <= i < s.len() && (#[trigger] s[i]).occupied() && !s[i].active() && tree::childless(
                s,
                i as u32,
            ) ==> starts.contains(i as u32),
        tree::present(s, idx),
        !s[idx as int].active(),
    ensures
        s[idx as int].head_ref_count > 0,
    decreases NONE_REF - s[idx as int].sequence,
{
    assert(s[idx as int].occupied());
    lemma_reached_bounds(s, idx);
    if !tree::childless(s, idx) {
        let c = choose|i: int|
            0 <= i < s.len() && s[i].occupied() && #[trigger] s[i].parent_ref == idx;
        assert(s[c].occupied());
        lemma_reached(s, prev, active_head, starts, c as u32);
        lemma_reached_some(s, c, idx);
    }
}

/// The tally of all childless blocks is the number of branches.
pub(crate) proof fn lemma_tally_exact(
    s: Seq<BlockEntry>,
    prev: Seq<BlockHash>,
    active_head: u32,
    starts: Set<u32>,
)
    requires
        fit::linked(s, prev),
        fit::marked(s, active_head),
        tallied(s, starts),
        forall|i: int|
            0 <= i < s.len() && (#[trigger] s[i]).occupied() && !s[i].active() && tree::childless(
                s,
                i as u32,
            ) ==> starts.contains(i as u32),
    ensures
        forall|i: int|
            0 <= i < s.len() && (#[trigger] s[i]).occupied() && !s[i].active()
                ==> s[i].head_ref_count == fit::one_if(starts.contains(i as u32)) + fit::kids(
                s,
                i as u32,
            ),
{
    assert forall|i: int|
        0 <= i < s.len() && (#[trigger] s[i]).occupied()
            && !s[i].active() implies s[i].head_ref_count == fit::one_if(
        starts.contains(i as u32),
    ) + fit::kids(s, i as u32) by {
        let idx = i as u32;
        assert forall|j: int|
            0 <= j < s.len() && fit::child_of(
                #[trigger] s[j],
                idx,
            ) implies s[j].head_ref_count > 0 by {
            assert(s[j].parent_ref == idx);
            lemma_reached(s, prev, active_head, starts, j as u32);
        }
        lemma_reached_all(s, idx);
    }
}

} // verus!
