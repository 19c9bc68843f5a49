//! How the block-tree branches, whatever its active chain is.
//!
//! Every childless block off the active chain is a tip, every branch count is
//! the number of branches that leave the block, and every tip names an ancestor
//! of its own as the end of its branch. Admission and eviction keep this for
//! any marking of the blocks, so that it holds of a ready node as well.

use vstd::prelude::*;

use crate::blocks as tree;
use crate::blocks::{BlockEntry, NONE_REF};
use crate::chain_heads as tips;
use crate::chain_heads::{Anchor, ChainHeadEntry, Tips};
use crate::coherence as fit;
use crate::coherent_admission as admission_fit;
use crate::hash::BlockHash;
use crate::tip_laws;

verus! {

/// Every link leads to a block of the tree, at the sequence below.
pub open spec fn rooted(s: Seq<BlockEntry>) -> bool {
    &&& s.len() <= NONE_REF
    &&& forall|i: int|
        0 <= i < s.len() && s[i].occupied() && #[trigger] s[i].parent_ref != NONE_REF
            ==> tree::present(s, s[i].parent_ref) && s[s[i].parent_ref as int].sequence + 1
            == s[i].sequence
}

/// The branch count of every block is the number of its children, and one more
/// where it is a tip or in `late`.
pub open spec fn counted(t: Tips, late: Set<u32>) -> bool {
    forall|i: int|
        0 <= i < t.blocks.len() && (#[trigger] t.blocks[i]).occupied()
            ==> t.blocks[i].head_ref_count == fit::branches(t, late, i as u32)
}

/// Every tip names an ancestor of its own, or itself, as the end of its branch.
pub open spec fn ends_below(t: Tips) -> bool {
    forall|slot: int|
        0 <= slot < t.heads.len() && (#[trigger] t.heads[slot]).in_use() ==> tree::descends(
            t.blocks,
            t.heads[slot].head_idx,
            t.heads[slot].tail_or_connection_idx,
            t.blocks.len(),
        )
}

/// The tree branches as its tips and its branch counts say, but for the tips in
/// `late`.
pub open spec fn sprouted(t: Tips, late: Set<u32>) -> bool {
    &&& rooted(t.blocks)
    &&& fit::tips_are_leaves(t, late)
    &&& counted(t, late)
    &&& ends_below(t)
}

/// The tree branches as its tips and its branch counts say.
pub open spec fn branching(t: Tips) -> bool {
    sprouted(t, Set::empty())
}

/// The table has room for two tips at least, and a branch count for each.
pub open spec fn table_fits(heads: Seq<ChainHeadEntry>) -> bool {
    2 <= heads.len() <= 255
}

/// Every branch count can hold one branch more.
pub open spec fn counts_fit(t: Tips) -> bool {
    forall|i: int|
        0 <= i < t.blocks.len() && (#[trigger] t.blocks[i]).occupied()
            ==> t.blocks[i].head_ref_count < 255
}

// -- Walks -------------------------------------------------------------------

/// The end of a branch lies on the branch.
pub(crate) proof fn lemma_anchor_below(s: Seq<BlockEntry>, cur: u32, last: u32, steps: nat)
    requires
        rooted(s),
        tree::present(s, cur),
        steps >= fit::below(s, s[cur as int].sequence as int),
    ensures
        match tips::anchor_of(s, cur, last, steps) {
            Anchor::Connection(end) => tree::descends(s, cur, end, steps),
            Anchor::Tail(end) => tree::descends(s, cur, end, steps),
        },
    decreases steps,
{
    fit::lemma_below_step(s, cur);
    let entry = s[cur as int];
    if !entry.active() && entry.parent_ref != NONE_REF {
        lemma_anchor_below(s, entry.parent_ref, cur, (steps - 1) as nat);
        let end = match tips::anchor_of(s, entry.parent_ref, cur, (steps - 1) as nat) {
            Anchor::Connection(end) => end,
            Anchor::Tail(end) => end,
        };
        lemma_descends_lower(s, entry.parent_ref, end, (steps - 1) as nat);
    }
}

pub(crate) proof fn lemma_descends_lower(s: Seq<BlockEntry>, idx: u32, target: u32, steps: nat)
    requires
        rooted(s),
        tree::descends(s, idx, target, steps),
    ensures
        s[target as int].sequence <= s[idx as int].sequence,
        tree::present(s, target),
    decreases steps,
{
    if idx != target {
        assert(s[idx as int].parent_ref != NONE_REF);
        lemma_descends_lower(s, s[idx as int].parent_ref, target, (steps - 1) as nat);
    }
}

/// A tip that was classified anew names an ancestor of its own.
pub(crate) proof fn lemma_end_below(
    heads: Seq<ChainHeadEntry>,
    s: Seq<BlockEntry>,
    slot: int,
    known_idx: u32,
    known_hash: BlockHash,
)
    requires
        rooted(s),
        tree::present(s, heads[slot].head_idx),
    ensures
        ({
            let after = tips::refreshed(heads, s, slot, known_idx, known_hash);
            &&& after.head_idx == heads[slot].head_idx
            &&& after.in_use() == heads[slot].in_use()
            &&& tree::descends(s, after.head_idx, after.tail_or_connection_idx, s.len())
        }),
{
    let head = heads[slot].head_idx;
    fit::lemma_below_bound(s, s[head as int].sequence as int);
    lemma_anchor_below(s, head, head, s.len());
}

/// A tree that keeps the parents of what it keeps keeps the ancestors.
pub(crate) proof fn lemma_descends_kept(
    part: Seq<BlockEntry>,
    whole: Seq<BlockEntry>,
    idx: u32,
    target: u32,
    steps: nat,
)
    requires
        fit::part_of(part, whole),
        rooted(part),
        tree::present(part, idx),
        tree::descends(whole, idx, target, steps),
    ensures
        tree::descends(part, idx, target, steps),
    decreases steps,
{
    assert(part[idx as int].occupied());
    if idx != target {
        assert(part[idx as int].parent_ref != NONE_REF);
        lemma_descends_kept(
            part,
            whole,
            part[idx as int].parent_ref,
            target,
            (steps - 1) as nat,
        );
    }
}

pub(crate) proof fn lemma_descends_whole(
    part: Seq<BlockEntry>,
    whole: Seq<BlockEntry>,
    idx: u32,
    target: u32,
    steps: nat,
)
    requires
        fit::part_of(part, whole),
        tree::descends(part, idx, target, steps),
    ensures
        tree::descends(whole, idx, target, steps),
    decreases steps,
{
    assert(part[idx as int].occupied());
    if idx != target {
        lemma_descends_whole(
            part,
            whole,
            part[idx as int].parent_ref,
            target,
            (steps - 1) as nat,
        );
    }
}

// -- Eviction ----------------------------------------------------------------

/// The state in which one branch has been taken off, but is still counted at
/// `cur`.
spec fn shedding(t: Tips, late: Set<u32>, cur: u32) -> bool {
    &&& tree::present(t.blocks, cur)
    &&& !fit::is_tip(t.heads, cur)
    &&& !late.contains(cur)
    &&& forall|slot: int|
        0 <= slot < t.heads.len() && (#[trigger] t.heads[slot]).in_use() ==> {
            &&& tree::present(t.blocks, t.heads[slot].head_idx)
            &&& tree::childless(t.blocks, t.heads[slot].head_idx)
            &&& !late.contains(t.heads[slot].head_idx)
        }
    &&& forall|a: int, b: int|
        0 <= a < b < t.heads.len() && (#[trigger] t.heads[a]).in_use() && (
        #[trigger] t.heads[b]).in_use() ==> t.heads[a].head_idx != t.heads[b].head_idx
    &&& forall|idx: u32|
        #[trigger] late.contains(idx) ==> tree::present(t.blocks, idx) && tree::childless(
            t.blocks,
            idx,
        )
    &&& forall|i: int|
        0 <= i < t.blocks.len() && i != cur && (#[trigger] t.blocks[i]).occupied() ==> {
            &&& !t.blocks[i].active() && tree::childless(t.blocks, i as u32) ==> fit::is_tip(
                t.heads,
                i as u32,
            ) || late.contains(i as u32)
            &&& t.blocks[i].head_ref_count == fit::branches(t, late, i as u32)
        }
    &&& t.blocks[cur as int].head_ref_count == fit::branches(t, late, cur) + 1
}

/// Taking a block without children away.
pub(crate) proof fn lemma_leaf_gone(s: Seq<BlockEntry>, cur: u32)
    requires
        rooted(s),
        tree::present(s, cur),
        tree::childless(s, cur),
    ensures
        ({
            let gone = s.update(cur as int, BlockEntry::vacant());
            &&& rooted(gone)
            &&& fit::part_of(gone, s)
            &&& forall|idx: u32| #[trigger]
                fit::kids(gone, idx) == fit::kids(s, idx) - fit::one_if(
                    s[cur as int].parent_ref == idx,
                )
            &&& forall|idx: u32| #[trigger]
                tree::childless(gone, idx) == (fit::kids(gone, idx) == 0)
        }),
{
    let gone = s.update(cur as int, BlockEntry::vacant());
    assert forall|idx: u32| #[trigger]
        fit::kids(gone, idx) == fit::kids(s, idx) - fit::one_if(s[cur as int].parent_ref == idx) by {
        fit::lemma_kids_update(s, cur as int, BlockEntry::vacant(), idx);
    }
    assert forall|idx: u32| #[trigger] tree::childless(gone, idx) == (fit::kids(gone, idx) == 0) by {
        fit::lemma_kids_childless(gone, idx);
    }
    assert forall|i: int|
        0 <= i < gone.len() && gone[i].occupied() && #[trigger] gone[i].parent_ref
            != NONE_REF implies tree::present(gone, gone[i].parent_ref)
        && gone[gone[i].parent_ref as int].sequence + 1 == gone[i].sequence by {
        assert(s[i].parent_ref != cur);
    }
}

#[verifier::spinoff_prover]
#[verifier::rlimit(60)]
proof fn lemma_pruned(t: Tips, late: Set<u32>, cur: u32, steps: nat)
    requires
        rooted(t.blocks),
        shedding(t, late, cur),
        steps >= fit::below(t.blocks, t.blocks[cur as int].sequence as int),
    ensures
        ({
            let after = Tips { heads: t.heads, blocks: tips::pruned(t.blocks, cur, steps) };
            &&& rooted(after.blocks)
            &&& fit::tips_are_leaves(after, late)
            &&& counted(after, late)
            &&& fit::part_of(after.blocks, t.blocks)
        }),
    decreases steps,
{
    let s = t.blocks;
    let entry = s[cur as int];
    fit::lemma_below_step(s, cur);
    let count = tree::adjusted_count(entry.head_ref_count, -1i8);
    let fewer = s.update(cur as int, entry.with_count(count));
    assert(tree::recounted(s, cur, -1i8) == fewer);
    let lower = Tips { heads: t.heads, blocks: fewer };
    assert forall|idx: u32| #[trigger] fit::kids(fewer, idx) == fit::kids(s, idx)
        && tree::childless(fewer, idx) == tree::childless(s, idx) by {
        fit::lemma_kids_recount(s, cur, count, idx);
    }
    assert(fit::part_of(fewer, s));
    fit::lemma_kids_childless(s, cur);
    assert(rooted(fewer)) by {
        assert forall|i: int|
            0 <= i < fewer.len() && fewer[i].occupied() && #[trigger] fewer[i].parent_ref
                != NONE_REF implies tree::present(fewer, fewer[i].parent_ref)
            && fewer[fewer[i].parent_ref as int].sequence + 1 == fewer[i].sequence by {
            assert(s[i].parent_ref != NONE_REF);
        }
    }
    assert(counted(lower, late)) by {
        assert forall|i: int|
            0 <= i < fewer.len() && (
            #[trigger] fewer[i]).occupied() implies fewer[i].head_ref_count == fit::branches(
            lower,
            late,
            i as u32,
        ) by {
            assert(s[i].occupied());
            assert(fit::kids(fewer, i as u32) == fit::kids(s, i as u32));
        }
    }
    if entry.active() || count != 0 {
        assert(fit::tips_are_leaves(lower, late)) by {
            assert forall|i: int|
                0 <= i < fewer.len() && (#[trigger] fewer[i]).occupied() && !fewer[i].active()
                    && tree::childless(fewer, i as u32) implies fit::is_tip(t.heads, i as u32)
                || late.contains(i as u32) by {
                assert(s[i].occupied());
                assert(fit::kids(fewer, i as u32) == fit::kids(s, i as u32));
                assert(tree::childless(s, i as u32));
            }
            assert forall|slot: int|
                0 <= slot < t.heads.len() && (#[trigger] t.heads[slot]).in_use() implies {
                &&& tree::present(fewer, t.heads[slot].head_idx)
                &&& tree::childless(fewer, t.heads[slot].head_idx)
                &&& !late.contains(t.heads[slot].head_idx)
            } by {
                let head = t.heads[slot].head_idx;
                assert(fit::kids(fewer, head) == fit::kids(s, head));
                assert(tree::childless(s, head));
            }
            assert forall|idx: u32| #[trigger] late.contains(idx) implies tree::present(
                fewer,
                idx,
            ) && tree::childless(fewer, idx) by {
                assert(fit::kids(fewer, idx) == fit::kids(s, idx));
                assert(tree::childless(s, idx));
            }
        }
    } else {
        assert(fit::kids(s, cur) == 0);
        assert(tree::childless(fewer, cur) == tree::childless(s, cur));
        let gone = fewer.update(cur as int, BlockEntry::vacant());
        lemma_leaf_gone(fewer, cur);
        assert(tree::released(fewer, cur) == gone);
        let rest = Tips { heads: t.heads, blocks: gone };
        let parent = entry.parent_ref;
        fit::lemma_part_transitive(gone, fewer, s);
        assert(parent != NONE_REF ==> !tree::childless(s, parent)) by {
            assert(s[cur as int].occupied());
        }
        assert forall|slot: int|
            0 <= slot < t.heads.len() && (#[trigger] t.heads[slot]).in_use() implies {
            &&& tree::present(gone, t.heads[slot].head_idx)
            &&& tree::childless(gone, t.heads[slot].head_idx)
            &&& !late.contains(t.heads[slot].head_idx)
        } by {
            let head = t.heads[slot].head_idx;
            assert(head != cur);
            assert(tree::childless(s, head));
            fit::lemma_kids_childless(s, head);
            assert(fit::kids(fewer, head) == fit::kids(s, head));
            assert(s[cur as int].parent_ref != head);
            assert(fit::kids(gone, head) == fit::kids(fewer, head) - fit::one_if(
                fewer[cur as int].parent_ref == head,
            ));
        }
        assert forall|idx: u32| #[trigger] late.contains(idx) implies tree::present(gone, idx)
            && tree::childless(gone, idx) by {
            assert(tree::childless(s, idx));
            fit::lemma_kids_childless(s, idx);
            assert(fit::kids(fewer, idx) == fit::kids(s, idx));
            assert(s[cur as int].parent_ref != idx);
            assert(fit::kids(gone, idx) == fit::kids(fewer, idx) - fit::one_if(
                fewer[cur as int].parent_ref == idx,
            ));
        }
        assert forall|i: int|
            0 <= i < gone.len() && i != parent && (#[trigger] gone[i]).occupied() implies {
            &&& !gone[i].active() && tree::childless(gone, i as u32) ==> fit::is_tip(
                t.heads,
                i as u32,
            ) || late.contains(i as u32)
            &&& gone[i].head_ref_count == fit::branches(rest, late, i as u32)
        } by {
            let idx = i as u32;
            assert(s[i].occupied());
            assert(fewer[i].occupied());
            fit::lemma_kids_childless(s, idx);
            assert(fit::kids(fewer, idx) == fit::kids(s, idx));
            assert(fit::kids(gone, idx) == fit::kids(fewer, idx) - fit::one_if(
                fewer[cur as int].parent_ref == idx,
            ));
        }
        if parent == NONE_REF {
            assert(fit::tips_are_leaves(rest, late));
            assert(counted(rest, late));
        } else {
            assert(s[cur as int].parent_ref == parent);
            assert(!fit::is_tip(t.heads, parent));
            assert(fit::kids(fewer, parent) == fit::kids(s, parent));
            assert(fit::kids(gone, parent) == fit::kids(fewer, parent) - fit::one_if(
                fewer[cur as int].parent_ref == parent,
            ));
            assert(tree::present(gone, parent));
            assert(gone[parent as int].head_ref_count == fit::branches(t, late, parent));
            assert(shedding(rest, late, parent));
            fit::lemma_below_part(gone, s, s[parent as int].sequence as int);
            lemma_pruned(rest, late, parent, (steps - 1) as nat);
            fit::lemma_part_transitive(
                tips::pruned(gone, parent, (steps - 1) as nat),
                gone,
                s,
            );
        }
    }
}

/// A table of two tips at least can take in another one: it has a free slot, or a
/// tip that may be evicted.
pub(crate) proof fn lemma_room(t: Tips, active_head: u32, late: Set<u32>)
    requires
        fit::tips_are_leaves(t, late),
        t.heads.len() >= 2,
    ensures
        tips::tip_count(t.heads) < t.heads.len() || tips::victim(
            t.heads,
            t.blocks,
            active_head,
        ) is Some,
{
    fit::lemma_tip_count(t.heads);
    if tips::tip_count(t.heads) == t.heads.len() {
        tip_laws::eviction_takes_the_lowest_tip(t.heads, t.blocks, active_head);
        assert(t.heads[0].in_use() && t.heads[1].in_use());
        assert(tips::evictable(t.heads, t.blocks, active_head, 0) || tips::evictable(
            t.heads,
            t.blocks,
            active_head,
            1,
        ));
    }
}

/// Dropping the tip at `v` and what it alone kept.
pub(crate) proof fn lemma_victim_dropped(t: Tips, late: Set<u32>, v: int)
    requires
        sprouted(t, late),
        0 <= v < t.heads.len(),
        t.heads[v].in_use(),
    ensures
        ({
            let heads = t.heads.update(v, ChainHeadEntry::vacant());
            let after = Tips {
                heads,
                blocks: tips::pruned(t.blocks, t.heads[v].head_idx, t.blocks.len()),
            };
            &&& sprouted(after, late)
            &&& fit::part_of(after.blocks, t.blocks)
        }),
{
    let cur = t.heads[v].head_idx;
    let heads = t.heads.update(v, ChainHeadEntry::vacant());
    let dropped = Tips { heads, blocks: t.blocks };
    fit::lemma_tip_vacated(t.heads, v);
    assert(fit::is_tip(t.heads, cur)) by {
        assert(t.heads[v].in_use() && t.heads[v].head_idx == cur);
    }
    assert(shedding(dropped, late, cur)) by {
        assert forall|slot: int|
            0 <= slot < heads.len() && (#[trigger] heads[slot]).in_use() implies {
            &&& tree::present(t.blocks, heads[slot].head_idx)
            &&& tree::childless(t.blocks, heads[slot].head_idx)
            &&& !late.contains(heads[slot].head_idx)
        } by {
            assert(t.heads[slot].in_use());
        }
        assert forall|a: int, b: int|
            0 <= a < b < heads.len() && (#[trigger] heads[a]).in_use() && (
            #[trigger] heads[b]).in_use() implies heads[a].head_idx != heads[b].head_idx by {
            assert(t.heads[a].in_use() && t.heads[b].in_use());
        }
        assert forall|i: int|
            0 <= i < t.blocks.len() && i != cur && (
            #[trigger] t.blocks[i]).occupied() implies t.blocks[i].head_ref_count == fit::branches(
            dropped,
            late,
            i as u32,
        ) by {
            assert(t.blocks[i].head_ref_count == fit::branches(t, late, i as u32));
        }
        assert(t.blocks[cur as int].occupied());
        assert(t.blocks[cur as int].head_ref_count == fit::branches(t, late, cur));
    }
    fit::lemma_below_bound(t.blocks, t.blocks[cur as int].sequence as int);
    lemma_pruned(dropped, late, cur, t.blocks.len());
    let after = Tips { heads, blocks: tips::pruned(t.blocks, cur, t.blocks.len()) };
    assert forall|slot: int|
        0 <= slot < heads.len() && (#[trigger] heads[slot]).in_use() implies tree::descends(
        after.blocks,
        heads[slot].head_idx,
        heads[slot].tail_or_connection_idx,
        after.blocks.len(),
    ) by {
        assert(t.heads[slot].in_use());
        assert(after.heads[slot].in_use());
        lemma_descends_kept(
            after.blocks,
            t.blocks,
            heads[slot].head_idx,
            heads[slot].tail_or_connection_idx,
            t.blocks.len(),
        );
    }
}

// -- Admission ---------------------------------------------------------------

/// A tip yet to come that is given a slot is a tip.
pub(crate) proof fn lemma_tip_inserted(
    t: Tips,
    late: Set<u32>,
    x: u32,
    arrival: u64,
    prev_hash: BlockHash,
    active_head: u32,
)
    requires
        sprouted(t, late),
        late.contains(x),
        tips::tip_count(t.heads) < t.heads.len() || tips::victim(
            t.heads,
            t.blocks,
            active_head,
        ) is Some,
    ensures
        ({
            let after = tips::tip_inserted(t, x, arrival, prev_hash, active_head);
            &&& sprouted(after, late.remove(x))
            &&& after.heads.len() == t.heads.len()
            &&& fit::part_of(after.blocks, t.blocks)
            &&& fit::is_tip(after.heads, x)
        }),
{
    let (known_idx, known_hash) = tips::known_end(t, x, prev_hash);
    let full = tips::tip_count(t.heads) >= t.heads.len();
    let room = if full {
        tips::evicted(t, active_head)
    } else {
        t
    };
    fit::lemma_tip_count(t.heads);
    if full {
        tip_laws::eviction_takes_the_lowest_tip(t.heads, t.blocks, active_head);
        let v = tips::victim(t.heads, t.blocks, active_head)->0;
        lemma_victim_dropped(t, late, v);
        assert(!room.heads[v].in_use());
    } else {
        assert(fit::part_of(t.blocks, t.blocks));
    }
    fit::lemma_vacant_slot(room.heads, 0);
    let slot = tips::vacant_slot(room.heads, 0)->0;
    let placed = room.heads.update(slot, ChainHeadEntry::fresh(x, arrival));
    let entry = tips::refreshed(placed, room.blocks, slot, known_idx, known_hash);
    let heads = placed.update(slot, entry);
    assert(heads =~= room.heads.update(slot, entry));
    assert(tree::present(room.blocks, x));
    lemma_end_below(placed, room.blocks, slot, known_idx, known_hash);
    admission_fit::lemma_tip_placed(room.heads, slot, entry);
    let after = tips::tip_inserted(t, x, arrival, prev_hash, active_head);
    assert(after.heads == heads && after.blocks == room.blocks);
    let rest = late.remove(x);
    assert(!fit::is_tip(room.heads, x)) by {
        if fit::is_tip(room.heads, x) {
            let i = choose|i: int|
                0 <= i < room.heads.len() && (#[trigger] room.heads[i]).in_use()
                    && room.heads[i].head_idx == x;
            assert(late.contains(room.heads[i].head_idx));
        }
    }
    assert(fit::tips_are_leaves(after, rest)) by {
        assert forall|i: int| 0 <= i < heads.len() && (#[trigger] heads[i]).in_use() implies {
            &&& tree::present(room.blocks, heads[i].head_idx)
            &&& tree::childless(room.blocks, heads[i].head_idx)
            &&& !rest.contains(heads[i].head_idx)
        } by {
            if i != slot {
                assert(room.heads[i].in_use());
            } else {
                assert(late.contains(x));
            }
        }
        assert forall|a: int, b: int|
            0 <= a < b < heads.len() && (#[trigger] heads[a]).in_use() && (
            #[trigger] heads[b]).in_use() implies heads[a].head_idx != heads[b].head_idx by {
            if a != slot {
                assert(room.heads[a].in_use());
            }
            if b != slot {
                assert(room.heads[b].in_use());
            }
        }
    }
    assert(counted(after, rest)) by {
        assert forall|i: int|
            0 <= i < room.blocks.len() && (
            #[trigger] room.blocks[i]).occupied() implies room.blocks[i].head_ref_count
            == fit::branches(after, rest, i as u32) by {
            assert(room.blocks[i].head_ref_count == fit::branches(room, late, i as u32));
        }
    }
    assert(ends_below(after)) by {
        assert forall|i: int|
            0 <= i < heads.len() && (#[trigger] heads[i]).in_use() implies tree::descends(
            room.blocks,
            heads[i].head_idx,
            heads[i].tail_or_connection_idx,
            room.blocks.len(),
        ) by {
            if i != slot {
                assert(room.heads[i].in_use());
            }
        }
    }
    assert(fit::is_tip(heads, x));
}

/// Whether `entry` enters the free slot `x` of a tree that branches as it says,
/// below `parent`.
pub open spec fn entering(t: Tips, x: u32, entry: BlockEntry, parent: Option<u32>) -> bool {
    &&& branching(t)
    &&& x < t.blocks.len()
    &&& !t.blocks[x as int].occupied()
    &&& entry.occupied()
    &&& entry.head_ref_count == 0
    &&& match parent {
        Some(idx) => {
            &&& entry.parent_ref == idx
            &&& tree::present(t.blocks, idx)
            &&& t.blocks[idx as int].sequence + 1 == entry.sequence
        },
        None => entry.parent_ref == NONE_REF,
    }
}

/// The tree with the entering block, counted once.
proof fn lemma_entered(t: Tips, x: u32, entry: BlockEntry, parent: Option<u32>, s: Seq<BlockEntry>)
    requires
        entering(t, x, entry, parent),
        s == t.blocks.update(x as int, entry.with_count(1)),
    ensures
        rooted(s),
        !fit::is_tip(t.heads, x),
        tree::childless(s, x),
        tree::childless(t.blocks, x),
        forall|idx: u32| #[trigger]
            fit::kids(s, idx) == fit::kids(t.blocks, idx) + fit::one_if(entry.parent_ref == idx),
        forall|idx: u32| #[trigger]
            tree::childless(s, idx) == (fit::kids(s, idx) == 0),
        forall|idx: u32| #[trigger]
            tree::childless(t.blocks, idx) == (fit::kids(t.blocks, idx) == 0),
        ends_below(Tips { heads: t.heads, blocks: s }),
{
    let old_s = t.blocks;
    let one = entry.with_count(1);
    assert forall|idx: u32| #[trigger]
        fit::kids(s, idx) == fit::kids(old_s, idx) + fit::one_if(entry.parent_ref == idx) by {
        fit::lemma_kids_update(old_s, x as int, one, idx);
    }
    assert forall|idx: u32| #[trigger] tree::childless(s, idx) == (fit::kids(s, idx) == 0) by {
        fit::lemma_kids_childless(s, idx);
    }
    assert forall|idx: u32| #[trigger] tree::childless(old_s, idx) == (fit::kids(old_s, idx)
        == 0) by {
        fit::lemma_kids_childless(old_s, idx);
    }
    assert(tree::childless(old_s, x)) by {
        assert forall|i: int| 0 <= i < old_s.len() && old_s[i].occupied() implies #[trigger]
            old_s[i].parent_ref != x by {
            if old_s[i].parent_ref != NONE_REF {
                assert(tree::present(old_s, old_s[i].parent_ref));
            }
        }
    }
    assert(entry.parent_ref != x);
    assert(fit::kids(s, x) == fit::kids(old_s, x) + fit::one_if(entry.parent_ref == x));
    assert forall|i: int|
        0 <= i < s.len() && s[i].occupied() && #[trigger] s[i].parent_ref
            != NONE_REF implies tree::present(s, s[i].parent_ref)
        && s[s[i].parent_ref as int].sequence + 1 == s[i].sequence by {
        if i != x {
            assert(old_s[i].parent_ref != NONE_REF);
        }
    }
    assert(fit::part_of(old_s, s));
    let after = Tips { heads: t.heads, blocks: s };
    assert forall|slot: int|
        0 <= slot < after.heads.len() && (#[trigger] after.heads[slot]).in_use() implies tree::descends(
        s,
        after.heads[slot].head_idx,
        after.heads[slot].tail_or_connection_idx,
        s.len(),
    ) by {
        assert(t.heads[slot].in_use());
        lemma_descends_whole(
            old_s,
            s,
            t.heads[slot].head_idx,
            t.heads[slot].tail_or_connection_idx,
            old_s.len(),
        );
    }
    if fit::is_tip(t.heads, x) {
        let slot = choose|slot: int|
            0 <= slot < t.heads.len() && (#[trigger] t.heads[slot]).in_use()
                && t.heads[slot].head_idx == x;
        assert(tree::present(t.blocks, t.heads[slot].head_idx));
    }
}

/// The entering block becomes a tip: it takes over from its parent, or gets a
/// slot of its own.
#[verifier::spinoff_prover]
#[verifier::rlimit(40)]
proof fn lemma_tip_admitted(
    t: Tips,
    x: u32,
    entry: BlockEntry,
    parent: Option<u32>,
    prev_hash: BlockHash,
    arrival: u64,
    active_head: u32,
)
    requires
        entering(t, x, entry, parent),
        table_fits(t.heads),
        counts_fit(t),
    ensures
        ({
            let base = Tips { heads: t.heads, blocks: t.blocks.update(x as int, entry) };
            let after = tips::tip_admitted(base, x, parent, prev_hash, arrival, active_head);
            &&& branching(after)
            &&& after.heads.len() == t.heads.len()
            &&& fit::is_tip(after.heads, x)
            &&& fit::part_of(after.blocks, base.blocks)
        }),
{
    let base = Tips { heads: t.heads, blocks: t.blocks.update(x as int, entry) };
    let one = entry.with_count(1);
    let s = t.blocks.update(x as int, one);
    let none = Set::<u32>::empty();
    let late = none.insert(x);
    assert(tree::recounted(base.blocks, x, 1i8) =~= s);
    lemma_entered(t, x, entry, parent, s);
    assert(late.remove(x) =~= none);
    match parent {
        None => {
            let u = Tips { heads: t.heads, blocks: s };
            lemma_waiting_leaf(t, x, entry, parent, s, u);
            lemma_room(u, active_head, late);
            lemma_tip_inserted(u, late, x, arrival, prev_hash, active_head);
            fit::lemma_part_transitive(
                tips::tip_inserted(u, x, arrival, prev_hash, active_head).blocks,
                s,
                base.blocks,
            );
        },
        Some(p) => {
            fit::lemma_head_slot(t.heads, p, 0);
            if tips::head_slot(t.heads, p, 0) is None {
                let more = t.blocks[p as int].with_count(
                    (t.blocks[p as int].head_ref_count + 1) as u8,
                );
                let forked = s.update(p as int, more);
                assert(t.blocks[p as int].head_ref_count < 255);
                assert(tree::recounted(s, p, 1i8) =~= forked);
                let u = Tips { heads: t.heads, blocks: forked };
                lemma_waiting_leaf(t, x, entry, parent, s, u);
                lemma_room(u, active_head, late);
                lemma_tip_inserted(u, late, x, arrival, prev_hash, active_head);
                assert(fit::part_of(forked, base.blocks));
                fit::lemma_part_transitive(
                    tips::tip_inserted(u, x, arrival, prev_hash, active_head).blocks,
                    forked,
                    base.blocks,
                );
            } else {
                let slot = tips::head_slot(t.heads, p, 0)->0;
                let moved = t.heads.update(
                    slot,
                    ChainHeadEntry { head_idx: x, arrival_timestamp: arrival, ..t.heads[slot] },
                );
                let last = tips::refreshed(moved, s, slot, x, prev_hash);
                let heads = moved.update(slot, last);
                assert(heads =~= t.heads.update(slot, last));
                let u = Tips { heads, blocks: s };
                lemma_end_below(moved, s, slot, x, prev_hash);
                admission_fit::lemma_tip_moved(t.heads, slot, last);
                lemma_taken_over(t, x, entry, p, s, slot, last);
                assert(u == tips::tip_admitted(
                    base,
                    x,
                    parent,
                    prev_hash,
                    arrival,
                    active_head,
                ));
                assert(heads[slot].in_use() && heads[slot].head_idx == x);
            }
        },
    }
}

/// The entering block is a tip yet to come, once the branch to it is counted.
proof fn lemma_waiting_leaf(
    t: Tips,
    x: u32,
    entry: BlockEntry,
    parent: Option<u32>,
    s: Seq<BlockEntry>,
    u: Tips,
)
    requires
        entering(t, x, entry, parent),
        s == t.blocks.update(x as int, entry.with_count(1)),
        u.heads == t.heads,
        match parent {
            Some(p) => !fit::is_tip(t.heads, p) && t.blocks[p as int].head_ref_count < 255
                && u.blocks == s.update(
                p as int,
                t.blocks[p as int].with_count((t.blocks[p as int].head_ref_count + 1) as u8),
            ),
            None => u.blocks == s,
        },
    ensures
        sprouted(u, Set::<u32>::empty().insert(x)),
        fit::part_of(u.blocks, s),
{
    let b = u.blocks;
    let none = Set::<u32>::empty();
    let late = none.insert(x);
    lemma_entered(t, x, entry, parent, s);
    assert(fit::part_of(b, s));
    assert(fit::part_of(s, b));
    assert forall|idx: u32| #[trigger] fit::kids(b, idx) == fit::kids(s, idx) && tree::childless(
        b,
        idx,
    ) == tree::childless(s, idx) by {
        if parent is Some {
            fit::lemma_kids_recount(
                s,
                parent->0,
                (t.blocks[parent->0 as int].head_ref_count + 1) as u8,
                idx,
            );
        }
    }
    assert(rooted(b)) by {
        assert forall|i: int|
            0 <= i < b.len() && b[i].occupied() && #[trigger] b[i].parent_ref
                != NONE_REF implies tree::present(b, b[i].parent_ref)
            && b[b[i].parent_ref as int].sequence + 1 == b[i].sequence by {
            assert(s[i].parent_ref != NONE_REF);
        }
    }
    assert(fit::tips_are_leaves(u, late)) by {
        assert forall|i: int| 0 <= i < u.heads.len() && (#[trigger] u.heads[i]).in_use() implies {
            &&& tree::present(b, u.heads[i].head_idx)
            &&& tree::childless(b, u.heads[i].head_idx)
            &&& !late.contains(u.heads[i].head_idx)
        } by {
            let head = t.heads[i].head_idx;
            assert(fit::is_tip(t.heads, head));
            assert(tree::childless(t.blocks, head));
            assert(fit::kids(s, head) == fit::kids(t.blocks, head) + fit::one_if(
                entry.parent_ref == head,
            ));
            assert(fit::kids(b, head) == fit::kids(s, head));
            assert(tree::childless(s, head));
        }
        assert forall|i: int|
            0 <= i < b.len() && (#[trigger] b[i]).occupied() && !b[i].active() && tree::childless(
                b,
                i as u32,
            ) implies fit::is_tip(u.heads, i as u32) || late.contains(i as u32) by {
            let idx = i as u32;
            assert(fit::kids(b, idx) == fit::kids(s, idx));
            assert(tree::childless(s, idx));
            if idx != x {
                assert(t.blocks[i].occupied());
                assert(fit::kids(s, idx) == fit::kids(t.blocks, idx) + fit::one_if(
                    entry.parent_ref == idx,
                ));
                fit::lemma_kids_childless(t.blocks, idx);
                assert(tree::childless(t.blocks, idx));
            }
        }
        assert forall|idx: u32| #[trigger] late.contains(idx) implies tree::present(b, idx)
            && tree::childless(b, idx) by {
            assert(fit::kids(b, x) == fit::kids(s, x));
        }
    }
    assert(counted(u, late)) by {
        assert forall|i: int|
            0 <= i < b.len() && (#[trigger] b[i]).occupied() implies b[i].head_ref_count
            == fit::branches(u, late, i as u32) by {
            let idx = i as u32;
            assert(fit::kids(b, idx) == fit::kids(s, idx));
            assert(fit::kids(s, idx) == fit::kids(t.blocks, idx) + fit::one_if(
                entry.parent_ref == idx,
            ));
            if idx != x {
                assert(t.blocks[i].occupied());
                assert(t.blocks[i].head_ref_count == fit::branches(t, none, idx));
            } else {
                assert(tree::childless(t.blocks, x) == (fit::kids(t.blocks, x) == 0));
            }
        }
    }
    let v = Tips { heads: t.heads, blocks: s };
    assert forall|slot: int|
        0 <= slot < u.heads.len() && (#[trigger] u.heads[slot]).in_use() implies tree::descends(
        b,
        u.heads[slot].head_idx,
        u.heads[slot].tail_or_connection_idx,
        b.len(),
    ) by {
        assert(v.heads[slot].in_use());
        lemma_descends_whole(
            s,
            b,
            u.heads[slot].head_idx,
            u.heads[slot].tail_or_connection_idx,
            s.len(),
        );
    }
}

/// The entering block takes over the slot of the tip it extends.
proof fn lemma_taken_over(
    t: Tips,
    x: u32,
    entry: BlockEntry,
    p: u32,
    s: Seq<BlockEntry>,
    slot: int,
    last: ChainHeadEntry,
)
    requires
        entering(t, x, entry, Some(p)),
        s == t.blocks.update(x as int, entry.with_count(1)),
        0 <= slot < t.heads.len(),
        t.heads[slot].in_use(),
        t.heads[slot].head_idx == p,
        last.head_idx == x,
        last.in_use(),
        tree::descends(s, x, last.tail_or_connection_idx, s.len()),
        forall|idx: u32| #[trigger]
            fit::is_tip(t.heads.update(slot, last), idx) == (idx == x || (fit::is_tip(
                t.heads,
                idx,
            ) && idx != p)),
    ensures
        branching(Tips { heads: t.heads.update(slot, last), blocks: s }),
{
    let none = Set::<u32>::empty();
    let heads = t.heads.update(slot, last);
    let u = Tips { heads, blocks: s };
    let v = Tips { heads: t.heads, blocks: s };
    lemma_entered(t, x, entry, Some(p), s);
    assert(fit::is_tip(t.heads, p));
    assert(fit::tips_are_leaves(u, none)) by {
        assert forall|i: int| 0 <= i < heads.len() && (#[trigger] heads[i]).in_use() implies {
            &&& tree::present(s, heads[i].head_idx)
            &&& tree::childless(s, heads[i].head_idx)
            &&& !none.contains(heads[i].head_idx)
        } by {
            if i != slot {
                let head = t.heads[i].head_idx;
                assert(t.heads[i].in_use());
                assert(t.heads[slot].in_use());
                assert(head != p);
                assert(tree::childless(t.blocks, head));
                assert(fit::kids(s, head) == fit::kids(t.blocks, head) + fit::one_if(
                    entry.parent_ref == head,
                ));
                assert(tree::childless(s, head));
            }
        }
        assert forall|a: int, b: int|
            0 <= a < b < heads.len() && (#[trigger] heads[a]).in_use() && (
            #[trigger] heads[b]).in_use() implies heads[a].head_idx != heads[b].head_idx by {
            if a != slot {
                assert(t.heads[a].in_use());
                assert(fit::is_tip(t.heads, t.heads[a].head_idx));
            }
            if b != slot {
                assert(t.heads[b].in_use());
                assert(fit::is_tip(t.heads, t.heads[b].head_idx));
            }
        }
        assert forall|i: int|
            0 <= i < s.len() && (#[trigger] s[i]).occupied() && !s[i].active() && tree::childless(
                s,
                i as u32,
            ) implies fit::is_tip(heads, i as u32) || none.contains(i as u32) by {
            let idx = i as u32;
            if idx != x {
                assert(t.blocks[i].occupied());
                assert(fit::kids(s, idx) == fit::kids(t.blocks, idx) + fit::one_if(
                    entry.parent_ref == idx,
                ));
                fit::lemma_kids_childless(t.blocks, idx);
                assert(tree::childless(t.blocks, idx));
            }
        }
    }
    assert(counted(u, none)) by {
        assert forall|i: int|
            0 <= i < s.len() && (#[trigger] s[i]).occupied() implies s[i].head_ref_count
            == fit::branches(u, none, i as u32) by {
            let idx = i as u32;
            assert(fit::kids(s, idx) == fit::kids(t.blocks, idx) + fit::one_if(
                entry.parent_ref == idx,
            ));
            if idx != x {
                assert(t.blocks[i].occupied());
                assert(t.blocks[i].head_ref_count == fit::branches(t, none, idx));
            } else {
                assert(tree::childless(t.blocks, x) == (fit::kids(t.blocks, x) == 0));
            }
        }
    }
    assert forall|i: int| 0 <= i < u.heads.len() && (
    #[trigger] u.heads[i]).in_use() implies tree::descends(
        s,
        u.heads[i].head_idx,
        u.heads[i].tail_or_connection_idx,
        s.len(),
    ) by {
        if i != slot {
            assert(v.heads[i].in_use());
        }
    }
}

/// Linking a branch to a parent leaves every walk that it had.
pub(crate) proof fn lemma_descends_linked(
    s: Seq<BlockEntry>,
    tail: u32,
    x: u32,
    count: u8,
    idx: u32,
    target: u32,
    steps: nat,
)
    requires
        tree::present(s, tail),
        tree::present(s, x),
        tail != x,
        s[tail as int].parent_ref == NONE_REF,
        tree::descends(s, idx, target, steps),
    ensures
        tree::descends(
            s.update(tail as int, s[tail as int].with_parent(x)).update(
                x as int,
                s[x as int].with_count(count),
            ),
            idx,
            target,
            steps,
        ),
    decreases steps,
{
    if idx != target {
        lemma_descends_linked(
            s,
            tail,
            x,
            count,
            s[idx as int].parent_ref,
            target,
            (steps - 1) as nat,
        );
    }
}

/// What holds while the branches that waited for `x` are attached to it, up to
/// `slot`.
spec fn attaching(u: Tips, x: u32, slot: int) -> bool {
    &&& branching(u)
    &&& tree::present(u.blocks, x)
    &&& fit::kids(u.blocks, x) <= slot
}

proof fn lemma_tail_linked(u: Tips, slot: int, x: u32)
    requires
        attaching(u, x, slot),
        0 <= slot < u.heads.len() <= 255,
    ensures
        attaching(tips::tail_linked(u, slot, x), x, slot + 1),
        tips::tail_linked(u, slot, x).heads.len() == u.heads.len(),
        tips::tail_linked(u, slot, x).blocks.len() == u.blocks.len(),
        tips::tail_linked(u, slot, x).blocks[x as int].hash == u.blocks[x as int].hash,
        tips::tail_linked(u, slot, x).blocks[x as int].sequence == u.blocks[x as int].sequence,
{
    if tips::link_pending(u, slot, x) {
        let s = u.blocks;
        let none = Set::<u32>::empty();
        let tail = u.heads[slot].tail_or_connection_idx;
        let after = tips::tail_linked(u, slot, x);
        let own = tips::head_slot(u.heads, x, 0);
        fit::lemma_head_slot(u.heads, x, 0);
        assert(s[x as int].occupied());
        assert(s[x as int].head_ref_count == fit::branches(u, none, x));
        let count = if own is Some {
            s[x as int].head_ref_count
        } else {
            (s[x as int].head_ref_count + 1) as u8
        };
        let linked = s.update(tail as int, s[tail as int].with_parent(x));
        let b = linked.update(x as int, s[x as int].with_count(count));
        assert(after.blocks =~= b);
        assert forall|idx: u32| #[trigger] fit::kids(b, idx) == fit::kids(s, idx) + fit::one_if(
            idx == x,
        ) - fit::one_if(idx == NONE_REF) by {
            fit::lemma_kids_update(s, tail as int, s[tail as int].with_parent(x), idx);
            fit::lemma_kids_recount(linked, x, count, idx);
        }
        assert forall|idx: u32| #[trigger] tree::childless(b, idx) == (fit::kids(b, idx) == 0) by {
            fit::lemma_kids_childless(b, idx);
        }
        let heads = after.heads;
        lemma_linked_heads(u, x, own, heads);
        assert(x != NONE_REF);
        assert forall|i: int|
            0 <= i < b.len() && b[i].occupied() && #[trigger] b[i].parent_ref
                != NONE_REF implies tree::present(b, b[i].parent_ref)
            && b[b[i].parent_ref as int].sequence + 1 == b[i].sequence by {
            if i != tail {
                assert(s[i].parent_ref != NONE_REF);
            }
        }
        assert(fit::tips_are_leaves(after, none)) by {
            assert forall|i: int|
                0 <= i < after.heads.len() && (#[trigger] after.heads[i]).in_use() implies {
                &&& tree::present(b, after.heads[i].head_idx)
                &&& tree::childless(b, after.heads[i].head_idx)
                &&& !none.contains(after.heads[i].head_idx)
            } by {
                let head = after.heads[i].head_idx;
                assert(u.heads[i].in_use() && u.heads[i].head_idx == head);
                assert(fit::is_tip(after.heads, head));
                assert(tree::childless(s, head));
                fit::lemma_kids_childless(s, head);
                assert(fit::kids(b, head) == fit::kids(s, head) + fit::one_if(head == x)
                    - fit::one_if(head == NONE_REF));
            }
            assert forall|a: int, c: int|
                0 <= a < c < after.heads.len() && (#[trigger] after.heads[a]).in_use() && (
                #[trigger] after.heads[c]).in_use() implies after.heads[a].head_idx
                != after.heads[c].head_idx by {
                assert(u.heads[a].in_use() && u.heads[c].in_use());
            }
            assert forall|i: int|
                0 <= i < b.len() && (#[trigger] b[i]).occupied() && !b[i].active()
                    && tree::childless(b, i as u32) implies fit::is_tip(after.heads, i as u32)
                || none.contains(i as u32) by {
                let idx = i as u32;
                assert(s[i].occupied());
                assert(fit::kids(b, idx) == fit::kids(s, idx) + fit::one_if(idx == x)
                    - fit::one_if(idx == NONE_REF));
                fit::lemma_kids_childless(s, idx);
                assert(tree::childless(s, idx));
                assert(fit::is_tip(heads, idx) == (fit::is_tip(u.heads, idx) && idx != x));
            }
        }
        assert(counted(after, none)) by {
            assert forall|i: int|
                0 <= i < b.len() && (#[trigger] b[i]).occupied() implies b[i].head_ref_count
                == fit::branches(after, none, i as u32) by {
                let idx = i as u32;
                assert(s[i].occupied());
                assert(s[i].head_ref_count == fit::branches(u, none, idx));
                assert(fit::kids(b, idx) == fit::kids(s, idx) + fit::one_if(idx == x)
                    - fit::one_if(idx == NONE_REF));
                assert(fit::is_tip(heads, idx) == (fit::is_tip(u.heads, idx) && idx != x));
            }
        }
        assert forall|i: int|
            0 <= i < after.heads.len() && (
            #[trigger] after.heads[i]).in_use() implies tree::descends(
            b,
            after.heads[i].head_idx,
            after.heads[i].tail_or_connection_idx,
            b.len(),
        ) by {
            assert(u.heads[i].in_use() && u.heads[i] == after.heads[i]);
            lemma_descends_linked(
                s,
                tail,
                x,
                count,
                u.heads[i].head_idx,
                u.heads[i].tail_or_connection_idx,
                s.len(),
            );
        }
        let at = x;
        assert(fit::kids(b, at) == fit::kids(s, at) + fit::one_if(at == x) - fit::one_if(
            at == NONE_REF,
        ));
    }
}

/// The tips after the slot of `x`, if it has one, was given up.
proof fn lemma_linked_heads(u: Tips, x: u32, own: Option<int>, heads: Seq<ChainHeadEntry>)
    requires
        branching(u),
        own matches Some(slot) ==> 0 <= slot < u.heads.len() && u.heads[slot].in_use()
            && u.heads[slot].head_idx == x && heads == u.heads.update(
            slot,
            ChainHeadEntry::vacant(),
        ),
        own is None ==> !fit::is_tip(u.heads, x) && heads == u.heads,
    ensures
        forall|idx: u32| #[trigger]
            fit::is_tip(heads, idx) == (fit::is_tip(u.heads, idx) && idx != x),
        own is Some ==> fit::is_tip(u.heads, x),
{
    if own is Some {
        fit::lemma_tip_vacated(u.heads, own->0);
        assert(u.heads[own->0].in_use() && u.heads[own->0].head_idx == x);
    }
}

proof fn lemma_tails_linked(u: Tips, slot: int, x: u32)
    requires
        attaching(u, x, slot),
        0 <= slot <= u.heads.len() <= 255,
    ensures
        ({
            let after = tips::tails_linked(u, slot, u.heads.len() as int, x);
            &&& branching(after)
            &&& after.heads.len() == u.heads.len()
            &&& after.blocks.len() == u.blocks.len()
            &&& tree::present(after.blocks, x)
            &&& after.blocks[x as int].hash == u.blocks[x as int].hash
            &&& after.blocks[x as int].sequence == u.blocks[x as int].sequence
        }),
    decreases u.heads.len() - slot,
{
    if slot < u.heads.len() {
        lemma_tail_linked(u, slot, x);
        lemma_tails_linked(tips::tail_linked(u, slot, x), slot + 1, x);
    }
}

/// Classifying tips anew keeps the tree branching as it says.
proof fn lemma_reclassified(t: Tips, slot: int, entry: ChainHeadEntry)
    requires
        branching(t),
        0 <= slot < t.heads.len(),
        t.heads[slot].in_use(),
        entry.in_use(),
        entry.head_idx == t.heads[slot].head_idx,
        tree::descends(
            t.blocks,
            entry.head_idx,
            entry.tail_or_connection_idx,
            t.blocks.len(),
        ),
    ensures
        branching(Tips { heads: t.heads.update(slot, entry), blocks: t.blocks }),
{
    let none = Set::<u32>::empty();
    let u = Tips { heads: t.heads.update(slot, entry), blocks: t.blocks };
    assert forall|i: int| 0 <= i < u.heads.len() implies (#[trigger] u.heads[i]).in_use()
        == t.heads[i].in_use() && u.heads[i].head_idx == t.heads[i].head_idx by {}
    lemma_same_tips(t.heads, u.heads);
    assert(fit::tips_are_leaves(u, none)) by {
        assert forall|i: int| 0 <= i < u.heads.len() && (#[trigger] u.heads[i]).in_use() implies {
            &&& tree::present(u.blocks, u.heads[i].head_idx)
            &&& tree::childless(u.blocks, u.heads[i].head_idx)
            &&& !none.contains(u.heads[i].head_idx)
        } by {
            assert(t.heads[i].in_use());
        }
        assert forall|a: int, b: int|
            0 <= a < b < u.heads.len() && (#[trigger] u.heads[a]).in_use() && (
            #[trigger] u.heads[b]).in_use() implies u.heads[a].head_idx != u.heads[b].head_idx by {
            assert(t.heads[a].in_use() && t.heads[b].in_use());
        }
    }
    assert(counted(u, none)) by {
        assert forall|i: int|
            0 <= i < u.blocks.len() && (
            #[trigger] u.blocks[i]).occupied() implies u.blocks[i].head_ref_count == fit::branches(
            u,
            none,
            i as u32,
        ) by {
            assert(t.blocks[i].head_ref_count == fit::branches(t, none, i as u32));
        }
    }
    assert forall|i: int| 0 <= i < u.heads.len() && (
    #[trigger] u.heads[i]).in_use() implies tree::descends(
        u.blocks,
        u.heads[i].head_idx,
        u.heads[i].tail_or_connection_idx,
        u.blocks.len(),
    ) by {
        assert(t.heads[i].in_use());
    }
}

pub(crate) proof fn lemma_same_tips(heads: Seq<ChainHeadEntry>, other: Seq<ChainHeadEntry>)
    requires
        heads.len() == other.len(),
        forall|i: int|
            0 <= i < heads.len() ==> (#[trigger] other[i]).in_use() == heads[i].in_use()
                && other[i].head_idx == heads[i].head_idx,
    ensures
        forall|idx: u32| #[trigger] fit::is_tip(other, idx) == fit::is_tip(heads, idx),
{
    assert forall|idx: u32| #[trigger] fit::is_tip(other, idx) == fit::is_tip(heads, idx) by {
        if fit::is_tip(other, idx) {
            let i = choose|i: int|
                0 <= i < other.len() && (#[trigger] other[i]).in_use() && other[i].head_idx == idx;
            assert(heads[i].in_use() && heads[i].head_idx == idx);
        }
        if fit::is_tip(heads, idx) {
            let i = choose|i: int|
                0 <= i < heads.len() && (#[trigger] heads[i]).in_use() && heads[i].head_idx == idx;
            assert(other[i].in_use() && other[i].head_idx == idx);
        }
    }
}

proof fn lemma_waiters_refreshed(
    t: Tips,
    slot: int,
    x_hash: BlockHash,
    known_idx: u32,
    known_hash: BlockHash,
)
    requires
        branching(t),
        0 <= slot <= t.heads.len(),
    ensures
        ({
            let heads = tips::waiters_refreshed(
                t.heads,
                t.blocks,
                slot,
                t.heads.len() as int,
                x_hash,
                known_idx,
                known_hash,
            );
            &&& heads.len() == t.heads.len()
            &&& branching(Tips { heads, blocks: t.blocks })
        }),
    decreases t.heads.len() - slot,
{
    if slot < t.heads.len() {
        if t.heads[slot].waiting() && t.heads[slot].missing_parent_hash == x_hash {
            let entry = tips::refreshed(t.heads, t.blocks, slot, known_idx, known_hash);
            assert(t.heads[slot].in_use());
            lemma_end_below(t.heads, t.blocks, slot, known_idx, known_hash);
            lemma_reclassified(t, slot, entry);
            lemma_waiters_refreshed(
                Tips { heads: t.heads.update(slot, entry), blocks: t.blocks },
                slot + 1,
                x_hash,
                known_idx,
                known_hash,
            );
        } else {
            lemma_waiters_refreshed(t, slot + 1, x_hash, known_idx, known_hash);
        }
    }
}

/// Admitting a block keeps the tips the childless blocks and the branch counts
/// exact, for every block and any active chain, and the block stands in the slot
/// it entered.
pub proof fn admission_keeps_branching(
    t: Tips,
    x: u32,
    entry: BlockEntry,
    parent: Option<u32>,
    prev_hash: BlockHash,
    arrival: u64,
    active_head: u32,
)
    requires
        entering(t, x, entry, parent),
        table_fits(t.heads),
        counts_fit(t),
    ensures
        ({
            let base = Tips { heads: t.heads, blocks: t.blocks.update(x as int, entry) };
            let after = tips::block_admitted(base, x, parent, prev_hash, arrival, active_head);
            &&& branching(after)
            &&& after.heads.len() == t.heads.len()
            &&& after.blocks.len() == t.blocks.len()
            &&& after.blocks[x as int].is_block(entry.sequence, entry.hash)
        }),
{
    let base = Tips { heads: t.heads, blocks: t.blocks.update(x as int, entry) };
    let u = tips::tip_admitted(base, x, parent, prev_hash, arrival, active_head);
    lemma_tip_admitted(t, x, entry, parent, prev_hash, arrival, active_head);
    let slot = choose|slot: int|
        0 <= slot < u.heads.len() && (#[trigger] u.heads[slot]).in_use() && u.heads[slot].head_idx
            == x;
    assert(tree::present(u.blocks, u.heads[slot].head_idx));
    assert(u.blocks[x as int].occupied());
    fit::lemma_kids_childless(u.blocks, x);
    lemma_tails_linked(u, 0, x);
    let (known_idx, known_hash) = tips::branch_end(u.heads, x, prev_hash);
    let linked = tips::tails_linked(u, 0, u.heads.len() as int, x);
    lemma_waiters_refreshed(linked, 0, u.blocks[x as int].hash, known_idx, known_hash);
}

} // verus!
