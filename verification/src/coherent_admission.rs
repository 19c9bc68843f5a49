//! Admission keeps the tree and its tips together.

use vstd::prelude::*;

use crate::blocks as tree;
use crate::blocks::{BlockEntry, NONE_REF};
use crate::chain_heads as tips;
use crate::chain_heads::{Anchor, ChainHeadEntry, Tips};
use crate::coherence as fit;
use crate::hash::BlockHash;

verus! {

proof fn lemma_shared_hash(heads: Seq<ChainHeadEntry>, tail: u32, slot: int, from: int)
    requires
        0 <= from,
    ensures
        match tips::shared_missing_hash(heads, tail, slot, from) {
            Some(hash) => exists|i: int|
                from <= i < heads.len() && i != slot && (#[trigger] heads[i]).waiting()
                    && heads[i].tail_or_connection_idx == tail && heads[i].missing_parent_hash
                    == hash,
            None => forall|i: int|
                from <= i < heads.len() && i != slot && (#[trigger] heads[i]).waiting()
                    ==> heads[i].tail_or_connection_idx != tail,
        },
    decreases heads.len() - from,
{
    if from < heads.len() {
        if from != slot && heads[from].waiting() && heads[from].tail_or_connection_idx == tail {
        } else {
            lemma_shared_hash(heads, tail, slot, from + 1);
        }
    }
}

/// A tip that was classified anew tells the end of its branch.
pub(crate) proof fn lemma_refreshed(
    heads: Seq<ChainHeadEntry>,
    blocks: Seq<BlockEntry>,
    slot: int,
    known_idx: u32,
    known_hash: BlockHash,
)
    ensures
        ({
            let after = tips::refreshed(heads, blocks, slot, known_idx, known_hash);
            &&& fit::knows_its_end(after, blocks)
            &&& after.head_idx == heads[slot].head_idx
            &&& after.in_use() == heads[slot].in_use()
        }),
{
    tree::lemma_active_bit(heads[slot].flags);
}

/// A tip that was given a slot is one more tip.
pub(crate) proof fn lemma_tip_placed(heads: Seq<ChainHeadEntry>, slot: int, entry: ChainHeadEntry)
    requires
        0 <= slot < heads.len(),
        !heads[slot].in_use(),
        entry.in_use(),
    ensures
        forall|idx: u32|
            #[trigger] fit::is_tip(heads.update(slot, entry), idx) == (fit::is_tip(heads, idx) || idx
                == entry.head_idx),
{
    let after = heads.update(slot, entry);
    assert forall|idx: u32| #[trigger] fit::is_tip(after, idx) == (fit::is_tip(heads, idx) || idx
        == entry.head_idx) by {
        if fit::is_tip(after, idx) && idx != entry.head_idx {
            let i = choose|i: int|
                0 <= i < after.len() && (#[trigger] after[i]).in_use() && after[i].head_idx == idx;
            assert(heads[i].in_use() && heads[i].head_idx == idx);
        }
        if fit::is_tip(heads, idx) {
            let i = choose|i: int|
                0 <= i < heads.len() && (#[trigger] heads[i]).in_use() && heads[i].head_idx == idx;
            assert(after[i].in_use() && after[i].head_idx == idx);
        }
        assert(after[slot].in_use() && after[slot].head_idx == entry.head_idx);
    }
}

/// Whether some tip waits at the end of the branch of `x`, unless the branch
/// ends in `x` itself.
pub open spec fn end_shared(t: Tips, x: u32) -> bool {
    tips::tip_anchor(t.blocks, x) matches Anchor::Tail(idx) ==> idx == x || exists|i: int|
        0 <= i < t.heads.len() && (#[trigger] t.heads[i]).waiting()
            && t.heads[i].tail_or_connection_idx == idx
}

pub(crate) proof fn lemma_tip_inserted(
    t: Tips,
    prev: Seq<BlockHash>,
    active_head: u32,
    open: u32,
    late: Set<u32>,
    x: u32,
    arrival: u64,
    prev_hash: BlockHash,
)
    requires
        fit::settled(t, prev, active_head, open, late),
        late.contains(x),
        fit::table_fits(t.heads),
    ensures
        ({
            let after = tips::tip_inserted(t, x, arrival, prev_hash, active_head);
            &&& fit::settled(after, prev, active_head, open, late.remove(x))
            &&& after.heads.len() == t.heads.len()
            &&& fit::part_of(after.blocks, t.blocks)
            &&& fit::is_tip(after.heads, x)
            &&& forall|idx: u32| #[trigger]
                fit::is_tip(after.heads, idx) ==> fit::is_tip(t.heads, idx) || idx == x
            &&& fit::parents_known(t, prev) && prev[x as int] == prev_hash && end_shared(t, x)
                ==> fit::parents_known(after, prev)
        }),
{
    let (known_idx, known_hash) = tips::known_end(t, x, prev_hash);
    let full = tips::tip_count(t.heads) >= t.heads.len();
    let room = if full {
        tips::evicted(t, active_head)
    } else {
        t
    };
    fit::lemma_tip_count(t.heads);
    if full {
        fit::lemma_evicted(t, prev, active_head, open, late);
    } else {
        assert(fit::part_of(t.blocks, t.blocks));
    }
    fit::lemma_vacant_slot(room.heads, 0);
    let slot = tips::vacant_slot(room.heads, 0)->0;
    let fresh = ChainHeadEntry::fresh(x, arrival);
    let placed = room.heads.update(slot, fresh);
    let entry = tips::refreshed(placed, room.blocks, slot, known_idx, known_hash);
    let heads = placed.update(slot, entry);
    assert(heads =~= room.heads.update(slot, entry));
    lemma_refreshed(placed, room.blocks, slot, known_idx, known_hash);
    assert(tree::present(room.blocks, x));
    lemma_tip_placed(room.heads, slot, entry);
    let after = tips::tip_inserted(t, x, arrival, prev_hash, active_head);
    assert(after.heads == heads && after.blocks == room.blocks);
    let rest = late.remove(x);
    assert(!fit::is_tip(room.heads, x)) by {
        if fit::is_tip(room.heads, x) {
            let i = choose|i: int|
                0 <= i < room.heads.len() && (#[trigger] room.heads[i]).in_use()
                    && room.heads[i].head_idx == x;
            assert(late.contains(room.heads[i].head_idx));
        }
    }
    assert(fit::tips_are_leaves(after, rest)) by {
        assert forall|i: int| 0 <= i < heads.len() && (#[trigger] heads[i]).in_use() implies {
            &&& tree::present(room.blocks, heads[i].head_idx)
            &&& tree::childless(room.blocks, heads[i].head_idx)
            &&& !rest.contains(heads[i].head_idx)
        } by {
            if i != slot {
                assert(room.heads[i].in_use());
            } else {
                assert(late.contains(x));
            }
        }
        assert forall|a: int, b: int|
            0 <= a < b < heads.len() && (#[trigger] heads[a]).in_use() && (
            #[trigger] heads[b]).in_use() implies heads[a].head_idx != heads[b].head_idx by {
            if a != slot {
                assert(room.heads[a].in_use());
            }
            if b != slot {
                assert(room.heads[b].in_use());
            }
        }
        assert forall|i: int|
            0 <= i < room.blocks.len() && (#[trigger] room.blocks[i]).occupied()
                && !room.blocks[i].active() && tree::childless(
                room.blocks,
                i as u32,
            ) implies fit::is_tip(heads, i as u32) || rest.contains(i as u32) by {}
    }
    assert(fit::counted(after, rest)) by {
        assert forall|i: int|
            0 <= i < room.blocks.len() && (#[trigger] room.blocks[i]).occupied()
                && !room.blocks[i].active() implies room.blocks[i].head_ref_count == fit::branches(
            after,
            rest,
            i as u32,
        ) by {
            assert(room.blocks[i].head_ref_count == fit::branches(room, late, i as u32));
        }
    }
    assert(fit::ends_known(after)) by {
        assert forall|i: int|
            0 <= i < heads.len() && (#[trigger] heads[i]).in_use() implies fit::knows_its_end(
            heads[i],
            room.blocks,
        ) by {
            if i != slot {
                assert(room.heads[i].in_use());
            }
        }
    }
    assert(fit::is_tip(heads, x));
    assert forall|idx: u32| #[trigger] fit::is_tip(heads, idx) implies fit::is_tip(t.heads, idx)
        || idx == x by {
        if idx != x {
            let i = choose|i: int|
                0 <= i < room.heads.len() && (#[trigger] room.heads[i]).in_use()
                    && room.heads[i].head_idx == idx;
            assert(t.heads[i].in_use());
        }
    }
    if fit::parents_known(t, prev) && prev[x as int] == prev_hash && end_shared(t, x) {
        assert forall|i: int|
            0 <= i < heads.len() && (#[trigger] heads[i]).in_use() implies fit::knows_its_parent(
            heads[i],
            prev,
        ) by {
            if i != slot {
                assert(room.heads[i].in_use());
                assert(t.heads[i].in_use());
            } else if entry.waiting() {
                fit::lemma_anchor_part(room.blocks, t.blocks, prev, x);
                let tail = entry.tail_or_connection_idx;
                assert(tips::tip_anchor(t.blocks, x) == Anchor::Tail(tail));
                if tail != x {
                    lemma_shared_hash(t.heads, tail, t.heads.len() as int, 0);
                    let k = choose|k: int|
                        0 <= k < t.heads.len() && (#[trigger] t.heads[k]).waiting()
                            && t.heads[k].tail_or_connection_idx == tail
                            && t.heads[k].missing_parent_hash == known_hash;
                    assert(t.heads[k].in_use());
                    assert(fit::knows_its_parent(t.heads[k], prev));
                }
            }
        }
    }
}

/// A block that enters below no tip is a tip yet to come.
proof fn lemma_late_tip(
    t: Tips,
    prev: Seq<BlockHash>,
    active_head: u32,
    x: u32,
    entry: BlockEntry,
    prev_hash: BlockHash,
    s: Seq<BlockEntry>,
)
    requires
        entering(t, prev, active_head, x, entry, prev_hash),
        !fit::is_tip(t.heads, entry.parent_ref),
        s.len() == t.blocks.len(),
        s[x as int] == entry.with_count(1),
        forall|i: int|
            0 <= i < s.len() && i != x ==> #[trigger] s[i] == if i == entry.parent_ref {
                t.blocks[i].with_count(
                    tree::adjusted_count(t.blocks[i].head_ref_count, 1i8),
                )
            } else {
                t.blocks[i]
            },
        fit::table_fits(t.heads),
    ensures
        fit::settled(
            Tips { heads: t.heads, blocks: s },
            prev.update(x as int, prev_hash),
            anchored(active_head, x, entry),
            x,
            Set::empty().insert(x),
        ),
        fit::parents_known(Tips { heads: t.heads, blocks: s }, prev.update(x as int, prev_hash)),
{
    let now = prev.update(x as int, prev_hash);
    let head = anchored(active_head, x, entry);
    let base = t.blocks.update(x as int, entry.with_count(1));
    let late = Set::<u32>::empty().insert(x);
    let none = Set::<u32>::empty();
    let after = Tips { heads: t.heads, blocks: s };
    lemma_entered(t, prev, active_head, x, entry, prev_hash);
    assert forall|idx: u32| #[trigger] fit::kids(s, idx) == fit::kids(base, idx) && tree::childless(s, idx)
        == tree::childless(base, idx) by {
        assert forall|j: int| 0 <= j < s.len() implies fit::child_of(#[trigger] s[j], idx) == fit::child_of(
            base[j],
            idx,
        ) by {}
        fit::lemma_kids_same(s, base, idx);
        fit::lemma_kids_childless(s, idx);
        fit::lemma_kids_childless(base, idx);
    }
    assert(fit::part_of(s, base));
    assert(fit::part_of(base, s));
    fit::lemma_part_complete(s, base, now, x);
    assert(fit::linked(s, now)) by {
        assert forall|i: int|
            0 <= i < s.len() && (#[trigger] s[i]).occupied() && s[i].parent_ref
                != NONE_REF implies {
            &&& tree::present(s, s[i].parent_ref)
            &&& s[s[i].parent_ref as int].sequence + 1 == s[i].sequence
            &&& s[s[i].parent_ref as int].hash == now[i]
        } by {
            assert(base[i].occupied());
            assert(base[s[i].parent_ref as int].occupied());
        }
    }
    assert(fit::marked(s, head)) by {
        assert forall|i: int| 0 <= i < s.len() && (#[trigger] s[i]).occupied() implies {
            &&& s[i].active() == (s[i].sequence == 0)
            &&& s[i].sequence == 0 ==> head == i
        } by {
            assert(base[i].occupied());
        }
        if head != NONE_REF {
            assert(base[head as int].occupied());
        }
    }
    assert(!fit::is_tip(t.heads, x)) by {
        if fit::is_tip(t.heads, x) {
            let i = choose|i: int|
                0 <= i < t.heads.len() && (#[trigger] t.heads[i]).in_use() && t.heads[i].head_idx
                    == x;
            assert(tree::present(t.blocks, t.heads[i].head_idx));
        }
    }
    assert(fit::tips_are_leaves(after, late)) by {
        assert forall|i: int| 0 <= i < t.heads.len() && (#[trigger] t.heads[i]).in_use() implies {
            &&& tree::present(s, t.heads[i].head_idx)
            &&& tree::childless(s, t.heads[i].head_idx)
            &&& !late.contains(t.heads[i].head_idx)
        } by {
            let h = t.heads[i].head_idx;
            assert(fit::is_tip(t.heads, h));
            assert(t.blocks[h as int].occupied());
            assert(tree::childless(base, h) == tree::childless(t.blocks, h));
            assert(fit::kids(s, h) == fit::kids(base, h));
        }
        assert(fit::kids(s, x) == fit::kids(base, x));
        assert forall|i: int|
            0 <= i < s.len() && (#[trigger] s[i]).occupied() && !s[i].active() && tree::childless(
                s,
                i as u32,
            ) implies fit::is_tip(t.heads, i as u32) || late.contains(i as u32) by {
            if i != x {
                assert(t.blocks[i].occupied());
                let idx = i as u32;
                assert(fit::kids(s, idx) == fit::kids(base, idx));
                assert(fit::kids(base, idx) == fit::kids(t.blocks, idx) + fit::one_if(
                    entry.parent_ref == idx,
                ));
                fit::lemma_kids_childless(base, idx);
                fit::lemma_kids_childless(t.blocks, idx);
            }
        }
    }
    assert(fit::counted(after, late)) by {
        assert forall|i: int|
            0 <= i < s.len() && (#[trigger] s[i]).occupied()
                && !s[i].active() implies s[i].head_ref_count == fit::branches(
            after,
            late,
            i as u32,
        ) by {
            let idx = i as u32;
            assert(fit::kids(s, idx) == fit::kids(base, idx));
            assert(fit::kids(base, idx) == fit::kids(t.blocks, idx) + fit::one_if(entry.parent_ref == idx));
            if i != x {
                assert(t.blocks[i].occupied());
                assert(t.blocks[i].head_ref_count == fit::branches(t, none, idx));
                fit::lemma_kids_bound(t, prev, active_head, none, idx);
            } else {
                assert(tree::childless(base, x));
                fit::lemma_kids_childless(base, x);
            }
        }
    }
    assert forall|i: int|
        0 <= i < t.heads.len() && (#[trigger] t.heads[i]).in_use() implies fit::knows_its_end(
        t.heads[i],
        s,
    ) && fit::knows_its_parent(t.heads[i], now) by {
        let h = t.heads[i].head_idx;
        assert(base[h as int].occupied());
        fit::lemma_anchor_part(t.blocks, base, now, h);
        fit::lemma_anchor_part(base, s, now, h);
        lemma_anchor_end(t.blocks, now, h);
    }
}

/// A block that enters as a further child of its parent.
proof fn lemma_forked(
    t: Tips,
    prev: Seq<BlockHash>,
    active_head: u32,
    x: u32,
    entry: BlockEntry,
    prev_hash: BlockHash,
    arrival: u64,
)
    requires
        entering(t, prev, active_head, x, entry, prev_hash),
        fit::table_fits(t.heads),
        tree::parent_slot(t.blocks, prev_hash, entry.sequence) is Some,
        !fit::is_tip(t.heads, entry.parent_ref),
    ensures
        ({
            let now = prev.update(x as int, prev_hash);
            let head = anchored(active_head, x, entry);
            let after = tips::tip_admitted(
                Tips { heads: t.heads, blocks: t.blocks.update(x as int, entry) },
                x,
                tree::parent_slot(t.blocks, prev_hash, entry.sequence),
                prev_hash,
                arrival,
                head,
            );
            &&& fit::settled(after, now, head, x, Set::empty())
            &&& fit::parents_known(after, now)
            &&& after.heads.len() == t.heads.len()
            &&& fit::is_tip(after.heads, x)
        }),
{
    let now = prev.update(x as int, prev_hash);
    let head = anchored(active_head, x, entry);
    let p = entry.parent_ref;
    let base = t.blocks.update(x as int, entry.with_count(1));
    let s = tree::recounted(base, p, 1i8);
    let late = Set::<u32>::empty().insert(x);
    fit::lemma_head_slot(t.heads, p, 0);
    lemma_entered(t, prev, active_head, x, entry, prev_hash);
    let start = t.blocks.update(x as int, entry);
    assert(tree::recounted(start, x, 1i8) =~= base);
    lemma_late_tip(t, prev, active_head, x, entry, prev_hash, s);
    let ready = Tips { heads: t.heads, blocks: s };
    assert(end_shared(ready, x)) by {
        fit::lemma_anchor_step(s, now, x);
        if !s[x as int].active() {
            assert(fit::part_of(t.blocks, s));
            fit::lemma_anchor_part(t.blocks, s, now, p);
            if !t.blocks[p as int].active() {
                let tip = fit::lemma_tip_above(t, prev, active_head, Set::empty(), p);
                fit::lemma_anchor_of_descendant(t.blocks, prev, active_head, tip, p, t.blocks.len());
                let i = choose|i: int|
                    0 <= i < t.heads.len() && (#[trigger] t.heads[i]).in_use()
                        && t.heads[i].head_idx == tip;
                assert(fit::knows_its_end(t.heads[i], t.blocks));
                if let Anchor::Tail(idx) = tips::tip_anchor(t.blocks, p) {
                    assert(t.heads[i].waiting() && t.heads[i].tail_or_connection_idx == idx);
                }
            } else {
                fit::lemma_anchor_step(t.blocks, now, p);
            }
        }
    }
    lemma_tip_inserted(ready, now, head, x, late, x, arrival, prev_hash);
    assert(late.remove(x) =~= Set::<u32>::empty());
}

/// A block that enters without a parent.
proof fn lemma_rooted(
    t: Tips,
    prev: Seq<BlockHash>,
    active_head: u32,
    x: u32,
    entry: BlockEntry,
    prev_hash: BlockHash,
    arrival: u64,
)
    requires
        entering(t, prev, active_head, x, entry, prev_hash),
        fit::table_fits(t.heads),
        tree::parent_slot(t.blocks, prev_hash, entry.sequence) is None,
    ensures
        ({
            let now = prev.update(x as int, prev_hash);
            let head = anchored(active_head, x, entry);
            let after = tips::tip_admitted(
                Tips { heads: t.heads, blocks: t.blocks.update(x as int, entry) },
                x,
                tree::parent_slot(t.blocks, prev_hash, entry.sequence),
                prev_hash,
                arrival,
                head,
            );
            &&& fit::settled(after, now, head, x, Set::empty())
            &&& fit::parents_known(after, now)
            &&& after.heads.len() == t.heads.len()
            &&& fit::is_tip(after.heads, x)
        }),
{
    let now = prev.update(x as int, prev_hash);
    let head = anchored(active_head, x, entry);
    let base = t.blocks.update(x as int, entry.with_count(1));
    let late = Set::<u32>::empty().insert(x);
    lemma_entered(t, prev, active_head, x, entry, prev_hash);
    let start = t.blocks.update(x as int, entry);
    assert(tree::recounted(start, x, 1i8) =~= base);
    assert(!fit::is_tip(t.heads, NONE_REF));
    lemma_late_tip(t, prev, active_head, x, entry, prev_hash, base);
    let ready = Tips { heads: t.heads, blocks: base };
    fit::lemma_anchor_step(base, now, x);
    assert(end_shared(ready, x));
    lemma_tip_inserted(ready, now, head, x, late, x, arrival, prev_hash);
    assert(late.remove(x) =~= Set::<u32>::empty());
}

/// Where a branch ends is a block of it.
pub(crate) proof fn lemma_anchor_end(s: Seq<BlockEntry>, prev: Seq<BlockHash>, cur: u32)
    requires
        fit::linked(s, prev),
        tree::present(s, cur),
    ensures
        match tips::tip_anchor(s, cur) {
            Anchor::Tail(idx) => {
                &&& tree::present(s, idx)
                &&& s[idx as int].parent_ref == NONE_REF
                &&& !s[idx as int].active()
                &&& s[idx as int].sequence <= s[cur as int].sequence
            },
            Anchor::Connection(idx) => tree::present(s, idx) && s[idx as int].active(),
        },
    decreases s[cur as int].sequence,
{
    fit::lemma_anchor_step(s, prev, cur);
    if !s[cur as int].active() && s[cur as int].parent_ref != NONE_REF {
        lemma_anchor_end(s, prev, s[cur as int].parent_ref);
    }
}

/// Whether `entry` is a block that enters the free slot `x` of a coherent tree,
/// linked to its parent if that is there.
pub open spec fn entering(
    t: Tips,
    prev: Seq<BlockHash>,
    active_head: u32,
    x: u32,
    entry: BlockEntry,
    prev_hash: BlockHash,
) -> bool {
    &&& fit::coherent(t, prev, active_head)
    &&& x < t.blocks.len()
    &&& !t.blocks[x as int].occupied()
    &&& entry.occupied()
    &&& entry.head_ref_count == 0
    &&& entry.active() == (entry.sequence == 0)
    &&& entry.sequence == 0 ==> active_head == NONE_REF
    &&& entry.parent_ref == match tree::parent_slot(t.blocks, prev_hash, entry.sequence) {
        Some(parent) => parent,
        None => NONE_REF,
    }
}

/// The head of the active chain once a block entered slot `x`.
pub open spec fn anchored(active_head: u32, x: u32, entry: BlockEntry) -> u32 {
    if entry.sequence == 0 {
        x
    } else {
        active_head
    }
}

/// A block that enters leaves the links of the others, and its own are right.
proof fn lemma_entered(
    t: Tips,
    prev: Seq<BlockHash>,
    active_head: u32,
    x: u32,
    entry: BlockEntry,
    prev_hash: BlockHash,
)
    requires
        entering(t, prev, active_head, x, entry, prev_hash),
    ensures
        ({
            let s = t.blocks.update(x as int, entry.with_count(1));
            let now = prev.update(x as int, prev_hash);
            &&& fit::linked(s, now)
            &&& fit::linked(t.blocks, now)
            &&& fit::complete(s, now, x)
            &&& fit::marked(s, anchored(active_head, x, entry))
            &&& fit::part_of(t.blocks, s)
            &&& tree::childless(s, x)
            &&& entry.parent_ref != x
            &&& entry.parent_ref != NONE_REF ==> tree::present(t.blocks, entry.parent_ref)
            &&& tree::parent_slot(t.blocks, prev_hash, entry.sequence) is Some ==> entry.parent_ref
                != NONE_REF
            &&& forall|idx: u32|
                #[trigger] fit::kids(s, idx) == fit::kids(t.blocks, idx) + fit::one_if(
                    entry.parent_ref == idx,
                )
            &&& forall|idx: u32|
                idx != entry.parent_ref ==> #[trigger] tree::childless(s, idx) == tree::childless(
                    t.blocks,
                    idx,
                )
        }),
{
    let old_s = t.blocks;
    let e = entry.with_count(1);
    let s = old_s.update(x as int, e);
    let now = prev.update(x as int, prev_hash);
    if entry.sequence > 0 {
        tree::slot_of_is_first(old_s, (entry.sequence - 1) as u32, prev_hash, 0);
    }
    assert forall|idx: u32| #[trigger] fit::kids(s, idx) == fit::kids(old_s, idx) + fit::one_if(
        entry.parent_ref == idx,
    ) by {
        fit::lemma_kids_update(old_s, x as int, e, idx);
    }
    assert forall|idx: u32| idx != entry.parent_ref implies #[trigger] tree::childless(s, idx)
        == tree::childless(old_s, idx) by {
        fit::lemma_kids_childless(s, idx);
        fit::lemma_kids_childless(old_s, idx);
        assert(fit::kids(s, idx) == fit::kids(old_s, idx) + fit::one_if(entry.parent_ref == idx));
    }
    assert(tree::childless(old_s, x)) by {
        assert forall|i: int|
            0 <= i < old_s.len() && (#[trigger] old_s[i]).occupied() implies old_s[i].parent_ref
            != x by {}
    }
    assert(fit::linked(s, now)) by {
        assert forall|i: int|
            0 <= i < s.len() && (#[trigger] s[i]).occupied() && s[i].parent_ref
                != NONE_REF implies {
            &&& tree::present(s, s[i].parent_ref)
            &&& s[s[i].parent_ref as int].sequence + 1 == s[i].sequence
            &&& s[s[i].parent_ref as int].hash == now[i]
        } by {
            if i != x {
                assert(old_s[i].occupied());
                assert(old_s[i].parent_ref != x);
            }
        }
    }
    assert(fit::linked(old_s, now)) by {
        assert forall|i: int|
            0 <= i < old_s.len() && (#[trigger] old_s[i]).occupied() && old_s[i].parent_ref
                != NONE_REF implies {
            &&& tree::present(old_s, old_s[i].parent_ref)
            &&& old_s[old_s[i].parent_ref as int].sequence + 1 == old_s[i].sequence
            &&& old_s[old_s[i].parent_ref as int].hash == now[i]
        } by {}
    }
    assert(fit::complete(s, now, x)) by {
        assert forall|i: int, j: int|
            0 <= i < s.len() && 0 <= j < s.len() && (#[trigger] s[i]).occupied()
                && s[i].parent_ref == NONE_REF && (#[trigger] s[j]).occupied() && s[j].sequence + 1
                == s[i].sequence && s[j].hash == now[i] implies j == x by {
            if j != x {
                assert(old_s[j].occupied());
                if i != x {
                    assert(old_s[i].occupied());
                } else {
                    assert(old_s[j].is_block((entry.sequence - 1) as u32, prev_hash));
                }
            }
        }
    }
    assert(fit::marked(s, anchored(active_head, x, entry))) by {
        assert forall|i: int| 0 <= i < s.len() && (#[trigger] s[i]).occupied() implies {
            &&& s[i].active() == (s[i].sequence == 0)
            &&& s[i].sequence == 0 ==> anchored(active_head, x, entry) == i
        } by {
            if i != x {
                assert(old_s[i].occupied());
            }
        }
    }
}

/// A tip that moves to another block is a tip no more, and that block is one.
pub(crate) proof fn lemma_tip_moved(heads: Seq<ChainHeadEntry>, slot: int, entry: ChainHeadEntry)
    requires
        0 <= slot < heads.len(),
        heads[slot].in_use(),
        entry.in_use(),
        !fit::is_tip(heads, entry.head_idx),
        forall|a: int, b: int|
            0 <= a < b < heads.len() && (#[trigger] heads[a]).in_use() && (
            #[trigger] heads[b]).in_use() ==> heads[a].head_idx != heads[b].head_idx,
    ensures
        forall|idx: u32|
            #[trigger] fit::is_tip(heads.update(slot, entry), idx) == (idx == entry.head_idx || (fit::is_tip(
                heads,
                idx,
            ) && idx != heads[slot].head_idx)),
{
    fit::lemma_tip_vacated(heads, slot);
    let without = heads.update(slot, ChainHeadEntry::vacant());
    lemma_tip_placed(without, slot, entry);
    assert(without.update(slot, entry) =~= heads.update(slot, entry));
}

/// The tips after a block entered, before the branches that waited for it are
/// attached.
proof fn lemma_tip_admitted(
    t: Tips,
    prev: Seq<BlockHash>,
    active_head: u32,
    x: u32,
    entry: BlockEntry,
    prev_hash: BlockHash,
    arrival: u64,
)
    requires
        entering(t, prev, active_head, x, entry, prev_hash),
        fit::table_fits(t.heads),
    ensures
        ({
            let now = prev.update(x as int, prev_hash);
            let head = anchored(active_head, x, entry);
            let after = tips::tip_admitted(
                Tips { heads: t.heads, blocks: t.blocks.update(x as int, entry) },
                x,
                tree::parent_slot(t.blocks, prev_hash, entry.sequence),
                prev_hash,
                arrival,
                head,
            );
            &&& fit::settled(after, now, head, x, Set::empty())
            &&& fit::parents_known(after, now)
            &&& after.heads.len() == t.heads.len()
            &&& fit::is_tip(after.heads, x)
        }),
{
    let now = prev.update(x as int, prev_hash);
    let head = anchored(active_head, x, entry);
    let parent = tree::parent_slot(t.blocks, prev_hash, entry.sequence);
    let start = Tips { heads: t.heads, blocks: t.blocks.update(x as int, entry) };
    let s = t.blocks.update(x as int, entry.with_count(1));
    lemma_entered(t, prev, active_head, x, entry, prev_hash);
    assert(tree::recounted(start.blocks, x, 1i8) =~= s);
    assert forall|i: int|
        0 <= i < t.heads.len() && (#[trigger] t.heads[i]).in_use() implies fit::knows_its_end(
        t.heads[i],
        s,
    ) && fit::knows_its_parent(t.heads[i], now) && t.heads[i].head_idx != x by {
        let h = t.heads[i].head_idx;
        fit::lemma_anchor_part(t.blocks, s, now, h);
        lemma_anchor_end(t.blocks, now, h);
    }
    assert(!fit::is_tip(t.heads, x));
    match parent {
        Some(p) => {
            fit::lemma_head_slot(t.heads, p, 0);
            fit::lemma_anchor_step(s, now, x);
            fit::lemma_anchor_part(t.blocks, s, now, p);
            lemma_anchor_end(t.blocks, now, p);
            match tips::head_slot(t.heads, p, 0) {
                Some(slot) => {
                    let advanced = t.heads.update(
                        slot,
                        ChainHeadEntry { head_idx: x, arrival_timestamp: arrival, ..t.heads[slot] },
                    );
                    let moved = tips::refreshed(advanced, s, slot, x, prev_hash);
                    lemma_refreshed(advanced, s, slot, x, prev_hash);
                    let heads = advanced.update(slot, moved);
                    assert(heads =~= t.heads.update(slot, moved));
                    lemma_tip_moved(t.heads, slot, moved);
                    let after = Tips { heads, blocks: s };
                    let none = Set::<u32>::empty();
                    assert(fit::knows_its_end(t.heads[slot], s));
                    assert(fit::tips_are_leaves(after, none)) by {
                        assert forall|i: int|
                            0 <= i < heads.len() && (#[trigger] heads[i]).in_use() implies {
                            &&& tree::present(s, heads[i].head_idx)
                            &&& tree::childless(s, heads[i].head_idx)
                            &&& !none.contains(heads[i].head_idx)
                        } by {
                            if i != slot {
                                assert(t.heads[i].in_use());
                                assert(t.heads[i].head_idx != p);
                                assert(tree::childless(t.blocks, t.heads[i].head_idx));
                            }
                        }
                        assert forall|a: int, b: int|
                            0 <= a < b < heads.len() && (#[trigger] heads[a]).in_use() && (
                            #[trigger] heads[b]).in_use() implies heads[a].head_idx
                            != heads[b].head_idx by {
                            if a != slot {
                                assert(t.heads[a].in_use());
                            }
                            if b != slot {
                                assert(t.heads[b].in_use());
                            }
                        }
                        assert forall|i: int|
                            0 <= i < s.len() && (#[trigger] s[i]).occupied() && !s[i].active()
                                && tree::childless(s, i as u32) implies fit::is_tip(heads, i as u32)
                            || none.contains(i as u32) by {
                            if i != x {
                                assert(t.blocks[i].occupied());
                                assert(fit::kids(s, i as u32) == fit::kids(t.blocks, i as u32) + fit::one_if(
                                    entry.parent_ref == i as u32,
                                ));
                                fit::lemma_kids_childless(s, i as u32);
                                fit::lemma_kids_childless(t.blocks, i as u32);
                            }
                        }
                    }
                    assert(fit::counted(after, none)) by {
                        assert forall|i: int|
                            0 <= i < s.len() && (#[trigger] s[i]).occupied()
                                && !s[i].active() implies s[i].head_ref_count == fit::branches(
                            after,
                            none,
                            i as u32,
                        ) by {
                            assert(fit::kids(s, i as u32) == fit::kids(t.blocks, i as u32) + fit::one_if(
                                entry.parent_ref == i as u32,
                            ));
                            if i != x {
                                assert(t.blocks[i].occupied());
                                assert(t.blocks[i].head_ref_count == fit::branches(t, none, i as u32));
                            } else {
                                fit::lemma_kids_childless(s, x);
                            }
                        }
                    }
                    assert(fit::parents_known(after, now)) by {
                        assert forall|i: int|
                            0 <= i < heads.len() && (
                            #[trigger] heads[i]).in_use() implies fit::knows_its_parent(
                            heads[i],
                            now,
                        ) by {
                            if i != slot {
                                assert(t.heads[i].in_use());
                            } else {
                                assert(fit::knows_its_parent(t.heads[slot], now));
                            }
                        }
                    }
                    assert(fit::ends_known(after)) by {
                        assert forall|i: int|
                            0 <= i < heads.len() && (
                            #[trigger] heads[i]).in_use() implies fit::knows_its_end(heads[i], s) by {
                            if i != slot {
                                assert(t.heads[i].in_use());
                            }
                        }
                    }
                },
                None => {
                    lemma_forked(t, prev, active_head, x, entry, prev_hash, arrival);
                },
            }
        },
        None => {
            lemma_rooted(t, prev, active_head, x, entry, prev_hash, arrival);
        },
    }
}

// -- Attaching the branches that waited --------------------------------------

/// `after` is `before` with blocks linked to `x`, which is their missing parent.
pub open spec fn rewired(
    before: Seq<BlockEntry>,
    after: Seq<BlockEntry>,
    prev: Seq<BlockHash>,
    x: u32,
) -> bool {
    &&& after.len() == before.len()
    &&& forall|i: int|
        0 <= i < before.len() ==> {
            &&& (#[trigger] after[i]).occupied() == before[i].occupied()
            &&& after[i].hash == before[i].hash
            &&& after[i].sequence == before[i].sequence
            &&& after[i].flags == before[i].flags
            &&& after[i].parent_ref == before[i].parent_ref || (before[i].occupied()
                && before[i].parent_ref == NONE_REF && after[i].parent_ref == x
                && before[i].sequence == before[x as int].sequence + 1 && prev[i]
                == before[x as int].hash)
        }
}

proof fn lemma_rewired_below(
    before: Seq<BlockEntry>,
    after: Seq<BlockEntry>,
    prev: Seq<BlockHash>,
    x: u32,
    h: u32,
)
    requires
        fit::linked(before, prev),
        fit::linked(after, prev),
        rewired(before, after, prev, x),
        tree::present(before, h),
        before[h as int].sequence <= before[x as int].sequence,
    ensures
        tips::tip_anchor(after, h) == tips::tip_anchor(before, h),
    decreases before[h as int].sequence,
{
    assert(after[h as int].occupied());
    fit::lemma_anchor_step(before, prev, h);
    fit::lemma_anchor_step(after, prev, h);
    if !before[h as int].active() && before[h as int].parent_ref != NONE_REF {
        lemma_rewired_below(before, after, prev, x, before[h as int].parent_ref);
    }
}

/// A branch whose lowest block was linked to `x` ends where `x` does; every
/// other branch ends where it did.
proof fn lemma_rewired(
    before: Seq<BlockEntry>,
    after: Seq<BlockEntry>,
    prev: Seq<BlockHash>,
    x: u32,
    h: u32,
)
    requires
        fit::linked(before, prev),
        fit::linked(after, prev),
        rewired(before, after, prev, x),
        tree::present(before, x),
        tree::present(before, h),
    ensures
        match tips::tip_anchor(before, h) {
            Anchor::Tail(idx) => if after[idx as int].parent_ref != before[idx as int].parent_ref {
                tips::tip_anchor(after, h) == tips::tip_anchor(before, x)
            } else {
                tips::tip_anchor(after, h) == tips::tip_anchor(before, h)
            },
            Anchor::Connection(idx) => tips::tip_anchor(after, h) == tips::tip_anchor(before, h),
        },
    decreases before[h as int].sequence,
{
    assert(after[h as int].occupied());
    fit::lemma_anchor_step(before, prev, h);
    fit::lemma_anchor_step(after, prev, h);
    let entry = before[h as int];
    if !entry.active() {
        if entry.parent_ref != NONE_REF {
            lemma_rewired(before, after, prev, x, entry.parent_ref);
        } else if after[h as int].parent_ref != NONE_REF {
            lemma_rewired_below(before, after, prev, x, x);
        }
    }
}

/// What holds while the branches that wait for `x` are being linked, the slots
/// below `done` first.
#[verifier::opaque]
pub open spec fn linking(
    t: Tips,
    u: Tips,
    prev: Seq<BlockHash>,
    active_head: u32,
    x: u32,
    done: int,
) -> bool {
    &&& rewired(t.blocks, u.blocks, prev, x)
    &&& u.heads.len() == t.heads.len()
    &&& forall|slot: int|
        0 <= slot < t.heads.len() && (#[trigger] u.heads[slot]).in_use() ==> u.heads[slot]
            == t.heads[slot]
    &&& fit::linked(u.blocks, prev)
    &&& fit::complete(u.blocks, prev, x)
    &&& fit::marked(u.blocks, active_head)
    &&& fit::tips_are_leaves(u, Set::empty())
    &&& fit::counted(u, Set::empty())
    &&& forall|slot: int| 0 <= slot < done ==> !#[trigger] tips::link_pending(u, slot, x)
}

/// Another branch count leaves the links, the marks and the children.
proof fn lemma_recount(
    s: Seq<BlockEntry>,
    prev: Seq<BlockHash>,
    active_head: u32,
    open: u32,
    x: u32,
    count: u8,
)
    requires
        fit::linked(s, prev),
        fit::complete(s, prev, open),
        fit::marked(s, active_head),
        tree::present(s, x),
    ensures
        ({
            let after = s.update(x as int, s[x as int].with_count(count));
            &&& fit::linked(after, prev)
            &&& fit::complete(after, prev, open)
            &&& fit::marked(after, active_head)
        }),
{
    let after = s.update(x as int, s[x as int].with_count(count));
    assert(fit::part_of(after, s));
    fit::lemma_part_complete(after, s, prev, open);
    assert(fit::linked(after, prev)) by {
        assert forall|i: int|
            0 <= i < after.len() && (#[trigger] after[i]).occupied() && after[i].parent_ref
                != NONE_REF implies {
            &&& tree::present(after, after[i].parent_ref)
            &&& after[after[i].parent_ref as int].sequence + 1 == after[i].sequence
            &&& after[after[i].parent_ref as int].hash == prev[i]
        } by {
            assert(s[i].occupied());
        }
    }
    assert(fit::marked(after, active_head)) by {
        assert forall|i: int| 0 <= i < after.len() && (#[trigger] after[i]).occupied() implies {
            &&& after[i].active() == (after[i].sequence == 0)
            &&& after[i].sequence == 0 ==> active_head == i
        } by {
            assert(s[i].occupied());
        }
    }
}

/// The tree after the block `c` was linked to `x`, its missing parent.
proof fn lemma_link(
    s: Seq<BlockEntry>,
    prev: Seq<BlockHash>,
    active_head: u32,
    x: u32,
    c: u32,
)
    requires
        fit::linked(s, prev),
        fit::complete(s, prev, x),
        fit::marked(s, active_head),
        tree::present(s, x),
        tree::present(s, c),
        s[c as int].parent_ref == NONE_REF,
        s[c as int].sequence == s[x as int].sequence + 1,
        prev[c as int] == s[x as int].hash,
    ensures
        ({
            let after = s.update(c as int, s[c as int].with_parent(x));
            &&& fit::linked(after, prev)
            &&& fit::complete(after, prev, x)
            &&& fit::marked(after, active_head)
        }),
{
    let after = s.update(c as int, s[c as int].with_parent(x));
    assert(fit::linked(after, prev)) by {
        assert forall|i: int|
            0 <= i < after.len() && (#[trigger] after[i]).occupied() && after[i].parent_ref
                != NONE_REF implies {
            &&& tree::present(after, after[i].parent_ref)
            &&& after[after[i].parent_ref as int].sequence + 1 == after[i].sequence
            &&& after[after[i].parent_ref as int].hash == prev[i]
        } by {
            assert(s[i].occupied());
        }
    }
    assert(fit::complete(after, prev, x)) by {
        assert forall|i: int, j: int|
            0 <= i < after.len() && 0 <= j < after.len() && (#[trigger] after[i]).occupied()
                && after[i].parent_ref == NONE_REF && (#[trigger] after[j]).occupied()
                && after[j].sequence + 1 == after[i].sequence && after[j].hash
                == prev[i] implies j == x by {
            assert(s[i].occupied() && s[j].occupied());
        }
    }
    assert(fit::marked(after, active_head)) by {
        assert forall|i: int| 0 <= i < after.len() && (#[trigger] after[i]).occupied() implies {
            &&& after[i].active() == (after[i].sequence == 0)
            &&& after[i].sequence == 0 ==> active_head == i
        } by {
            assert(s[i].occupied());
        }
    }
}

/// The tips and the counts after `x` got one more child: one tip fewer, or one
/// branch more.
proof fn lemma_child_gained(
    u: Tips,
    after: Tips,
    prev: Seq<BlockHash>,
    active_head: u32,
    x: u32,
    c: u32,
)
    requires
        fit::linked(u.blocks, prev),
        fit::marked(u.blocks, active_head),
        fit::tips_are_leaves(u, Set::empty()),
        fit::counted(u, Set::empty()),
        fit::table_fits(u.heads),
        tree::present(u.blocks, x),
        tree::present(u.blocks, c),
        c != x,
        u.blocks[c as int].parent_ref == NONE_REF,
        ({
            let linked = u.blocks.update(c as int, u.blocks[c as int].with_parent(x));
            after == match tips::head_slot(u.heads, x, 0) {
                Some(own) => Tips {
                    heads: u.heads.update(own, ChainHeadEntry::vacant()),
                    blocks: linked,
                },
                None => Tips {
                    heads: u.heads,
                    blocks: linked.update(
                        x as int,
                        linked[x as int].with_count(
                            tree::adjusted_count(linked[x as int].head_ref_count, 1i8),
                        ),
                    ),
                },
            }
        }),
    ensures
        fit::tips_are_leaves(after, Set::empty()),
        fit::counted(after, Set::empty()),
{
    let none = Set::<u32>::empty();
    let s = u.blocks;
    let b = after.blocks;
    let heads = after.heads;
    let linked = s.update(c as int, s[c as int].with_parent(x));
    fit::lemma_head_slot(u.heads, x, 0);
    let own = tips::head_slot(u.heads, x, 0);
    if own is Some {
        fit::lemma_tip_vacated(u.heads, own->0);
    } else {
        fit::lemma_kids_bound(u, prev, active_head, none, x);
    }
    assert forall|idx: u32| #[trigger] fit::is_tip(heads, idx) == (fit::is_tip(u.heads, idx) && idx
        != x) by {
        if own is None {
            assert(heads == u.heads);
        }
    }
    assert(b =~= linked.update(x as int, linked[x as int].with_count(b[x as int].head_ref_count)));
    assert forall|idx: u32| idx != NONE_REF implies #[trigger] fit::kids(b, idx) == fit::kids(s, idx)
        + fit::one_if(idx == x) && tree::childless(b, idx) == (tree::childless(s, idx) && idx
        != x) by {
        fit::lemma_kids_update(s, c as int, s[c as int].with_parent(x), idx);
        fit::lemma_kids_recount(linked, x, b[x as int].head_ref_count, idx);
        fit::lemma_kids_childless(s, idx);
        fit::lemma_kids_childless(b, idx);
    }
    assert forall|i: int| 0 <= i < heads.len() && (#[trigger] heads[i]).in_use() implies {
        &&& tree::present(b, heads[i].head_idx)
        &&& tree::childless(b, heads[i].head_idx)
        &&& !none.contains(heads[i].head_idx)
    } by {
        assert(u.heads[i].in_use());
        let h = heads[i].head_idx;
        assert(fit::is_tip(heads, h));
        assert(fit::kids(b, h) == fit::kids(s, h) + fit::one_if(h == x));
    }
    assert forall|a: int, d: int|
        0 <= a < d < heads.len() && (#[trigger] heads[a]).in_use() && (
        #[trigger] heads[d]).in_use() implies heads[a].head_idx != heads[d].head_idx by {
        assert(u.heads[a].in_use() && u.heads[d].in_use());
    }
    assert forall|i: int|
        0 <= i < b.len() && (#[trigger] b[i]).occupied() && !b[i].active() implies {
        &&& tree::childless(b, i as u32) ==> fit::is_tip(heads, i as u32) || none.contains(i as u32)
        &&& b[i].head_ref_count == fit::branches(after, none, i as u32)
    } by {
        let idx = i as u32;
        assert(s[i].occupied());
        assert(fit::kids(b, idx) == fit::kids(s, idx) + fit::one_if(idx == x));
        assert(s[i].head_ref_count == fit::branches(u, none, idx));
    }
}

/// A branch that was linked, or passed over, stays so.
proof fn lemma_passed(u: Tips, slot: int, x: u32)
    requires
        forall|i: int| 0 <= i < slot ==> !#[trigger] tips::link_pending(u, i, x),
        tips::link_pending(u, slot, x),
        tree::present(u.blocks, x),
        u.blocks.len() <= NONE_REF,
        0 <= slot < u.heads.len(),
    ensures
        forall|i: int|
            0 <= i < slot + 1 ==> !#[trigger] tips::link_pending(
                tips::tail_linked(u, slot, x),
                i,
                x,
            ),
{
    let after = tips::tail_linked(u, slot, x);
    fit::lemma_head_slot(u.heads, x, 0);
    assert forall|i: int| 0 <= i < slot + 1 implies !#[trigger] tips::link_pending(after, i, x) by {
        if i < slot {
            assert(!tips::link_pending(u, i, x));
        }
    }
}

proof fn lemma_rewired_more(
    before: Seq<BlockEntry>,
    s: Seq<BlockEntry>,
    prev: Seq<BlockHash>,
    x: u32,
    c: u32,
    count: u8,
)
    requires
        rewired(before, s, prev, x),
        tree::present(s, x),
        tree::present(s, c),
        c != x,
        s[c as int].parent_ref == NONE_REF,
        s[c as int].sequence == s[x as int].sequence + 1,
        prev[c as int] == s[x as int].hash,
    ensures
        ({
            let linked = s.update(c as int, s[c as int].with_parent(x));
            rewired(
                before,
                linked.update(x as int, linked[x as int].with_count(count)),
                prev,
                x,
            )
        }),
{
    let linked = s.update(c as int, s[c as int].with_parent(x));
    let after = linked.update(x as int, linked[x as int].with_count(count));
    assert forall|i: int| 0 <= i < after.len() implies {
        &&& (#[trigger] after[i]).occupied() == before[i].occupied()
        &&& after[i].hash == before[i].hash
        &&& after[i].sequence == before[i].sequence
        &&& after[i].flags == before[i].flags
        &&& after[i].parent_ref == before[i].parent_ref || (before[i].occupied()
            && before[i].parent_ref == NONE_REF && after[i].parent_ref == x && before[i].sequence
            == before[x as int].sequence + 1 && prev[i] == before[x as int].hash)
    } by {
        assert(s[i].occupied() == before[i].occupied());
        assert(s[x as int].occupied() == before[x as int].occupied());
    }
}

/// Linking a branch to `x` changes the link of its lowest block, and either the
/// tips or the count of `x`.
proof fn lemma_tail_linked(u: Tips, slot: int, x: u32) -> (count: u8)
    requires
        tips::link_pending(u, slot, x),
        tree::present(u.blocks, x),
    ensures
        ({
            let c = u.heads[slot].tail_or_connection_idx;
            let linked = u.blocks.update(c as int, u.blocks[c as int].with_parent(x));
            let after = tips::tail_linked(u, slot, x);
            &&& after.blocks == linked.update(x as int, linked[x as int].with_count(count))
            &&& after == match tips::head_slot(u.heads, x, 0) {
                Some(own) => Tips {
                    heads: u.heads.update(own, ChainHeadEntry::vacant()),
                    blocks: linked,
                },
                None => Tips {
                    heads: u.heads,
                    blocks: linked.update(
                        x as int,
                        linked[x as int].with_count(
                            tree::adjusted_count(linked[x as int].head_ref_count, 1i8),
                        ),
                    ),
                },
            }
        }),
{
    let c = u.heads[slot].tail_or_connection_idx;
    let linked = u.blocks.update(c as int, u.blocks[c as int].with_parent(x));
    let after = tips::tail_linked(u, slot, x);
    assert(tree::revised(u.blocks, c, u.blocks[c as int].with_parent(x)) == linked);
    let count = after.blocks[x as int].head_ref_count;
    assert(after.blocks =~= linked.update(x as int, linked[x as int].with_count(count)));
    count
}

/// The lowest block of a branch that waits for `x` is a child of `x`.
proof fn lemma_pending_child(t: Tips, u: Tips, prev: Seq<BlockHash>, slot: int, x: u32)
    requires
        tips::link_pending(u, slot, x),
        fit::parents_known(t, prev),
        0 <= slot < t.heads.len(),
        u.heads[slot] == t.heads[slot],
    ensures
        ({
            let c = u.heads[slot].tail_or_connection_idx;
            &&& tree::present(u.blocks, c)
            &&& c != x
            &&& u.blocks[c as int].parent_ref == NONE_REF
            &&& u.blocks[c as int].sequence == u.blocks[x as int].sequence + 1
            &&& prev[c as int] == u.blocks[x as int].hash
        }),
{
    assert(t.heads[slot].in_use());
    assert(fit::knows_its_parent(t.heads[slot], prev));
}

proof fn lemma_linked_step(
    t: Tips,
    u: Tips,
    prev: Seq<BlockHash>,
    active_head: u32,
    x: u32,
    slot: int,
)
    requires
        linking(t, u, prev, active_head, x, slot),
        fit::parents_known(t, prev),
        tree::present(t.blocks, x),
        fit::table_fits(t.heads),
        0 <= slot < t.heads.len(),
        tips::link_pending(u, slot, x),
    ensures
        linking(t, tips::tail_linked(u, slot, x), prev, active_head, x, slot + 1),
{
    reveal(linking);
    let after = tips::tail_linked(u, slot, x);
    let c = u.heads[slot].tail_or_connection_idx;
    let s = u.blocks;
    let linked = s.update(c as int, s[c as int].with_parent(x));
    assert(u.heads[slot].in_use());
    assert(tree::present(s, x)) by {
        assert(s[x as int].occupied() == t.blocks[x as int].occupied());
    }
    lemma_pending_child(t, u, prev, slot, x);
    let count = lemma_tail_linked(u, slot, x);
    assert(fit::linked(after.blocks, prev) && fit::complete(after.blocks, prev, x) && fit::marked(
        after.blocks,
        active_head,
    )) by {
        lemma_link(s, prev, active_head, x, c);
        lemma_recount(linked, prev, active_head, x, x, count);
    }
    assert(rewired(t.blocks, after.blocks, prev, x)) by {
        lemma_rewired_more(t.blocks, s, prev, x, c, count);
    }
    assert(fit::tips_are_leaves(after, Set::empty()) && fit::counted(after, Set::empty())) by {
        lemma_child_gained(u, after, prev, active_head, x, c);
    }
    assert(forall|i: int| 0 <= i < slot + 1 ==> !#[trigger] tips::link_pending(after, i, x)) by {
        lemma_passed(u, slot, x);
    }
    assert(after.heads.len() == t.heads.len() && forall|i: int|
        0 <= i < t.heads.len() && (#[trigger] after.heads[i]).in_use() ==> after.heads[i]
            == t.heads[i]) by {
        fit::lemma_head_slot(u.heads, x, 0);
        assert forall|i: int|
            0 <= i < t.heads.len() && (#[trigger] after.heads[i]).in_use() implies after.heads[i]
            == t.heads[i] by {
            assert(u.heads[i].in_use());
        }
    }
}

proof fn lemma_link_skipped(
    t: Tips,
    u: Tips,
    prev: Seq<BlockHash>,
    active_head: u32,
    x: u32,
    slot: int,
)
    requires
        linking(t, u, prev, active_head, x, slot),
        !tips::link_pending(u, slot, x),
    ensures
        linking(t, tips::tail_linked(u, slot, x), prev, active_head, x, slot + 1),
{
    reveal(linking);
}

proof fn lemma_all_linked(
    t: Tips,
    u: Tips,
    prev: Seq<BlockHash>,
    active_head: u32,
    x: u32,
    slot: int,
)
    requires
        linking(t, u, prev, active_head, x, slot),
        fit::parents_known(t, prev),
        tree::present(t.blocks, x),
        fit::table_fits(t.heads),
        0 <= slot <= t.heads.len(),
    ensures
        linking(
            t,
            tips::tails_linked(u, slot, t.heads.len() as int, x),
            prev,
            active_head,
            x,
            t.heads.len() as int,
        ),
    decreases t.heads.len() - slot,
{
    if slot < t.heads.len() {
        if tips::link_pending(u, slot, x) {
            lemma_linked_step(t, u, prev, active_head, x, slot);
        } else {
            lemma_link_skipped(t, u, prev, active_head, x, slot);
        }
        lemma_all_linked(t, tips::tail_linked(u, slot, x), prev, active_head, x, slot + 1);
    }
}

/// Once every waiting branch was looked at, no link to `x` is open.
proof fn lemma_none_open(t: Tips, u: Tips, prev: Seq<BlockHash>, active_head: u32, x: u32)
    requires
        linking(t, u, prev, active_head, x, t.heads.len() as int),
        fit::linked(t.blocks, prev),
        fit::ends_known(t),
        fit::parents_known(t, prev),
        tree::present(t.blocks, x),
    ensures
        fit::complete(u.blocks, prev, NONE_REF),
{
    reveal(linking);
    let s = u.blocks;
    assert forall|i: int, j: int|
        0 <= i < s.len() && 0 <= j < s.len() && (#[trigger] s[i]).occupied() && s[i].parent_ref
            == NONE_REF && (#[trigger] s[j]).occupied() && s[j].sequence + 1 == s[i].sequence
            && s[j].hash == prev[i] implies j == NONE_REF by {
        assert(j == x);
        assert(t.blocks[i].occupied());
        let idx = i as u32;
        let tip = fit::lemma_tip_above(u, prev, active_head, Set::empty(), idx);
        fit::lemma_anchor_of_descendant(s, prev, active_head, tip, idx, s.len());
        fit::lemma_anchor_step(s, prev, idx);
        let slot = choose|slot: int|
            0 <= slot < u.heads.len() && (#[trigger] u.heads[slot]).in_use()
                && u.heads[slot].head_idx == tip;
        assert(u.heads[slot] == t.heads[slot]);
        assert(s[tip as int].occupied());
        assert(tree::present(t.blocks, tip));
        lemma_rewired(t.blocks, s, prev, x, tip);
        lemma_anchor_end(t.blocks, prev, x);
        assert(tips::tip_anchor(t.blocks, tip) == Anchor::Tail(idx));
        assert(fit::knows_its_end(t.heads[slot], t.blocks));
        assert(fit::knows_its_parent(t.heads[slot], prev));
        assert(tips::link_pending(u, slot, x));
    }
}

/// What the tips know once those that waited for `x` are classified anew, the
/// slots below `done` first.
pub open spec fn refreshing(
    u: Tips,
    heads: Seq<ChainHeadEntry>,
    prev: Seq<BlockHash>,
    done: int,
) -> bool {
    &&& heads.len() == u.heads.len()
    &&& forall|slot: int|
        0 <= slot < heads.len() ==> {
            &&& (#[trigger] heads[slot]).head_idx == u.heads[slot].head_idx
            &&& done <= slot ==> heads[slot] == u.heads[slot]
            &&& slot < done && heads[slot].in_use() ==> fit::knows_its_end(heads[slot], u.blocks)
                && fit::knows_its_parent(heads[slot], prev)
        }
}

/// What a tip knows once the branches that waited for `x` are attached: one that
/// waited for it knows when it is classified anew, every other one knew already.
proof fn lemma_waiter(
    before: Seq<BlockEntry>,
    after: Seq<BlockEntry>,
    prev: Seq<BlockHash>,
    x: u32,
    heads: Seq<ChainHeadEntry>,
    slot: int,
    known_idx: u32,
    known_hash: BlockHash,
)
    requires
        fit::linked(before, prev),
        fit::linked(after, prev),
        rewired(before, after, prev, x),
        tree::present(before, x),
        known_idx < prev.len(),
        known_hash == prev[known_idx as int],
        tips::tip_anchor(before, x) matches Anchor::Tail(idx) ==> idx == known_idx,
        heads[slot].in_use(),
        tree::present(before, heads[slot].head_idx),
        fit::knows_its_end(heads[slot], before),
        fit::knows_its_parent(heads[slot], prev),
    ensures
        if heads[slot].waiting() && heads[slot].missing_parent_hash == before[x as int].hash {
            fit::knows_its_parent(
                tips::refreshed(heads, after, slot, known_idx, known_hash),
                prev,
            )
        } else {
            fit::knows_its_end(heads[slot], after)
        },
{
    let entry = heads[slot];
    let h = entry.head_idx;
    lemma_rewired(before, after, prev, x, h);
    lemma_anchor_end(before, prev, h);
    assert(after[h as int].occupied() == before[h as int].occupied());
    lemma_anchor_end(after, prev, h);
    lemma_refreshed(heads, after, slot, known_idx, known_hash);
    if let Anchor::Tail(idx) = tips::tip_anchor(before, h) {
        assert(after[idx as int].occupied() == before[idx as int].occupied());
    }
}

#[verifier::spinoff_prover]
#[verifier::rlimit(60)]
proof fn lemma_waiters_refreshed(
    t: Tips,
    u: Tips,
    heads: Seq<ChainHeadEntry>,
    prev: Seq<BlockHash>,
    active_head: u32,
    x: u32,
    slot: int,
    known_idx: u32,
    known_hash: BlockHash,
)
    requires
        linking(t, u, prev, active_head, x, t.heads.len() as int),
        fit::linked(t.blocks, prev),
        fit::ends_known(t),
        fit::parents_known(t, prev),
        tree::present(t.blocks, x),
        known_idx < prev.len(),
        known_hash == prev[known_idx as int],
        tips::tip_anchor(t.blocks, x) matches Anchor::Tail(idx) ==> idx == known_idx,
        refreshing(u, heads, prev, slot),
        0 <= slot <= heads.len(),
    ensures
        refreshing(
            u,
            tips::waiters_refreshed(
                heads,
                u.blocks,
                slot,
                heads.len() as int,
                t.blocks[x as int].hash,
                known_idx,
                known_hash,
            ),
            prev,
            heads.len() as int,
        ),
    decreases heads.len() - slot,
{
    if slot < heads.len() {
        reveal(linking);
        let x_hash = t.blocks[x as int].hash;
        let entry = heads[slot];
        assert(entry == u.heads[slot]);
        let waits = entry.waiting() && entry.missing_parent_hash == x_hash;
        let fresh = tips::refreshed(heads, u.blocks, slot, known_idx, known_hash);
        assert(entry.in_use() ==> if waits {
            fit::knows_its_parent(fresh, prev)
        } else {
            fit::knows_its_end(entry, u.blocks) && fit::knows_its_parent(entry, prev)
        }) by {
            if entry.in_use() {
                assert(entry == t.heads[slot]);
                assert(fit::knows_its_end(entry, t.blocks) && fit::knows_its_parent(entry, prev));
                let h = entry.head_idx;
                assert(tree::present(u.blocks, h));
                assert(u.blocks[h as int].occupied() == t.blocks[h as int].occupied());
                lemma_waiter(
                    t.blocks,
                    u.blocks,
                    prev,
                    x,
                    heads,
                    slot,
                    known_idx,
                    known_hash,
                );
            }
        }
        let next = if waits {
            heads.update(slot, fresh)
        } else {
            heads
        };
        assert(refreshing(u, next, prev, slot + 1)) by {
            lemma_refreshed(heads, u.blocks, slot, known_idx, known_hash);
        }
        lemma_waiters_refreshed(
            t,
            u,
            next,
            prev,
            active_head,
            x,
            slot + 1,
            known_idx,
            known_hash,
        );
    }
}

/// Attaching the branches that waited for a block makes the tree coherent.
proof fn lemma_tails_resolved(
    t: Tips,
    prev: Seq<BlockHash>,
    active_head: u32,
    x: u32,
    x_prev_hash: BlockHash,
)
    requires
        fit::settled(t, prev, active_head, x, Set::empty()),
        fit::parents_known(t, prev),
        fit::is_tip(t.heads, x),
        prev[x as int] == x_prev_hash,
        fit::table_fits(t.heads),
    ensures
        fit::coherent(tips::tails_resolved(t, x, x_prev_hash), prev, active_head),
        tips::tails_resolved(t, x, x_prev_hash).heads.len() == t.heads.len(),
{
    let end = t.heads.len() as int;
    let (known_idx, known_hash) = tips::branch_end(t.heads, x, x_prev_hash);
    fit::lemma_head_slot(t.heads, x, 0);
    let own = tips::head_slot(t.heads, x, 0)->0;
    assert(t.heads[own].in_use());
    assert(tree::present(t.blocks, x));
    assert(fit::knows_its_end(t.heads[own], t.blocks));
    assert(fit::knows_its_parent(t.heads[own], prev));
    assert(linking(t, t, prev, active_head, x, 0)) by {
        reveal(linking);
    }
    lemma_all_linked(t, t, prev, active_head, x, 0);
    let u = tips::tails_linked(t, 0, end, x);
    lemma_none_open(t, u, prev, active_head, x);
    assert(u.heads.len() == t.heads.len()) by {
        reveal(linking);
    }
    assert(refreshing(u, u.heads, prev, 0));
    lemma_waiters_refreshed(t, u, u.heads, prev, active_head, x, 0, known_idx, known_hash);
    reveal(linking);
    let after = tips::tails_resolved(t, x, x_prev_hash);
    let heads = after.heads;
    assert(after.blocks == u.blocks);
    assert(refreshing(u, heads, prev, end));
    assert forall|idx: u32| #[trigger] fit::is_tip(heads, idx) == fit::is_tip(u.heads, idx) by {
        if fit::is_tip(heads, idx) {
            let i = choose|i: int|
                0 <= i < heads.len() && (#[trigger] heads[i]).in_use() && heads[i].head_idx == idx;
            assert(u.heads[i].in_use() && u.heads[i].head_idx == idx);
        }
        if fit::is_tip(u.heads, idx) {
            let i = choose|i: int|
                0 <= i < u.heads.len() && (#[trigger] u.heads[i]).in_use() && u.heads[i].head_idx
                    == idx;
            assert(heads[i].in_use() && heads[i].head_idx == idx);
        }
    }
    let none = Set::<u32>::empty();
    assert(fit::tips_are_leaves(after, none)) by {
        assert forall|i: int| 0 <= i < heads.len() && (#[trigger] heads[i]).in_use() implies {
            &&& tree::present(u.blocks, heads[i].head_idx)
            &&& tree::childless(u.blocks, heads[i].head_idx)
            &&& !none.contains(heads[i].head_idx)
        } by {
            assert(u.heads[i].in_use());
        }
        assert forall|a: int, b: int|
            0 <= a < b < heads.len() && (#[trigger] heads[a]).in_use() && (
            #[trigger] heads[b]).in_use() implies heads[a].head_idx != heads[b].head_idx by {
            assert(u.heads[a].in_use() && u.heads[b].in_use());
        }
    }
    assert(fit::counted(after, none)) by {
        assert forall|i: int|
            0 <= i < u.blocks.len() && (#[trigger] u.blocks[i]).occupied()
                && !u.blocks[i].active() implies u.blocks[i].head_ref_count == fit::branches(
            after,
            none,
            i as u32,
        ) by {
            assert(u.blocks[i].head_ref_count == fit::branches(u, none, i as u32));
        }
    }
}

/// A coherent tree that takes in a block, linked to its parent where that is
/// there, is coherent again.
pub(crate) proof fn lemma_block_admitted(
    t: Tips,
    prev: Seq<BlockHash>,
    active_head: u32,
    x: u32,
    entry: BlockEntry,
    prev_hash: BlockHash,
    arrival: u64,
)
    requires
        entering(t, prev, active_head, x, entry, prev_hash),
        fit::table_fits(t.heads),
    ensures
        ({
            let head = anchored(active_head, x, entry);
            let after = tips::block_admitted(
                Tips { heads: t.heads, blocks: t.blocks.update(x as int, entry) },
                x,
                tree::parent_slot(t.blocks, prev_hash, entry.sequence),
                prev_hash,
                arrival,
                head,
            );
            &&& fit::coherent(after, prev.update(x as int, prev_hash), head)
            &&& after.heads.len() == t.heads.len()
        }),
{
    lemma_tip_admitted(t, prev, active_head, x, entry, prev_hash, arrival);
    let now = prev.update(x as int, prev_hash);
    let head = anchored(active_head, x, entry);
    let placed = tips::tip_admitted(
        Tips { heads: t.heads, blocks: t.blocks.update(x as int, entry) },
        x,
        tree::parent_slot(t.blocks, prev_hash, entry.sequence),
        prev_hash,
        arrival,
        head,
    );
    lemma_tails_resolved(placed, now, head, x, prev_hash);
}

} // verus!
