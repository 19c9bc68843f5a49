//! How the block-tree and its tips fit together while the node collects.
//!
//! Every parent that is in the tree is linked, every branch has its tip in the
//! table, every branch count is the number of branches that leave the block,
//! and every tip knows the end of its branch. Each step of a collecting node
//! keeps this. What the tips say of the tree is therefore true of it: the
//! candidates are whole segments, and the parents asked for are the missing
//! ones.

use vstd::prelude::*;
use vstd::set_lib::*;

use crate::ancestry;
use crate::blocks as tree;
use crate::blocks::{BlockEntry, NONE_REF};
use crate::chain_heads as tips;
use crate::chain_heads::{Anchor, ChainHeadEntry, Tips};
use crate::hash::BlockHash;
use crate::tip_laws;

verus! {

// -- Children ----------------------------------------------------------------

/// Whether the entry is a block whose parent is `idx`.
pub open spec fn child_of(entry: BlockEntry, idx: u32) -> bool {
    entry.occupied() && entry.parent_ref == idx
}

/// `1` where the condition holds.
pub open spec fn one_if(condition: bool) -> int {
    if condition {
        1
    } else {
        0
    }
}

/// Number of children of `idx`.
pub open spec fn kids(s: Seq<BlockEntry>, idx: u32) -> int
    decreases s.len(),
{
    if s.len() == 0 {
        0
    } else {
        kids(s.drop_last(), idx) + one_if(child_of(s.last(), idx))
    }
}

pub(crate) proof fn lemma_kids_update(s: Seq<BlockEntry>, j: int, entry: BlockEntry, idx: u32)
    requires
        0 <= j < s.len(),
    ensures
        kids(s.update(j, entry), idx) == kids(s, idx) + one_if(child_of(entry, idx)) - one_if(
            child_of(s[j], idx),
        ),
    decreases s.len(),
{
    let after = s.update(j, entry);
    if j == s.len() - 1 {
        assert(after.drop_last() =~= s.drop_last());
    } else {
        assert(after.drop_last() =~= s.drop_last().update(j, entry));
        lemma_kids_update(s.drop_last(), j, entry, idx);
    }
}

pub(crate) proof fn lemma_kids_same(s: Seq<BlockEntry>, other: Seq<BlockEntry>, idx: u32)
    requires
        s.len() == other.len(),
        forall|j: int| 0 <= j < s.len() ==> child_of(#[trigger] s[j], idx) == child_of(other[j], idx),
    ensures
        kids(s, idx) == kids(other, idx),
    decreases s.len(),
{
    if s.len() > 0 {
        assert forall|j: int| 0 <= j < s.len() - 1 implies child_of(
            #[trigger] s.drop_last()[j],
            idx,
        ) == child_of(other.drop_last()[j], idx) by {
            assert(s[j] == s.drop_last()[j]);
        }
        assert(s[s.len() - 1] == s.last());
        lemma_kids_same(s.drop_last(), other.drop_last(), idx);
    }
}

pub(crate) proof fn lemma_kids_childless(s: Seq<BlockEntry>, idx: u32)
    ensures
        kids(s, idx) >= 0,
        (kids(s, idx) == 0) == tree::childless(s, idx),
    decreases s.len(),
{
    if s.len() > 0 {
        let rest = s.drop_last();
        lemma_kids_childless(rest, idx);
        assert forall|i: int| 0 <= i < rest.len() implies #[trigger] rest[i] == s[i] by {}
        if tree::childless(s, idx) {
            assert(s[s.len() - 1] == s.last());
            assert(tree::childless(rest, idx)) by {
                assert forall|i: int|
                    0 <= i < rest.len() && (#[trigger] rest[i]).occupied() implies rest[i].parent_ref
                    != idx by {
                    assert(s[i].occupied());
                }
            }
        } else {
            let i = choose|i: int|
                0 <= i < s.len() && (#[trigger] s[i]).occupied() && s[i].parent_ref == idx;
            if i < s.len() - 1 {
                assert(rest[i].occupied() && rest[i].parent_ref == idx);
            }
        }
    } else {
        assert(tree::childless(s, idx));
    }
}

// -- Walks along the links ---------------------------------------------------

/// Number of blocks at or below a sequence.
pub open spec fn below(s: Seq<BlockEntry>, sequence: int) -> nat
    decreases s.len(),
{
    if s.len() == 0 {
        0
    } else if s.last().occupied() && s.last().sequence <= sequence {
        below(s.drop_last(), sequence) + 1
    } else {
        below(s.drop_last(), sequence)
    }
}

pub(crate) proof fn lemma_below_bound(s: Seq<BlockEntry>, sequence: int)
    ensures
        below(s, sequence) <= s.len(),
        below(s, sequence - 1) <= below(s, sequence),
    decreases s.len(),
{
    if s.len() > 0 {
        lemma_below_bound(s.drop_last(), sequence);
    }
}

pub(crate) proof fn lemma_below_step(s: Seq<BlockEntry>, idx: u32)
    requires
        tree::present(s, idx),
    ensures
        below(s, s[idx as int].sequence - 1) + 1 <= below(s, s[idx as int].sequence as int),
    decreases s.len(),
{
    let sequence = s[idx as int].sequence as int;
    let rest = s.drop_last();
    if idx < s.len() - 1 {
        assert(rest[idx as int] == s[idx as int]);
        lemma_below_step(rest, idx);
    } else {
        lemma_below_bound(rest, sequence);
    }
}

/// Every link leads to a block of the tree: the one at the sequence below with
/// the previous hash, `prev` of it.
pub open spec fn linked(s: Seq<BlockEntry>, prev: Seq<BlockHash>) -> bool {
    &&& s.len() <= NONE_REF
    &&& prev.len() == s.len()
    &&& forall|i: int|
        0 <= i < s.len() && s[i].occupied() && #[trigger] s[i].parent_ref != NONE_REF ==> {
            &&& tree::present(s, s[i].parent_ref)
            &&& s[s[i].parent_ref as int].sequence + 1 == s[i].sequence
            &&& s[s[i].parent_ref as int].hash == prev[i]
        }
}

/// A walk to the end of a branch does not depend on how it was entered, nor on
/// the bound of its length, where that is large enough.
pub(crate) proof fn lemma_anchor_steps(
    s: Seq<BlockEntry>,
    prev: Seq<BlockHash>,
    cur: u32,
    one: u32,
    other: u32,
    few: nat,
    many: nat,
)
    requires
        linked(s, prev),
        tree::present(s, cur),
        few >= below(s, s[cur as int].sequence as int),
        many >= below(s, s[cur as int].sequence as int),
    ensures
        tips::anchor_of(s, cur, one, few) == tips::anchor_of(s, cur, other, many),
    decreases s[cur as int].sequence,
{
    lemma_below_step(s, cur);
    let entry = s[cur as int];
    if !entry.active() && entry.parent_ref != NONE_REF {
        lemma_anchor_steps(
            s,
            prev,
            entry.parent_ref,
            cur,
            cur,
            (few - 1) as nat,
            (many - 1) as nat,
        );
    }
}

/// The end of a branch, one step at a time.
pub(crate) proof fn lemma_anchor_step(s: Seq<BlockEntry>, prev: Seq<BlockHash>, cur: u32)
    requires
        linked(s, prev),
        tree::present(s, cur),
    ensures
        tips::tip_anchor(s, cur) == if s[cur as int].active() {
            Anchor::Connection(cur)
        } else if s[cur as int].parent_ref == NONE_REF {
            Anchor::Tail(cur)
        } else {
            tips::tip_anchor(s, s[cur as int].parent_ref)
        },
{
    let entry = s[cur as int];
    if !entry.active() && entry.parent_ref != NONE_REF {
        lemma_below_step(s, cur);
        lemma_below_bound(s, entry.sequence as int);
        lemma_anchor_steps(
            s,
            prev,
            entry.parent_ref,
            cur,
            entry.parent_ref,
            (s.len() - 1) as nat,
            s.len(),
        );
    }
}

/// `part` holds blocks of `whole` alone, with the same links and marks.
pub open spec fn part_of(part: Seq<BlockEntry>, whole: Seq<BlockEntry>) -> bool {
    &&& part.len() == whole.len()
    &&& forall|i: int|
        0 <= i < part.len() && (#[trigger] part[i]).occupied() ==> {
            &&& whole[i].occupied()
            &&& whole[i].parent_ref == part[i].parent_ref
            &&& whole[i].active() == part[i].active()
            &&& whole[i].sequence == part[i].sequence
            &&& whole[i].hash == part[i].hash
        }
}

/// A branch that is left whole ends where it did.
pub(crate) proof fn lemma_anchor_part(
    part: Seq<BlockEntry>,
    whole: Seq<BlockEntry>,
    prev: Seq<BlockHash>,
    cur: u32,
)
    requires
        part_of(part, whole),
        linked(part, prev),
        linked(whole, prev),
        tree::present(part, cur),
    ensures
        tips::tip_anchor(part, cur) == tips::tip_anchor(whole, cur),
    decreases part[cur as int].sequence,
{
    lemma_anchor_step(part, prev, cur);
    assert(part[cur as int].occupied());
    lemma_anchor_step(whole, prev, cur);
    let entry = part[cur as int];
    if !entry.active() && entry.parent_ref != NONE_REF {
        lemma_anchor_part(part, whole, prev, entry.parent_ref);
    }
}

// -- Coherence ---------------------------------------------------------------

/// Every parent that is in the tree is linked, but for the links to `open`.
pub open spec fn complete(s: Seq<BlockEntry>, prev: Seq<BlockHash>, open: u32) -> bool {
    forall|i: int, j: int|
        0 <= i < s.len() && 0 <= j < s.len() && (#[trigger] s[i]).occupied() && s[i].parent_ref
            == NONE_REF && (#[trigger] s[j]).occupied() && s[j].sequence + 1 == s[i].sequence
            && s[j].hash == prev[i] ==> j == open
}

/// The active chain is the first block of the chain, if that is held.
pub open spec fn marked(s: Seq<BlockEntry>, active_head: u32) -> bool {
    &&& forall|i: int|
        0 <= i < s.len() && (#[trigger] s[i]).occupied() ==> {
            &&& s[i].active() == (s[i].sequence == 0)
            &&& s[i].sequence == 0 ==> active_head == i
        }
    &&& active_head != NONE_REF ==> tree::present(s, active_head) && s[active_head as int].sequence
        == 0
}

/// Whether `idx` is a tracked tip.
pub open spec fn is_tip(heads: Seq<ChainHeadEntry>, idx: u32) -> bool {
    exists|slot: int|
        0 <= slot < heads.len() && (#[trigger] heads[slot]).in_use() && heads[slot].head_idx == idx
}

/// The tips are the childless blocks: each tip is one, no two are the same, and
/// every childless block off the active chain is a tip, but for those in `late`.
pub open spec fn tips_are_leaves(t: Tips, late: Set<u32>) -> bool {
    &&& forall|slot: int|
        0 <= slot < t.heads.len() && (#[trigger] t.heads[slot]).in_use() ==> {
            &&& tree::present(t.blocks, t.heads[slot].head_idx)
            &&& tree::childless(t.blocks, t.heads[slot].head_idx)
            &&& !late.contains(t.heads[slot].head_idx)
        }
    &&& forall|a: int, b: int|
        0 <= a < b < t.heads.len() && (#[trigger] t.heads[a]).in_use() && (
        #[trigger] t.heads[b]).in_use() ==> t.heads[a].head_idx != t.heads[b].head_idx
    &&& forall|idx: u32|
        #[trigger] late.contains(idx) ==> tree::present(t.blocks, idx) && tree::childless(
            t.blocks,
            idx,
        )
    &&& forall|i: int|
        0 <= i < t.blocks.len() && (#[trigger] t.blocks[i]).occupied() && !t.blocks[i].active()
            && tree::childless(t.blocks, i as u32) ==> is_tip(t.heads, i as u32) || late.contains(
            i as u32,
        )
}

/// The number of branches that leave `idx`: one to each child, and one more
/// where it is a tip or in `late`.
pub open spec fn branches(t: Tips, late: Set<u32>, idx: u32) -> int {
    kids(t.blocks, idx) + one_if(is_tip(t.heads, idx)) + one_if(late.contains(idx))
}

/// Off the active chain, every branch count is the number of branches that
/// leave the block.
pub open spec fn counted(t: Tips, late: Set<u32>) -> bool {
    forall|i: int|
        0 <= i < t.blocks.len() && (#[trigger] t.blocks[i]).occupied() && !t.blocks[i].active()
            ==> t.blocks[i].head_ref_count == branches(t, late, i as u32)
}

/// Whether the tip entry tells the end of its branch.
pub open spec fn knows_its_end(entry: ChainHeadEntry, blocks: Seq<BlockEntry>) -> bool {
    match tips::tip_anchor(blocks, entry.head_idx) {
        Anchor::Connection(idx) => entry.connected() && entry.tail_or_connection_idx == idx,
        Anchor::Tail(idx) => !entry.connected() && entry.tail_or_connection_idx == idx,
    }
}

/// Every tip tells the end of its branch.
pub open spec fn ends_known(t: Tips) -> bool {
    forall|slot: int|
        0 <= slot < t.heads.len() && (#[trigger] t.heads[slot]).in_use() ==> knows_its_end(
            t.heads[slot],
            t.blocks,
        )
}

/// Whether the tip entry, if its branch waits for a parent, holds the hash of
/// that parent.
pub open spec fn knows_its_parent(entry: ChainHeadEntry, prev: Seq<BlockHash>) -> bool {
    entry.waiting() ==> entry.tail_or_connection_idx < prev.len() && entry.missing_parent_hash
        == prev[entry.tail_or_connection_idx as int]
}

/// Every tip whose branch waits for a parent holds the hash of that parent.
pub open spec fn parents_known(t: Tips, prev: Seq<BlockHash>) -> bool {
    forall|slot: int|
        0 <= slot < t.heads.len() && (#[trigger] t.heads[slot]).in_use() ==> knows_its_parent(
            t.heads[slot],
            prev,
        )
}

/// The tree and its tips fit together. `prev` is the previous hash of the block
/// in each slot.
pub open spec fn coherent(t: Tips, prev: Seq<BlockHash>, active_head: u32) -> bool {
    &&& linked(t.blocks, prev)
    &&& complete(t.blocks, prev, NONE_REF)
    &&& marked(t.blocks, active_head)
    &&& tips_are_leaves(t, Set::empty())
    &&& counted(t, Set::empty())
    &&& ends_known(t)
    &&& parents_known(t, prev)
}

/// The table has room for two tips at least, and a branch count can hold a
/// branch to each of its tips.
pub open spec fn table_fits(heads: Seq<ChainHeadEntry>) -> bool {
    2 <= heads.len() <= 253
}

pub(crate) proof fn lemma_head_slot(heads: Seq<ChainHeadEntry>, idx: u32, from: int)
    requires
        0 <= from,
    ensures
        match tips::head_slot(heads, idx, from) {
            Some(slot) => from <= slot < heads.len() && heads[slot].in_use() && heads[slot].head_idx
                == idx,
            None => forall|slot: int|
                from <= slot < heads.len() && (#[trigger] heads[slot]).in_use()
                    ==> heads[slot].head_idx != idx,
        },
        from == 0 ==> (tips::head_slot(heads, idx, from) is Some) == is_tip(heads, idx),
    decreases heads.len() - from,
{
    if from < heads.len() && !(heads[from].in_use() && heads[from].head_idx == idx) {
        lemma_head_slot(heads, idx, from + 1);
    }
}

pub(crate) proof fn lemma_vacant_slot(heads: Seq<ChainHeadEntry>, from: int)
    requires
        0 <= from,
    ensures
        match tips::vacant_slot(heads, from) {
            Some(slot) => from <= slot < heads.len() && !heads[slot].in_use(),
            None => forall|slot: int| from <= slot < heads.len() ==> (#[trigger] heads[slot]).in_use(),
        },
    decreases heads.len() - from,
{
    if from < heads.len() && heads[from].in_use() {
        lemma_vacant_slot(heads, from + 1);
    }
}

pub(crate) proof fn lemma_tip_count(heads: Seq<ChainHeadEntry>)
    ensures
        tips::tip_count(heads) <= heads.len(),
        (tips::tip_count(heads) == heads.len()) == (forall|slot: int|
            0 <= slot < heads.len() ==> (#[trigger] heads[slot]).in_use()),
    decreases heads.len(),
{
    if heads.len() > 0 {
        let rest = heads.drop_last();
        lemma_tip_count(rest);
        assert(heads[heads.len() - 1] == heads.last());
        assert forall|slot: int| 0 <= slot < rest.len() implies #[trigger] rest[slot] == heads[slot] by {}
        if forall|slot: int| 0 <= slot < heads.len() ==> (#[trigger] heads[slot]).in_use() {
            assert forall|slot: int| 0 <= slot < rest.len() implies (#[trigger] rest[slot]).in_use() by {
                assert(heads[slot].in_use());
            }
        }
        if tips::tip_count(heads) == heads.len() {
            assert forall|slot: int| 0 <= slot < heads.len() implies (
            #[trigger] heads[slot]).in_use() by {
                if slot < rest.len() {
                    assert(rest[slot].in_use());
                }
            }
        }
    }
}

pub(crate) proof fn lemma_descends_to_parent(s: Seq<BlockEntry>, idx: u32, child: u32, steps: nat)
    requires
        tree::descends(s, idx, child, steps),
        s[child as int].parent_ref != NONE_REF,
        tree::present(s, s[child as int].parent_ref),
    ensures
        tree::descends(s, idx, s[child as int].parent_ref, steps + 1),
    decreases steps,
{
    let parent = s[child as int].parent_ref;
    if idx == child {
        assert(tree::descends(s, parent, parent, steps));
    } else if idx != parent {
        lemma_descends_to_parent(s, s[idx as int].parent_ref, child, (steps - 1) as nat);
    }
}

/// Above every block off the active chain there is a tip.
pub(crate) proof fn lemma_tip_above(
    t: Tips,
    prev: Seq<BlockHash>,
    active_head: u32,
    late: Set<u32>,
    idx: u32,
) -> (tip: u32)
    requires
        linked(t.blocks, prev),
        marked(t.blocks, active_head),
        tips_are_leaves(t, late),
        tree::present(t.blocks, idx),
        !t.blocks[idx as int].active(),
    ensures
        is_tip(t.heads, tip) || late.contains(tip),
        tree::descends(t.blocks, tip, idx, t.blocks.len()),
    decreases NONE_REF - t.blocks[idx as int].sequence,
{
    let s = t.blocks;
    if tree::childless(s, idx) {
        assert(tree::descends(s, idx, idx, s.len()));
        idx
    } else {
        let c = choose|i: int|
            0 <= i < s.len() && (#[trigger] s[i]).occupied() && s[i].parent_ref == idx;
        assert(s[c].occupied());
        assert(tree::present(s, c as u32));
        let tip = lemma_tip_above(t, prev, active_head, late, c as u32);
        lemma_descends_to_parent(s, tip, c as u32, s.len());
        ancestry::bounded_walks_suffice(s, tip, idx, s.len() + 1);
        tip
    }
}

/// A branch ends where the blocks below end theirs.
pub(crate) proof fn lemma_anchor_of_descendant(
    s: Seq<BlockEntry>,
    prev: Seq<BlockHash>,
    active_head: u32,
    tip: u32,
    idx: u32,
    steps: nat,
)
    requires
        linked(s, prev),
        marked(s, active_head),
        tree::descends(s, tip, idx, steps),
    ensures
        tips::tip_anchor(s, tip) == tips::tip_anchor(s, idx),
    decreases steps,
{
    if tip != idx {
        assert(s[tip as int].occupied());
        lemma_anchor_step(s, prev, tip);
        lemma_anchor_of_descendant(
            s,
            prev,
            active_head,
            s[tip as int].parent_ref,
            idx,
            (steps - 1) as nat,
        );
    }
}

/// The children of `idx`.
pub open spec fn kid_set(s: Seq<BlockEntry>, idx: u32) -> Set<int> {
    Set::new(|j: int| 0 <= j < s.len() && child_of(s[j], idx))
}

pub(crate) proof fn lemma_kid_set(s: Seq<BlockEntry>, idx: u32)
    ensures
        kid_set(s, idx).finite(),
        kid_set(s, idx).len() == kids(s, idx),
    decreases s.len(),
{
    if s.len() == 0 {
        assert(kid_set(s, idx) =~= Set::<int>::empty());
    } else {
        let rest = s.drop_last();
        lemma_kid_set(rest, idx);
        let last = s.len() - 1;
        assert forall|j: int| kid_set(s, idx).contains(j) <==> kid_set(rest, idx).contains(j) || (j
            == last && child_of(s.last(), idx)) by {
            if 0 <= j < last {
                assert(rest[j] == s[j]);
            }
        }
        if child_of(s.last(), idx) {
            assert(kid_set(s, idx) =~= kid_set(rest, idx).insert(last));
        } else {
            assert(kid_set(s, idx) =~= kid_set(rest, idx));
        }
    }
}

/// One block has one ancestor at a sequence.
pub(crate) proof fn lemma_one_ancestor(
    s: Seq<BlockEntry>,
    prev: Seq<BlockHash>,
    tip: u32,
    one: u32,
    other: u32,
    few: nat,
    many: nat,
)
    requires
        linked(s, prev),
        tree::descends(s, tip, one, few),
        tree::descends(s, tip, other, many),
        s[one as int].sequence == s[other as int].sequence,
    ensures
        one == other,
        s[one as int].sequence <= s[tip as int].sequence,
    decreases few,
{
    assert(s[tip as int].occupied());
    if tip == one {
        if tip != other {
            lemma_descends_lower(s, prev, s[tip as int].parent_ref, other, (many - 1) as nat);
        }
    } else if tip == other {
        lemma_descends_lower(s, prev, s[tip as int].parent_ref, one, (few - 1) as nat);
    } else {
        lemma_one_ancestor(
            s,
            prev,
            s[tip as int].parent_ref,
            one,
            other,
            (few - 1) as nat,
            (many - 1) as nat,
        );
    }
}

/// An ancestor is never above.
pub(crate) proof fn lemma_descends_lower(
    s: Seq<BlockEntry>,
    prev: Seq<BlockHash>,
    tip: u32,
    idx: u32,
    steps: nat,
)
    requires
        linked(s, prev),
        tree::descends(s, tip, idx, steps),
    ensures
        s[idx as int].sequence <= s[tip as int].sequence,
    decreases steps,
{
    assert(s[tip as int].occupied());
    if tip != idx {
        lemma_descends_lower(s, prev, s[tip as int].parent_ref, idx, (steps - 1) as nat);
    }
}

/// A block has no more children than there are tips.
pub(crate) proof fn lemma_kids_bound(
    t: Tips,
    prev: Seq<BlockHash>,
    active_head: u32,
    late: Set<u32>,
    idx: u32,
)
    requires
        linked(t.blocks, prev),
        marked(t.blocks, active_head),
        tips_are_leaves(t, late),
        late.finite(),
        tree::present(t.blocks, idx),
    ensures
        kids(t.blocks, idx) <= t.heads.len() + late.len(),
{
    let s = t.blocks;
    let children = kid_set(s, idx);
    lemma_kid_set(s, idx);
    let known = Seq::new(t.heads.len(), |slot: int| t.heads[slot].head_idx);
    let all = known.to_set().union(late);
    known.lemma_cardinality_of_set();
    lemma_len_union(known.to_set(), late);
    let above = |c: int|
        choose|tip: u32| all.contains(tip) && tree::descends(s, tip, c as u32, s.len());
    assert forall|c: int| children.contains(c) implies all.contains(#[trigger] above(c))
        && tree::descends(s, above(c), c as u32, s.len()) by {
        assert(s[c].occupied());
        assert(tree::present(s, c as u32));
        let tip = lemma_tip_above(t, prev, active_head, late, c as u32);
        if is_tip(t.heads, tip) {
            let slot = choose|slot: int|
                0 <= slot < t.heads.len() && (#[trigger] t.heads[slot]).in_use()
                    && t.heads[slot].head_idx == tip;
            assert(known[slot] == tip);
        }
        assert(all.contains(tip));
    }
    assert forall|a: int, b: int|
        children.contains(a) && children.contains(b) && #[trigger] above(a) == #[trigger] above(
            b,
        ) implies a == b by {
        assert(s[a].occupied() && s[b].occupied());
        lemma_one_ancestor(s, prev, above(a), a as u32, b as u32, s.len(), s.len());
    }
    let image = children.map(above);
    lemma_map_size(children, image, above);
    assert(image.subset_of(all));
    lemma_len_subset(image, all);
}

// -- Eviction ----------------------------------------------------------------

pub(crate) proof fn lemma_below_part(part: Seq<BlockEntry>, whole: Seq<BlockEntry>, sequence: int)
    requires
        part_of(part, whole),
    ensures
        below(part, sequence) <= below(whole, sequence),
    decreases part.len(),
{
    if part.len() > 0 {
        assert(part[part.len() - 1] == part.last());
        assert forall|i: int|
            0 <= i < part.drop_last().len() && (
            #[trigger] part.drop_last()[i]).occupied() implies whole.drop_last()[i].occupied()
            && whole.drop_last()[i].parent_ref == part.drop_last()[i].parent_ref
            && whole.drop_last()[i].active() == part.drop_last()[i].active()
            && whole.drop_last()[i].sequence == part.drop_last()[i].sequence
            && whole.drop_last()[i].hash == part.drop_last()[i].hash by {
            assert(part[i].occupied());
        }
        lemma_below_part(part.drop_last(), whole.drop_last(), sequence);
    }
}

pub(crate) proof fn lemma_part_transitive(
    first: Seq<BlockEntry>,
    second: Seq<BlockEntry>,
    third: Seq<BlockEntry>,
)
    requires
        part_of(first, second),
        part_of(second, third),
    ensures
        part_of(first, third),
{
    assert forall|i: int| 0 <= i < first.len() && (#[trigger] first[i]).occupied() implies {
        &&& third[i].occupied()
        &&& third[i].parent_ref == first[i].parent_ref
        &&& third[i].active() == first[i].active()
        &&& third[i].sequence == first[i].sequence
        &&& third[i].hash == first[i].hash
    } by {
        assert(second[i].occupied());
    }
}

/// A part of a tree is linked as far as it keeps the parents.
pub(crate) proof fn lemma_part_complete(
    part: Seq<BlockEntry>,
    whole: Seq<BlockEntry>,
    prev: Seq<BlockHash>,
    open: u32,
)
    requires
        part_of(part, whole),
        complete(whole, prev, open),
    ensures
        complete(part, prev, open),
{
    assert forall|i: int, j: int|
        0 <= i < part.len() && 0 <= j < part.len() && (#[trigger] part[i]).occupied()
            && part[i].parent_ref == NONE_REF && (#[trigger] part[j]).occupied()
            && part[j].sequence + 1 == part[i].sequence && part[j].hash == prev[i] implies j
        == open by {
        assert(whole[i].occupied() && whole[j].occupied());
    }
}

/// The state in which one branch has been taken off, but is still counted at
/// `cur`.
pub open spec fn shedding(t: Tips, late: Set<u32>, cur: u32) -> bool {
    &&& tree::present(t.blocks, cur)
    &&& !is_tip(t.heads, cur)
    &&& !late.contains(cur)
    &&& forall|slot: int|
        0 <= slot < t.heads.len() && (#[trigger] t.heads[slot]).in_use() ==> {
            &&& tree::present(t.blocks, t.heads[slot].head_idx)
            &&& tree::childless(t.blocks, t.heads[slot].head_idx)
            &&& !late.contains(t.heads[slot].head_idx)
        }
    &&& forall|a: int, b: int|
        0 <= a < b < t.heads.len() && (#[trigger] t.heads[a]).in_use() && (
        #[trigger] t.heads[b]).in_use() ==> t.heads[a].head_idx != t.heads[b].head_idx
    &&& forall|idx: u32|
        #[trigger] late.contains(idx) ==> tree::present(t.blocks, idx) && tree::childless(
            t.blocks,
            idx,
        )
    &&& forall|i: int|
        0 <= i < t.blocks.len() && i != cur && (#[trigger] t.blocks[i]).occupied()
            && !t.blocks[i].active() ==> {
            &&& tree::childless(t.blocks, i as u32) ==> is_tip(t.heads, i as u32) || late.contains(
                i as u32,
            )
            &&& t.blocks[i].head_ref_count == branches(t, late, i as u32)
        }
    &&& !t.blocks[cur as int].active() ==> t.blocks[cur as int].head_ref_count == branches(
        t,
        late,
        cur,
    ) + 1
}

pub(crate) proof fn lemma_kids_recount(s: Seq<BlockEntry>, cur: u32, count: u8, idx: u32)
    requires
        tree::present(s, cur),
    ensures
        kids(s.update(cur as int, s[cur as int].with_count(count)), idx) == kids(s, idx),
        tree::childless(s.update(cur as int, s[cur as int].with_count(count)), idx)
            == tree::childless(s, idx),
{
    let after = s.update(cur as int, s[cur as int].with_count(count));
    lemma_kids_update(s, cur as int, s[cur as int].with_count(count), idx);
    lemma_kids_childless(s, idx);
    lemma_kids_childless(after, idx);
}

#[verifier::spinoff_prover]
#[verifier::rlimit(60)]
pub(crate) proof fn lemma_pruned(
    t: Tips,
    prev: Seq<BlockHash>,
    active_head: u32,
    open: u32,
    late: Set<u32>,
    cur: u32,
    steps: nat,
)
    requires
        linked(t.blocks, prev),
        complete(t.blocks, prev, open),
        marked(t.blocks, active_head),
        shedding(t, late, cur),
        steps >= below(t.blocks, t.blocks[cur as int].sequence as int),
    ensures
        ({
            let after = Tips { heads: t.heads, blocks: tips::pruned(t.blocks, cur, steps) };
            &&& linked(after.blocks, prev)
            &&& complete(after.blocks, prev, open)
            &&& marked(after.blocks, active_head)
            &&& tips_are_leaves(after, late)
            &&& counted(after, late)
            &&& part_of(after.blocks, t.blocks)
        }),
    decreases steps,
{
    let s = t.blocks;
    let entry = s[cur as int];
    lemma_below_step(s, cur);
    let count = tree::adjusted_count(entry.head_ref_count, -1i8);
    let fewer = s.update(cur as int, entry.with_count(count));
    assert(tree::recounted(s, cur, -1i8) == fewer);
    let lower = Tips { heads: t.heads, blocks: fewer };
    assert forall|idx: u32| #[trigger] kids(fewer, idx) == kids(s, idx) && tree::childless(
        fewer,
        idx,
    ) == tree::childless(s, idx) by {
        lemma_kids_recount(s, cur, count, idx);
    }
    assert(part_of(fewer, s));
    lemma_part_complete(fewer, s, prev, open);
    lemma_kids_childless(s, cur);
    assert(linked(fewer, prev)) by {
        assert forall|i: int|
            0 <= i < fewer.len() && (#[trigger] fewer[i]).occupied() && fewer[i].parent_ref
                != NONE_REF implies tree::present(fewer, fewer[i].parent_ref)
            && fewer[fewer[i].parent_ref as int].sequence + 1 == fewer[i].sequence
            && fewer[fewer[i].parent_ref as int].hash == prev[i] by {
            assert(s[i].occupied());
        }
    }
    assert(marked(fewer, active_head)) by {
        assert forall|i: int| 0 <= i < fewer.len() && (#[trigger] fewer[i]).occupied() implies {
            &&& fewer[i].active() == (fewer[i].sequence == 0)
            &&& fewer[i].sequence == 0 ==> active_head == i
        } by {
            assert(s[i].occupied());
        }
    }
    assert forall|i: int|
        0 <= i < fewer.len() && i != cur && (#[trigger] fewer[i]).occupied()
            && !fewer[i].active() implies {
        &&& tree::childless(fewer, i as u32) ==> is_tip(t.heads, i as u32) || late.contains(
            i as u32,
        )
        &&& fewer[i].head_ref_count == branches(lower, late, i as u32)
    } by {
        assert(s[i].occupied());
        assert(kids(fewer, i as u32) == kids(s, i as u32));
    }
    assert forall|idx: u32| #[trigger] late.contains(idx) implies tree::present(fewer, idx)
        && tree::childless(fewer, idx) by {}
    assert forall|slot: int| 0 <= slot < t.heads.len() && (#[trigger] t.heads[slot]).in_use() implies {
        &&& tree::present(fewer, t.heads[slot].head_idx)
        &&& tree::childless(fewer, t.heads[slot].head_idx)
        &&& !late.contains(t.heads[slot].head_idx)
    } by {}
    if entry.active() || count != 0 {
        assert(tips_are_leaves(lower, late));
        assert(counted(lower, late));
    } else {
        assert(kids(s, cur) == 0);
        let gone = fewer.update(cur as int, BlockEntry::vacant());
        assert(tree::released(fewer, cur) == gone);
        let rest = Tips { heads: t.heads, blocks: gone };
        assert forall|idx: u32| #[trigger] kids(gone, idx) == kids(s, idx) - one_if(
            entry.parent_ref == idx,
        ) && (tree::childless(gone, idx) == (kids(gone, idx) == 0)) by {
            lemma_kids_update(fewer, cur as int, BlockEntry::vacant(), idx);
            assert(kids(fewer, idx) == kids(s, idx));
            lemma_kids_childless(gone, idx);
        }
        assert forall|idx: u32| #[trigger] tree::childless(s, idx) == (kids(s, idx) == 0) by {
            lemma_kids_childless(s, idx);
        }
        assert(part_of(gone, s));
        lemma_part_complete(gone, s, prev, open);
        assert(tree::childless(s, cur));
        assert(linked(gone, prev)) by {
            assert forall|i: int|
                0 <= i < gone.len() && (#[trigger] gone[i]).occupied() && gone[i].parent_ref
                    != NONE_REF implies tree::present(gone, gone[i].parent_ref)
                && gone[gone[i].parent_ref as int].sequence + 1 == gone[i].sequence
                && gone[gone[i].parent_ref as int].hash == prev[i] by {
                assert(s[i].occupied());
                assert(s[i].parent_ref != cur);
            }
        }
        assert(marked(gone, active_head)) by {
            assert forall|i: int| 0 <= i < gone.len() && (#[trigger] gone[i]).occupied() implies {
                &&& gone[i].active() == (gone[i].sequence == 0)
                &&& gone[i].sequence == 0 ==> active_head == i
            } by {
                assert(s[i].occupied());
            }
            if active_head != NONE_REF {
                assert(s[active_head as int].occupied());
                assert(active_head != cur);
            }
        }
        assert forall|slot: int|
            0 <= slot < t.heads.len() && (#[trigger] t.heads[slot]).in_use() implies {
            &&& tree::present(gone, t.heads[slot].head_idx)
            &&& tree::childless(gone, t.heads[slot].head_idx)
            &&& !late.contains(t.heads[slot].head_idx)
        } by {
            assert(t.heads[slot].head_idx != cur);
            let head = t.heads[slot].head_idx;
            assert(tree::childless(s, head));
            assert(entry.parent_ref != head) by {
                assert(s[cur as int].occupied());
            }
            assert(kids(gone, head) == kids(s, head) - one_if(entry.parent_ref == head));
        }
        assert forall|idx: u32| #[trigger] late.contains(idx) implies tree::present(gone, idx)
            && tree::childless(gone, idx) by {
            assert(tree::childless(s, idx));
            assert(entry.parent_ref != idx) by {
                assert(s[cur as int].occupied());
            }
            assert(kids(gone, idx) == kids(s, idx) - one_if(entry.parent_ref == idx));
        }
        assert forall|i: int|
            0 <= i < gone.len() && i != entry.parent_ref && (#[trigger] gone[i]).occupied()
                && !gone[i].active() implies {
            &&& tree::childless(gone, i as u32) ==> is_tip(t.heads, i as u32) || late.contains(
                i as u32,
            )
            &&& gone[i].head_ref_count == branches(rest, late, i as u32)
        } by {
            assert(s[i].occupied());
            assert(kids(gone, i as u32) == kids(s, i as u32) - one_if(entry.parent_ref == i as u32));
        }
        if entry.parent_ref == NONE_REF {
            assert(tips_are_leaves(rest, late));
            assert(counted(rest, late));
        } else {
            let parent = entry.parent_ref;
            assert(s[cur as int].occupied());
            assert(!tree::childless(s, parent));
            assert(!is_tip(t.heads, parent));
            assert(kids(gone, parent) == kids(s, parent) - one_if(entry.parent_ref == parent));
            assert(shedding(rest, late, parent));
            lemma_below_part(gone, s, s[parent as int].sequence as int);
            lemma_pruned(rest, prev, active_head, open, late, parent, (steps - 1) as nat);
            lemma_part_transitive(
                tips::pruned(gone, parent, (steps - 1) as nat),
                gone,
                s,
            );
        }
    }
}

/// Distinct tips stay distinct when one is dropped, and no other is.
pub(crate) proof fn lemma_tip_vacated(heads: Seq<ChainHeadEntry>, v: int)
    requires
        0 <= v < heads.len(),
        heads[v].in_use(),
        forall|a: int, b: int|
            0 <= a < b < heads.len() && (#[trigger] heads[a]).in_use() && (
            #[trigger] heads[b]).in_use() ==> heads[a].head_idx != heads[b].head_idx,
    ensures
        forall|idx: u32|
            #[trigger] is_tip(heads.update(v, ChainHeadEntry::vacant()), idx) == (is_tip(heads, idx)
                && idx != heads[v].head_idx),
{
    let after = heads.update(v, ChainHeadEntry::vacant());
    assert forall|idx: u32| #[trigger] is_tip(after, idx) == (is_tip(heads, idx) && idx
        != heads[v].head_idx) by {
        if is_tip(after, idx) {
            let slot = choose|slot: int|
                0 <= slot < after.len() && (#[trigger] after[slot]).in_use() && after[slot].head_idx
                    == idx;
            assert(slot != v);
            assert(heads[slot].in_use() && heads[slot].head_idx == idx);
        }
        if is_tip(heads, idx) && idx != heads[v].head_idx {
            let slot = choose|slot: int|
                0 <= slot < heads.len() && (#[trigger] heads[slot]).in_use() && heads[slot].head_idx
                    == idx;
            assert(after[slot].in_use() && after[slot].head_idx == idx);
        }
    }
}

/// Everything that holds between admissions, but for the tips in `late`, the
/// links to `open`, and the hashes of missing parents.
pub open spec fn settled(t: Tips, prev: Seq<BlockHash>, active_head: u32, open: u32, late: Set<u32>) -> bool {
    &&& linked(t.blocks, prev)
    &&& complete(t.blocks, prev, open)
    &&& marked(t.blocks, active_head)
    &&& tips_are_leaves(t, late)
    &&& counted(t, late)
    &&& ends_known(t)
}

/// A table of two tips or more that is full can evict one, and then has a free
/// slot. The tips that remain keep their entries.
pub(crate) proof fn lemma_evicted(
    t: Tips,
    prev: Seq<BlockHash>,
    active_head: u32,
    open: u32,
    late: Set<u32>,
)
    requires
        settled(t, prev, active_head, open, late),
        table_fits(t.heads),
        forall|slot: int| 0 <= slot < t.heads.len() ==> (#[trigger] t.heads[slot]).in_use(),
    ensures
        ({
            let after = tips::evicted(t, active_head);
            &&& settled(after, prev, active_head, open, late)
            &&& after.heads.len() == t.heads.len()
            &&& forall|slot: int|
                0 <= slot < t.heads.len() && (#[trigger] after.heads[slot]).in_use()
                    ==> after.heads[slot] == t.heads[slot]
            &&& tips::vacant_slot(after.heads, 0) is Some
            &&& part_of(after.blocks, t.blocks)
        }),
{
    tip_laws::eviction_takes_the_lowest_tip(t.heads, t.blocks, active_head);
    assert(t.heads[0].in_use() && t.heads[1].in_use());
    assert(tips::evictable(t.heads, t.blocks, active_head, 0) || tips::evictable(
        t.heads,
        t.blocks,
        active_head,
        1,
    ));
    let v = tips::victim(t.heads, t.blocks, active_head)->0;
    let cur = t.heads[v].head_idx;
    let heads = t.heads.update(v, ChainHeadEntry::vacant());
    let dropped = Tips { heads, blocks: t.blocks };
    lemma_tip_vacated(t.heads, v);
    assert(is_tip(t.heads, cur)) by {
        assert(t.heads[v].in_use() && t.heads[v].head_idx == cur);
    }
    assert(shedding(dropped, late, cur)) by {
        assert forall|slot: int|
            0 <= slot < heads.len() && (#[trigger] heads[slot]).in_use() implies {
            &&& tree::present(t.blocks, heads[slot].head_idx)
            &&& tree::childless(t.blocks, heads[slot].head_idx)
            &&& !late.contains(heads[slot].head_idx)
        } by {
            assert(t.heads[slot].in_use());
        }
        assert forall|a: int, b: int|
            0 <= a < b < heads.len() && (#[trigger] heads[a]).in_use() && (
            #[trigger] heads[b]).in_use() implies heads[a].head_idx != heads[b].head_idx by {
            assert(t.heads[a].in_use() && t.heads[b].in_use());
        }
        assert(t.blocks[cur as int].occupied());
    }
    lemma_below_bound(t.blocks, t.blocks[cur as int].sequence as int);
    lemma_pruned(dropped, prev, active_head, open, late, cur, t.blocks.len());
    let after = tips::evicted(t, active_head);
    assert(after.heads == heads);
    assert(ends_known(after)) by {
        assert forall|slot: int|
            0 <= slot < after.heads.len() && (
            #[trigger] after.heads[slot]).in_use() implies knows_its_end(
            after.heads[slot],
            after.blocks,
        ) by {
            assert(t.heads[slot].in_use());
            lemma_anchor_part(after.blocks, t.blocks, prev, heads[slot].head_idx);
        }
    }
    lemma_vacant_slot(after.heads, 0);
    assert(!after.heads[v].in_use());
}

} // verus!
