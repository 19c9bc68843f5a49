//! What a table with room for one tip keeps.
//!
//! Where the one tip is the head of the active chain, no slot can be had: a
//! block that extends another branch stays in the tree without being a tip. Its
//! branch is counted all the same, so that an eviction takes no block that
//! another one stands on.

use vstd::prelude::*;

use crate::blocks as tree;
use crate::blocks::{BlockEntry, NONE_REF};
use crate::branching;
use crate::branching_deletion;
use crate::chain_heads as tips;
use crate::chain_heads::{ChainHeadEntry, Tips};
use crate::coherence as fit;
use crate::hash::BlockHash;
use crate::tip_laws;

verus! {

/// Whether taking a branch off the ancestry of `cur` takes one off `idx`: every
/// block above it on the way has no other branch.
pub open spec fn sheds(s: Seq<BlockEntry>, cur: u32, idx: u32, steps: nat) -> bool
    decreases steps,
{
    if steps == 0 || !tree::present(s, cur) {
        false
    } else if cur == idx {
        true
    } else if s[cur as int].active() || s[cur as int].head_ref_count > 1
        || s[cur as int].parent_ref == NONE_REF {
        false
    } else {
        sheds(s, s[cur as int].parent_ref, idx, (steps - 1) as nat)
    }
}

/// Every block off the active chain counts a branch.
pub open spec fn alive(s: Seq<BlockEntry>) -> bool {
    forall|i: int|
        0 <= i < s.len() && (#[trigger] s[i]).occupied() && !s[i].active() ==> s[i].head_ref_count
            >= 1
}

/// A block that loses a branch with `cur`, and has two children, counts two
/// branches at least.
pub open spec fn guarded(s: Seq<BlockEntry>, cur: u32, steps: nat) -> bool {
    forall|p: u32| #[trigger]
        sheds(s, cur, p, steps) && !s[p as int].active() && fit::kids(s, p) >= 2
            ==> s[p as int].head_ref_count >= 2
}

/// The tree and its one tip: the tip is childless and names an ancestor of its
/// own as the end of its branch, and what it alone keeps can be told from what
/// others need.
pub open spec fn single(t: Tips) -> bool {
    &&& t.heads.len() == 1
    &&& branching::rooted(t.blocks)
    &&& alive(t.blocks)
    &&& t.heads[0].in_use() ==> {
        &&& tree::present(t.blocks, t.heads[0].head_idx)
        &&& tree::childless(t.blocks, t.heads[0].head_idx)
        &&& tree::descends(
            t.blocks,
            t.heads[0].head_idx,
            t.heads[0].tail_or_connection_idx,
            t.blocks.len(),
        )
        &&& guarded(t.blocks, t.heads[0].head_idx, t.blocks.len())
    }
}

proof fn lemma_sheds_longer(s: Seq<BlockEntry>, cur: u32, idx: u32, few: nat, many: nat)
    requires
        sheds(s, cur, idx, few),
        few <= many,
    ensures
        sheds(s, cur, idx, many),
    decreases few,
{
    if cur != idx {
        lemma_sheds_longer(
            s,
            s[cur as int].parent_ref,
            idx,
            (few - 1) as nat,
            (many - 1) as nat,
        );
    }
}

pub(crate) proof fn lemma_sheds_lower(s: Seq<BlockEntry>, cur: u32, idx: u32, steps: nat)
    requires
        branching::rooted(s),
        sheds(s, cur, idx, steps),
    ensures
        tree::present(s, idx),
        s[idx as int].sequence <= s[cur as int].sequence,
        idx != cur ==> s[idx as int].sequence < s[cur as int].sequence,
    decreases steps,
{
    if cur != idx {
        assert(s[cur as int].parent_ref != NONE_REF);
        lemma_sheds_lower(s, s[cur as int].parent_ref, idx, (steps - 1) as nat);
    }
}

/// A walk that does not start at `x`, which has no children, does not depend on
/// it; and a block that counts more branches ends it no later.
proof fn lemma_sheds_less(
    s: Seq<BlockEntry>,
    other: Seq<BlockEntry>,
    x: u32,
    cur: u32,
    idx: u32,
    steps: nat,
)
    requires
        s.len() == other.len(),
        tree::childless(other, x),
        cur != x,
        forall|i: int|
            0 <= i < s.len() && i != x && (#[trigger] other[i]).occupied() ==> {
                &&& s[i].occupied()
                &&& s[i].parent_ref == other[i].parent_ref
                &&& s[i].active() == other[i].active()
                &&& s[i].head_ref_count <= other[i].head_ref_count
            },
        sheds(other, cur, idx, steps),
    ensures
        sheds(s, cur, idx, steps),
        idx != x,
    decreases steps,
{
    assert(other[cur as int].occupied());
    if cur != idx {
        assert(other[cur as int].parent_ref != x);
        lemma_sheds_less(s, other, x, other[cur as int].parent_ref, idx, (steps - 1) as nat);
    }
}

// -- Eviction ----------------------------------------------------------------

/// Taking the branch of `cur` off the tree takes no block that another stands
/// on, and ends at the first block that it keeps.
#[verifier::spinoff_prover]
#[verifier::rlimit(60)]
proof fn lemma_pruned(s: Seq<BlockEntry>, cur: u32, steps: nat)
    requires
        branching::rooted(s),
        alive(s),
        tree::present(s, cur),
        guarded(s, cur, steps),
        !s[cur as int].active() && s[cur as int].head_ref_count <= 1 ==> tree::childless(s, cur),
        steps >= fit::below(s, s[cur as int].sequence as int),
    ensures
        ({
            let after = tips::pruned(s, cur, steps);
            &&& branching::rooted(after)
            &&& alive(after)
            &&& fit::part_of(after, s)
            &&& forall|i: int|
                0 <= i < s.len() ==> #[trigger] after[i] == s[i] || sheds(s, cur, i as u32, steps)
            &&& forall|q: u32| #[trigger]
                sheds(s, cur, q, steps) && tree::present(after, q) ==> {
                    &&& after[q as int].head_ref_count == tree::adjusted_count(
                        s[q as int].head_ref_count,
                        -1i8,
                    )
                    &&& q != cur ==> fit::kids(after, q) < fit::kids(s, q)
                    &&& forall|p: int|
                        0 <= p < s.len() && s[p].sequence < s[q as int].sequence
                            ==> #[trigger] after[p] == s[p]
                }
        }),
    decreases steps,
{
    fit::lemma_below_step(s, cur);
    let entry = s[cur as int];
    assert(entry.occupied());
    let count = tree::adjusted_count(entry.head_ref_count, -1i8);
    let fewer = s.update(cur as int, entry.with_count(count));
    assert(tree::recounted(s, cur, -1i8) == fewer);
    assert(sheds(s, cur, cur, steps));
    let after = tips::pruned(s, cur, steps);
    if entry.active() || count != 0 {
        assert(after == fewer);
        assert(fit::part_of(fewer, s));
        assert(branching::rooted(fewer)) by {
            assert forall|i: int|
                0 <= i < fewer.len() && fewer[i].occupied() && #[trigger] fewer[i].parent_ref
                    != NONE_REF implies tree::present(fewer, fewer[i].parent_ref)
                && fewer[fewer[i].parent_ref as int].sequence + 1 == fewer[i].sequence by {
                assert(s[i].parent_ref != NONE_REF);
            }
        }
        assert forall|q: u32| #[trigger]
            sheds(s, cur, q, steps) && tree::present(after, q) implies {
            &&& after[q as int].head_ref_count == tree::adjusted_count(
                s[q as int].head_ref_count,
                -1i8,
            )
            &&& q != cur ==> fit::kids(after, q) < fit::kids(s, q)
            &&& forall|p: int|
                0 <= p < s.len() && s[p].sequence < s[q as int].sequence ==> #[trigger] after[p]
                    == s[p]
        } by {
            assert(q == cur);
        }
    } else {
        assert(entry.head_ref_count <= 1);
        let gone = s.update(cur as int, BlockEntry::vacant());
        assert(tree::released(fewer, cur) =~= gone);
        branching::lemma_leaf_gone(s, cur);
        if entry.parent_ref == NONE_REF {
            assert(after == gone);
            assert forall|q: u32| #[trigger]
                sheds(s, cur, q, steps) && tree::present(after, q) implies false by {
                assert(q == cur);
            }
        } else {
            let parent = entry.parent_ref;
            assert(tree::present(gone, parent));
            let left = (steps - 1) as nat;
            assert forall|p: u32| #[trigger] sheds(gone, parent, p, left) implies sheds(
                s,
                cur,
                p,
                steps,
            ) && p != cur by {
                lemma_sheds_less(s, gone, cur, parent, p, left);
            }
            assert(guarded(gone, parent, left)) by {
                assert forall|p: u32| #[trigger]
                    sheds(gone, parent, p, left) && !gone[p as int].active() && fit::kids(gone, p)
                        >= 2 implies gone[p as int].head_ref_count >= 2 by {
                    assert(sheds(s, cur, p, steps));
                    assert(fit::kids(gone, p) == fit::kids(s, p) - fit::one_if(parent == p));
                    lemma_sheds_lower(gone, parent, p, left);
                }
            }
            assert(sheds(s, cur, parent, steps)) by {
                fit::lemma_below_step(s, parent);
                assert(sheds(s, parent, parent, left));
            }
            assert(fit::kids(gone, parent) == fit::kids(s, parent) - 1);
            assert(tree::childless(gone, parent) == (fit::kids(gone, parent) == 0));
            fit::lemma_kids_childless(gone, parent);
            fit::lemma_below_part(gone, s, s[parent as int].sequence as int);
            lemma_pruned(gone, parent, left);
            assert(after == tips::pruned(gone, parent, left));
            fit::lemma_part_transitive(after, gone, s);
            assert forall|i: int| 0 <= i < s.len() implies #[trigger] after[i] == s[i] || sheds(
                s,
                cur,
                i as u32,
                steps,
            ) by {
                assert(after[i] == gone[i] || sheds(gone, parent, i as u32, left));
            }
            assert forall|q: u32| #[trigger]
                sheds(s, cur, q, steps) && tree::present(after, q) implies {
                &&& after[q as int].head_ref_count == tree::adjusted_count(
                    s[q as int].head_ref_count,
                    -1i8,
                )
                &&& q != cur ==> fit::kids(after, q) < fit::kids(s, q)
                &&& forall|p: int|
                    0 <= p < s.len() && s[p].sequence < s[q as int].sequence
                        ==> #[trigger] after[p] == s[p]
            } by {
                assert(after[q as int].occupied());
                assert(gone[q as int].occupied());
                assert(q != cur);
                lemma_sheds_kept(s, gone, cur, parent, q, left);
                assert(sheds(gone, parent, q, left));
                branching_deletion::lemma_fewer_kids(after, gone, q);
                assert(fit::kids(gone, q) == fit::kids(s, q) - fit::one_if(parent == q));
                lemma_sheds_lower(s, parent, q, left);
                assert forall|p: int|
                    0 <= p < s.len() && s[p].sequence < s[q as int].sequence implies #[trigger] after[p]
                    == s[p] by {
                    assert(after[p] == gone[p]);
                }
            }
        }
    }
}

/// Without a childless block, a walk from below it is the same.
proof fn lemma_sheds_kept(
    s: Seq<BlockEntry>,
    gone: Seq<BlockEntry>,
    top: u32,
    cur: u32,
    idx: u32,
    steps: nat,
)
    requires
        branching::rooted(s),
        top < s.len(),
        gone == s.update(top as int, BlockEntry::vacant()),
        tree::childless(s, top),
        cur != top,
        sheds(s, cur, idx, steps),
    ensures
        sheds(gone, cur, idx, steps),
    decreases steps,
{
    if cur != idx {
        assert(s[cur as int].occupied());
        assert(s[cur as int].parent_ref != top);
        lemma_sheds_kept(s, gone, top, s[cur as int].parent_ref, idx, (steps - 1) as nat);
    }
}

// -- Admission ---------------------------------------------------------------

/// Whether `entry` enters the free slot `x`, below `parent` where it has one.
pub open spec fn entering(t: Tips, x: u32, entry: BlockEntry, parent: Option<u32>) -> bool {
    &&& single(t)
    &&& x < t.blocks.len()
    &&& !t.blocks[x as int].occupied()
    &&& entry.occupied()
    &&& entry.head_ref_count == 0
    &&& match parent {
        Some(idx) => {
            &&& entry.parent_ref == idx
            &&& tree::present(t.blocks, idx)
            &&& t.blocks[idx as int].sequence + 1 == entry.sequence
        },
        None => entry.parent_ref == NONE_REF,
    }
}

/// Whether `grown` is the tree with the entering block, counted once, and with
/// its branch counted at its parent where that is not the tip.
spec fn grown(
    t: Tips,
    x: u32,
    entry: BlockEntry,
    parent: Option<u32>,
    after: Seq<BlockEntry>,
) -> bool {
    &&& after.len() == t.blocks.len()
    &&& after[x as int] == entry.with_count(1)
    &&& forall|i: int|
        0 <= i < after.len() && i != x ==> #[trigger] after[i] == if parent == Some(i as u32) && !(
        t.heads[0].in_use() && t.heads[0].head_idx == i) {
            t.blocks[i].with_count(tree::adjusted_count(t.blocks[i].head_ref_count, 1i8))
        } else {
            t.blocks[i]
        }
}

proof fn lemma_grown(t: Tips, x: u32, entry: BlockEntry, parent: Option<u32>, s: Seq<BlockEntry>)
    requires
        entering(t, x, entry, parent),
        grown(t, x, entry, parent, s),
    ensures
        branching::rooted(s),
        alive(s),
        tree::present(s, x),
        tree::childless(s, x),
        forall|idx: u32| #[trigger]
            fit::kids(s, idx) == fit::kids(t.blocks, idx) + fit::one_if(entry.parent_ref == idx),
        t.heads[0].in_use() ==> t.heads[0].head_idx != x,
{
    let base = t.blocks;
    let one = base.update(x as int, entry.with_count(1));
    assert forall|idx: u32| #[trigger]
        fit::kids(s, idx) == fit::kids(base, idx) + fit::one_if(entry.parent_ref == idx) by {
        fit::lemma_kids_update(base, x as int, entry.with_count(1), idx);
        assert forall|j: int| 0 <= j < s.len() implies fit::child_of(#[trigger] s[j], idx)
            == fit::child_of(one[j], idx) by {}
        fit::lemma_kids_same(s, one, idx);
    }
    assert(tree::childless(base, x)) by {
        assert forall|i: int| 0 <= i < base.len() && base[i].occupied() implies #[trigger]
            base[i].parent_ref != x by {
            if base[i].parent_ref != NONE_REF {
                assert(tree::present(base, base[i].parent_ref));
            }
        }
    }
    assert(entry.parent_ref != x);
    fit::lemma_kids_childless(base, x);
    fit::lemma_kids_childless(s, x);
    assert(fit::kids(s, x) == fit::kids(base, x) + fit::one_if(entry.parent_ref == x));
    assert forall|i: int|
        0 <= i < s.len() && s[i].occupied() && #[trigger] s[i].parent_ref
            != NONE_REF implies tree::present(s, s[i].parent_ref)
        && s[s[i].parent_ref as int].sequence + 1 == s[i].sequence by {
        if i != x {
            assert(base[i].parent_ref != NONE_REF);
        }
        let p = s[i].parent_ref as int;
        assert(p != x);
        assert(base[p].occupied());
    }
    assert forall|i: int|
        0 <= i < s.len() && (#[trigger] s[i]).occupied()
            && !s[i].active() implies s[i].head_ref_count >= 1 by {
        if i != x {
            assert(base[i].occupied());
        }
    }
}

/// The tip as it was still fits the grown tree, where the entering block does
/// not extend it.
proof fn lemma_tip_stays(
    t: Tips,
    x: u32,
    entry: BlockEntry,
    parent: Option<u32>,
    s: Seq<BlockEntry>,
)
    requires
        entering(t, x, entry, parent),
        grown(t, x, entry, parent, s),
        t.heads[0].in_use(),
        parent != Some(t.heads[0].head_idx),
    ensures
        single(Tips { heads: t.heads, blocks: s }),
{
    let base = t.blocks;
    let h = t.heads[0].head_idx;
    lemma_grown(t, x, entry, parent, s);
    fit::lemma_kids_childless(base, h);
    fit::lemma_kids_childless(s, h);
    assert(fit::kids(s, h) == fit::kids(base, h) + fit::one_if(entry.parent_ref == h));
    assert(base[h as int].occupied());
    lemma_descends_grown(t, x, entry, parent, s, h, t.heads[0].tail_or_connection_idx, s.len());
    assert(guarded(s, h, s.len())) by {
        assert forall|p: u32| #[trigger]
            sheds(s, h, p, s.len()) && !s[p as int].active() && fit::kids(s, p)
                >= 2 implies s[p as int].head_ref_count >= 2 by {
            lemma_sheds_less(base, s, x, h, p, s.len());
            lemma_sheds_lower(base, h, p, s.len());
            assert(base[p as int].occupied());
            assert(fit::kids(s, p) == fit::kids(base, p) + fit::one_if(entry.parent_ref == p));
            if entry.parent_ref == p {
                assert(parent == Some(p));
            }
        }
    }
}

proof fn lemma_descends_grown(
    t: Tips,
    x: u32,
    entry: BlockEntry,
    parent: Option<u32>,
    s: Seq<BlockEntry>,
    idx: u32,
    target: u32,
    steps: nat,
)
    requires
        entering(t, x, entry, parent),
        grown(t, x, entry, parent, s),
        tree::descends(t.blocks, idx, target, steps),
    ensures
        tree::descends(s, idx, target, steps),
    decreases steps,
{
    assert(t.blocks[idx as int].occupied());
    if idx != target {
        lemma_descends_grown(
            t,
            x,
            entry,
            parent,
            s,
            t.blocks[idx as int].parent_ref,
            target,
            (steps - 1) as nat,
        );
    }
}

/// The entering block takes the place of the tip that it extends.
proof fn lemma_extended(
    t: Tips,
    x: u32,
    entry: BlockEntry,
    parent: Option<u32>,
    s: Seq<BlockEntry>,
    head: ChainHeadEntry,
)
    requires
        entering(t, x, entry, parent),
        grown(t, x, entry, parent, s),
        t.heads[0].in_use(),
        parent == Some(t.heads[0].head_idx),
        head.head_idx == x,
        tree::descends(s, x, head.tail_or_connection_idx, s.len()),
    ensures
        single(Tips { heads: t.heads.update(0, head), blocks: s }),
{
    let base = t.blocks;
    let q = t.heads[0].head_idx;
    lemma_grown(t, x, entry, parent, s);
    fit::lemma_kids_childless(base, q);
    assert(guarded(s, x, s.len())) by {
        assert forall|p: u32| #[trigger]
            sheds(s, x, p, s.len()) && !s[p as int].active() && fit::kids(s, p)
                >= 2 implies s[p as int].head_ref_count >= 2 by {
            fit::lemma_kids_childless(s, x);
            assert(fit::kids(s, p) == fit::kids(base, p) + fit::one_if(entry.parent_ref == p));
            assert(p != x);
            assert(sheds(s, q, p, (s.len() - 1) as nat));
            lemma_sheds_less(base, s, x, q, p, (s.len() - 1) as nat);
            lemma_sheds_longer(base, q, p, (s.len() - 1) as nat, s.len());
            assert(sheds(base, q, p, base.len()));
            lemma_sheds_lower(base, q, p, base.len());
            assert(s[p as int] == base[p as int]);
        }
    }
}

/// The entering block gets the slot, which was free or has been vacated.
proof fn lemma_placed(
    t: Tips,
    x: u32,
    entry: BlockEntry,
    parent: Option<u32>,
    s: Seq<BlockEntry>,
    after: Seq<BlockEntry>,
    head: ChainHeadEntry,
)
    requires
        entering(t, x, entry, parent),
        grown(t, x, entry, parent, s),
        t.heads[0].in_use() ==> parent != Some(t.heads[0].head_idx),
        after == if t.heads[0].in_use() {
            tips::pruned(s, t.heads[0].head_idx, s.len())
        } else {
            s
        },
        head.head_idx == x,
        tree::present(after, x) ==> tree::descends(
            after,
            x,
            head.tail_or_connection_idx,
            after.len(),
        ),
    ensures
        single(Tips { heads: t.heads.update(0, head), blocks: after }),
        tree::present(after, x),
        fit::part_of(after, s),
{
    let base = t.blocks;
    let h = t.heads[0].head_idx;
    lemma_grown(t, x, entry, parent, s);
    fit::lemma_kids_childless(s, x);
    let len = s.len();
    if t.heads[0].in_use() {
        lemma_tip_stays(t, x, entry, parent, s);
        fit::lemma_below_bound(s, s[h as int].sequence as int);
        lemma_pruned(s, h, len);
        assert(!sheds(s, h, x, len)) by {
            if sheds(s, h, x, len) {
                lemma_sheds_less(base, s, x, h, x, len);
            }
        }
        assert(after[x as int] == s[x as int]);
    } else {
        assert(fit::part_of(s, s));
    }
    assert(tree::childless(after, x)) by {
        assert forall|i: int| 0 <= i < after.len() && after[i].occupied() implies #[trigger]
            after[i].parent_ref != x by {
            assert(s[i].occupied() && s[i].parent_ref == after[i].parent_ref);
        }
    }
    fit::lemma_kids_childless(after, x);
    assert(guarded(after, x, len)) by {
        assert forall|p: u32| #[trigger]
            sheds(after, x, p, len) && !after[p as int].active() && fit::kids(after, p)
                >= 2 implies after[p as int].head_ref_count >= 2 by {
            assert(p != x);
            assert(parent is Some);
            let q = parent->0;
            assert(after[x as int].parent_ref == q);
            lemma_below_parent(t, x, entry, q, s, after, p);
        }
    }
}

/// A block below the parent of the entering one that has two children counts two
/// branches, where the entering block alone keeps what is between.
proof fn lemma_below_parent(
    t: Tips,
    x: u32,
    entry: BlockEntry,
    q: u32,
    s: Seq<BlockEntry>,
    after: Seq<BlockEntry>,
    p: u32,
)
    requires
        entering(t, x, entry, Some(q)),
        grown(t, x, entry, Some(q), s),
        t.heads[0].in_use() ==> q != t.heads[0].head_idx,
        after == if t.heads[0].in_use() {
            tips::pruned(s, t.heads[0].head_idx, s.len())
        } else {
            s
        },
        branching::rooted(after),
        sheds(after, q, p, (s.len() - 1) as nat),
        !after[p as int].active(),
        fit::kids(after, p) >= 2,
    ensures
        after[p as int].head_ref_count >= 2,
{
    let base = t.blocks;
    let h = t.heads[0].head_idx;
    let len = s.len();
    let less = (len - 1) as nat;
    lemma_grown(t, x, entry, Some(q), s);
    lemma_sheds_lower(after, q, p, less);
    assert(base[q as int].occupied());
    assert(!s[q as int].active() ==> s[q as int].head_ref_count >= 2);
    if t.heads[0].in_use() {
        lemma_tip_stays(t, x, entry, Some(q), s);
        fit::lemma_below_bound(s, s[h as int].sequence as int);
        lemma_pruned(s, h, len);
        branching_deletion::lemma_fewer_kids(after, s, p);
        assert(after[p as int].occupied());
        assert(tree::present(after, q));
        assert(after[q as int].occupied());
        if after[q as int] != s[q as int] {
            assert(sheds(s, h, q, len));
            if p == q {
                assert(fit::kids(after, q) < fit::kids(s, q));
                assert(fit::kids(s, q) == fit::kids(base, q) + 1);
                lemma_sheds_less(base, s, x, h, q, len);
            } else if !after[q as int].active() && after[q as int].head_ref_count <= 1 {
                assert(after[p as int] == s[p as int]);
                lemma_sheds_less(base, s, x, h, q, len);
                assert(base[q as int].head_ref_count <= 1);
                let parent = after[q as int].parent_ref;
                assert(parent != NONE_REF);
                assert forall|i: int|
                    0 <= i < base.len() && (#[trigger] after[i]).occupied() && after[i].sequence
                        <= s[q as int].sequence - 1 implies {
                    &&& base[i].occupied()
                    &&& base[i].parent_ref == after[i].parent_ref
                    &&& base[i].active() == after[i].active()
                    &&& base[i].head_ref_count <= after[i].head_ref_count
                } by {
                    assert(s[i].occupied() && s[i].sequence == after[i].sequence);
                    assert(after[i] == s[i]);
                    assert(i != x && i != q);
                }
                lemma_sheds_below(
                    base,
                    after,
                    s[q as int].sequence - 1,
                    parent,
                    p,
                    (less - 1) as nat,
                );
                assert(sheds(base, q, p, less));
                lemma_sheds_joined(base, h, q, p, len, less);
                assert(sheds(base, h, p, base.len()));
                assert(base[p as int].occupied());
                assert(p != x);
                assert(fit::kids(s, p) == fit::kids(base, p) + fit::one_if(q == p));
            }
        } else if p != q {
            assert(!after[q as int].active() ==> after[q as int].head_ref_count >= 2);
        }
    }
}

/// Below `q` the trees are the same, so that a walk is.
proof fn lemma_sheds_below(
    base: Seq<BlockEntry>,
    after: Seq<BlockEntry>,
    sequence: int,
    cur: u32,
    idx: u32,
    steps: nat,
)
    requires
        branching::rooted(after),
        base.len() == after.len(),
        tree::present(after, cur),
        after[cur as int].sequence <= sequence,
        forall|i: int|
            0 <= i < base.len() && (#[trigger] after[i]).occupied() && after[i].sequence <= sequence
                ==> {
                &&& base[i].occupied()
                &&& base[i].parent_ref == after[i].parent_ref
                &&& base[i].active() == after[i].active()
                &&& base[i].head_ref_count <= after[i].head_ref_count
            },
        sheds(after, cur, idx, steps),
    ensures
        sheds(base, cur, idx, steps),
    decreases steps,
{
    assert(after[cur as int].occupied());
    if cur != idx {
        assert(after[cur as int].parent_ref != NONE_REF);
        lemma_sheds_below(
            base,
            after,
            sequence,
            after[cur as int].parent_ref,
            idx,
            (steps - 1) as nat,
        );
    }
}

/// A walk that reaches `mid` goes on as a walk from there.
proof fn lemma_sheds_joined(
    s: Seq<BlockEntry>,
    cur: u32,
    mid: u32,
    idx: u32,
    steps: nat,
    more: nat,
)
    requires
        branching::rooted(s),
        sheds(s, cur, mid, steps),
        sheds(s, mid, idx, more),
        mid != idx,
    ensures
        sheds(s, cur, idx, s.len()),
{
    lemma_sheds_chained(s, cur, mid, idx, steps, more);
    lemma_sheds_bounded(s, cur, idx, steps + more);
}

proof fn lemma_sheds_chained(
    s: Seq<BlockEntry>,
    cur: u32,
    mid: u32,
    idx: u32,
    steps: nat,
    more: nat,
)
    requires
        sheds(s, cur, mid, steps),
        sheds(s, mid, idx, more),
    ensures
        sheds(s, cur, idx, steps + more),
    decreases steps,
{
    if cur == mid {
        lemma_sheds_longer(s, mid, idx, more, steps + more);
    } else if cur != idx {
        lemma_sheds_chained(s, s[cur as int].parent_ref, mid, idx, (steps - 1) as nat, more);
    }
}

/// A walk needs no more steps than there are blocks at or below its start.
proof fn lemma_sheds_bounded(s: Seq<BlockEntry>, cur: u32, idx: u32, steps: nat)
    requires
        branching::rooted(s),
        sheds(s, cur, idx, steps),
    ensures
        sheds(s, cur, idx, s.len()),
{
    lemma_sheds_measured(s, cur, idx, steps);
    fit::lemma_below_bound(s, s[cur as int].sequence as int);
    lemma_sheds_longer(s, cur, idx, fit::below(s, s[cur as int].sequence as int), s.len());
}

proof fn lemma_sheds_measured(s: Seq<BlockEntry>, cur: u32, idx: u32, steps: nat)
    requires
        branching::rooted(s),
        sheds(s, cur, idx, steps),
    ensures
        sheds(s, cur, idx, fit::below(s, s[cur as int].sequence as int)),
    decreases steps,
{
    fit::lemma_below_step(s, cur);
    if cur != idx {
        let parent = s[cur as int].parent_ref;
        assert(s[cur as int].parent_ref != NONE_REF);
        lemma_sheds_measured(s, parent, idx, (steps - 1) as nat);
        lemma_sheds_longer(
            s,
            parent,
            idx,
            fit::below(s, s[parent as int].sequence as int),
            (fit::below(s, s[cur as int].sequence as int) - 1) as nat,
        );
    }
}

/// The entering block is given the slot, unless the head of the active chain
/// holds it.
proof fn lemma_inserted(
    t: Tips,
    x: u32,
    entry: BlockEntry,
    parent: Option<u32>,
    s: Seq<BlockEntry>,
    arrival: u64,
    prev_hash: BlockHash,
    active_head: u32,
)
    requires
        entering(t, x, entry, parent),
        grown(t, x, entry, parent, s),
        t.heads[0].in_use() ==> parent != Some(t.heads[0].head_idx),
    ensures
        ({
            let after = tips::tip_inserted(
                Tips { heads: t.heads, blocks: s },
                x,
                arrival,
                prev_hash,
                active_head,
            );
            &&& single(after)
            &&& tree::present(after.blocks, x)
            &&& fit::part_of(after.blocks, s)
        }),
{
    let before = Tips { heads: t.heads, blocks: s };
    let (known_idx, known_hash) = tips::known_end(before, x, prev_hash);
    lemma_grown(t, x, entry, parent, s);
    fit::lemma_tip_count(t.heads);
    let full = tips::tip_count(t.heads) >= t.heads.len();
    assert(full == t.heads[0].in_use());
    if full {
        lemma_tip_stays(t, x, entry, parent, s);
        tip_laws::eviction_takes_the_lowest_tip(t.heads, s, active_head);
    }
    let room = if full {
        tips::evicted(before, active_head)
    } else {
        before
    };
    fit::lemma_vacant_slot(room.heads, 0);
    let after = tips::tip_inserted(before, x, arrival, prev_hash, active_head);
    if full && tips::victim(t.heads, s, active_head) is None {
        assert(room == before);
        assert(room.heads[0].in_use());
        assert(after == before);
        assert(fit::part_of(s, s));
    } else {
        assert(!room.heads[0].in_use());
        assert(tips::vacant_slot(room.heads, 0) == Some(0int));
        let placed = room.heads.update(0, ChainHeadEntry::fresh(x, arrival));
        let head = tips::refreshed(placed, room.blocks, 0, known_idx, known_hash);
        assert(after.heads =~= t.heads.update(0, head));
        assert(head.head_idx == x);
        if tree::present(room.blocks, x) {
            if full {
                fit::lemma_below_bound(s, s[t.heads[0].head_idx as int].sequence as int);
                lemma_pruned(s, t.heads[0].head_idx, s.len());
            }
            branching::lemma_end_below(placed, room.blocks, 0, known_idx, known_hash);
        }
        lemma_placed(t, x, entry, parent, s, room.blocks, head);
    }
}

/// The entering block, before what waited for it is attached.
proof fn lemma_tip_admitted(
    t: Tips,
    x: u32,
    entry: BlockEntry,
    parent: Option<u32>,
    prev_hash: BlockHash,
    arrival: u64,
    active_head: u32,
)
    requires
        entering(t, x, entry, parent),
    ensures
        ({
            let base = Tips { heads: t.heads, blocks: t.blocks.update(x as int, entry) };
            let after = tips::tip_admitted(base, x, parent, prev_hash, arrival, active_head);
            &&& single(after)
            &&& tree::present(after.blocks, x)
            &&& tree::childless(after.blocks, x)
            &&& after.blocks.len() == t.blocks.len()
            &&& after.blocks[x as int].is_block(entry.sequence, entry.hash)
            &&& !after.blocks[x as int].active() ==> after.blocks[x as int].head_ref_count >= 1
        }),
{
    let base = Tips { heads: t.heads, blocks: t.blocks.update(x as int, entry) };
    let after = tips::tip_admitted(base, x, parent, prev_hash, arrival, active_head);
    let counted = t.blocks.update(x as int, entry.with_count(1));
    assert(tree::recounted(base.blocks, x, 1i8) =~= counted);
    match parent {
        Some(q) => {
            fit::lemma_head_slot(t.heads, q, 0);
            assert(t.blocks[q as int].occupied());
            match tips::head_slot(t.heads, q, 0) {
                Some(slot) => {
                    assert(slot == 0);
                    assert(grown(t, x, entry, parent, counted));
                    lemma_grown(t, x, entry, parent, counted);
                    let advanced = t.heads.update(
                        0,
                        ChainHeadEntry {
                            head_idx: x,
                            arrival_timestamp: arrival,
                            ..t.heads[0]
                        },
                    );
                    let head = tips::refreshed(advanced, counted, 0, x, prev_hash);
                    branching::lemma_end_below(advanced, counted, 0, x, prev_hash);
                    lemma_extended(t, x, entry, parent, counted, head);
                    assert(after.heads =~= t.heads.update(0, head));
                },
                None => {
                    let forked = tree::recounted(counted, q, 1i8);
                    if t.heads[0].in_use() && t.heads[0].head_idx == q {
                        assert(false);
                    }
                    assert(grown(t, x, entry, parent, forked));
                    lemma_grown(t, x, entry, parent, forked);
                    lemma_inserted(t, x, entry, parent, forked, arrival, prev_hash, active_head);
                    lemma_still_childless(after.blocks, forked, x);
                },
            }
        },
        None => {
            assert(grown(t, x, entry, parent, counted));
            lemma_grown(t, x, entry, parent, counted);
            lemma_inserted(t, x, entry, parent, counted, arrival, prev_hash, active_head);
            lemma_still_childless(after.blocks, counted, x);
        },
    }
    assert(after.blocks[x as int].occupied());
}

proof fn lemma_still_childless(part: Seq<BlockEntry>, whole: Seq<BlockEntry>, idx: u32)
    requires
        fit::part_of(part, whole),
        tree::childless(whole, idx),
    ensures
        tree::childless(part, idx),
{
    assert forall|i: int| 0 <= i < part.len() && part[i].occupied() implies #[trigger]
        part[i].parent_ref != idx by {
        assert(whole[i].occupied() && whole[i].parent_ref == part[i].parent_ref);
    }
}

/// The branch of the one tip is attached to the block that it waited for.
proof fn lemma_tail_linked(u: Tips, x: u32)
    requires
        single(u),
        tree::present(u.blocks, x),
        tree::childless(u.blocks, x),
    ensures
        ({
            let after = tips::tails_linked(u, 0, 1, x);
            &&& single(after)
            &&& after.blocks.len() == u.blocks.len()
            &&& after.blocks[x as int].is_block(
                u.blocks[x as int].sequence,
                u.blocks[x as int].hash,
            )
        }),
{
    let s = u.blocks;
    let after = tips::tails_linked(u, 0, 1, x);
    assert(tips::tails_linked(tips::tail_linked(u, 0, x), 1, 1, x) == tips::tail_linked(u, 0, x));
    assert(after == tips::tail_linked(u, 0, x));
    assert(s[x as int].occupied());
    if tips::link_pending(u, 0, x) {
        let h = u.heads[0].head_idx;
        let tail = u.heads[0].tail_or_connection_idx;
        assert(s[tail as int].occupied());
        branching::lemma_descends_lower(s, h, tail, s.len());
        if h == x {
            assert(s[tail as int].sequence <= s[x as int].sequence);
        }
        fit::lemma_head_slot(u.heads, x, 0);
        let count = tree::adjusted_count(s[x as int].head_ref_count, 1i8);
        let b = s.update(tail as int, s[tail as int].with_parent(x)).update(
            x as int,
            s[x as int].with_count(count),
        );
        assert(after.blocks =~= b);
        lemma_linked(u, x, tail, count, b);
    }
}

proof fn lemma_linked(u: Tips, x: u32, tail: u32, count: u8, b: Seq<BlockEntry>)
    requires
        single(u),
        tree::present(u.blocks, x),
        tree::childless(u.blocks, x),
        u.heads[0].in_use(),
        u.heads[0].head_idx != x,
        tail == u.heads[0].tail_or_connection_idx,
        tail != x,
        tree::present(u.blocks, tail),
        u.blocks[tail as int].parent_ref == NONE_REF,
        u.blocks[tail as int].sequence == u.blocks[x as int].sequence + 1,
        count == tree::adjusted_count(u.blocks[x as int].head_ref_count, 1i8),
        b == u.blocks.update(tail as int, u.blocks[tail as int].with_parent(x)).update(
            x as int,
            u.blocks[x as int].with_count(count),
        ),
    ensures
        single(Tips { heads: u.heads, blocks: b }),
{
    let s = u.blocks;
    let h = u.heads[0].head_idx;
    let linked = s.update(tail as int, s[tail as int].with_parent(x));
    assert(s[x as int].occupied() && s[tail as int].occupied());
    assert forall|idx: u32| idx != NONE_REF implies #[trigger] fit::kids(b, idx) == fit::kids(
        s,
        idx,
    ) + fit::one_if(idx == x) by {
        fit::lemma_kids_update(s, tail as int, s[tail as int].with_parent(x), idx);
        fit::lemma_kids_update(linked, x as int, s[x as int].with_count(count), idx);
    }
    fit::lemma_kids_childless(s, x);
    fit::lemma_kids_childless(s, h);
    fit::lemma_kids_childless(b, h);
    assert(fit::kids(b, h) == fit::kids(s, h) + fit::one_if(h == x));
    assert(branching::rooted(b)) by {
        assert forall|i: int|
            0 <= i < b.len() && b[i].occupied() && #[trigger] b[i].parent_ref
                != NONE_REF implies tree::present(b, b[i].parent_ref)
            && b[b[i].parent_ref as int].sequence + 1 == b[i].sequence by {
            if i != tail {
                assert(s[i].parent_ref != NONE_REF);
            }
        }
    }
    branching::lemma_descends_linked(s, tail, x, count, h, tail, s.len());
    assert(guarded(b, h, b.len())) by {
        assert forall|p: u32| #[trigger]
            sheds(b, h, p, b.len()) && !b[p as int].active() && fit::kids(b, p)
                >= 2 implies b[p as int].head_ref_count >= 2 by {
            lemma_sheds_lower(b, h, p, b.len());
            assert(fit::kids(b, p) == fit::kids(s, p) + fit::one_if(p == x));
            assert(p != x);
            lemma_sheds_above(s, b, x, tail, h, p, b.len());
            lemma_sheds_lower(s, h, p, b.len());
        }
    }
}

/// A walk to another block than `x` in the linked tree stays above it.
proof fn lemma_sheds_above(
    s: Seq<BlockEntry>,
    b: Seq<BlockEntry>,
    x: u32,
    tail: u32,
    cur: u32,
    idx: u32,
    steps: nat,
)
    requires
        s.len() == b.len(),
        cur != x,
        idx != x,
        x < s.len(),
        b[x as int].active() || b[x as int].head_ref_count > 1,
        b[tail as int].parent_ref == x,
        forall|i: int| 0 <= i < s.len() && i != x && i != tail ==> #[trigger] b[i] == s[i],
        tail < s.len(),
        s[tail as int].occupied(),
        tail != x,
        sheds(b, cur, idx, steps),
    ensures
        sheds(s, cur, idx, steps),
    decreases steps,
{
    if cur != idx {
        let parent = b[cur as int].parent_ref;
        if parent == x {
            assert(!sheds(b, x, idx, (steps - 1) as nat));
        }
        if cur != tail {
            assert(b[cur as int] == s[cur as int]);
        }
        lemma_sheds_above(s, b, x, tail, parent, idx, (steps - 1) as nat);
    }
}

/// A table of one tip takes a block in: the block stands in the tree at its slot,
/// and nothing that the tip needs is lost.
pub proof fn single_tip_takes_blocks_in(
    t: Tips,
    x: u32,
    entry: BlockEntry,
    parent: Option<u32>,
    prev_hash: BlockHash,
    arrival: u64,
    active_head: u32,
)
    requires
        entering(t, x, entry, parent),
    ensures
        ({
            let base = Tips { heads: t.heads, blocks: t.blocks.update(x as int, entry) };
            let after = tips::block_admitted(base, x, parent, prev_hash, arrival, active_head);
            &&& single(after)
            &&& after.blocks.len() == t.blocks.len()
            &&& after.blocks[x as int].is_block(entry.sequence, entry.hash)
        }),
{
    let base = Tips { heads: t.heads, blocks: t.blocks.update(x as int, entry) };
    let u = tips::tip_admitted(base, x, parent, prev_hash, arrival, active_head);
    lemma_tip_admitted(t, x, entry, parent, prev_hash, arrival, active_head);
    let (known_idx, known_hash) = tips::branch_end(u.heads, x, prev_hash);
    let linked = tips::tails_linked(u, 0, 1, x);
    lemma_tail_linked(u, x);
    let hash = u.blocks[x as int].hash;
    let heads = tips::waiters_refreshed(
        linked.heads,
        linked.blocks,
        0,
        1,
        hash,
        known_idx,
        known_hash,
    );
    let after = tips::block_admitted(base, x, parent, prev_hash, arrival, active_head);
    assert(after == (Tips { heads, blocks: linked.blocks }));
    if linked.heads[0].waiting() && linked.heads[0].missing_parent_hash == hash {
        let fresh = tips::refreshed(linked.heads, linked.blocks, 0, known_idx, known_hash);
        branching::lemma_end_below(linked.heads, linked.blocks, 0, known_idx, known_hash);
        let next = linked.heads.update(0, fresh);
        assert(tips::waiters_refreshed(next, linked.blocks, 1, 1, hash, known_idx, known_hash)
            == next);
        assert(heads == next);
    } else {
        assert(tips::waiters_refreshed(
            linked.heads,
            linked.blocks,
            1,
            1,
            hash,
            known_idx,
            known_hash,
        ) == linked.heads);
        assert(heads == linked.heads);
    }
}

} // verus!
