//! What a collecting node can rely on because its tree and its tips fit
//! together: what it asks for is missing, and what it processes is whole.

use vstd::prelude::*;

use crate::acquisition;
use crate::api::{NextCall, NodeView, TickOutcome};
use crate::blocks as tree;
use crate::blocks::{BlockEntry, NONE_REF};
use crate::chain_heads as tips;
use crate::chain_heads::Anchor;
use crate::coherence as fit;
use crate::coherence_laws as laws;
use crate::coherent_admission as admission_fit;
use crate::hash;
use crate::hash::BlockHash;
use crate::processing;
use crate::tip_laws;

verus! {

/// The block at `idx` waits for a parent with the hash `missing`: it is linked
/// to none, and the tree does not hold that parent.
pub open spec fn lacks_parent(s: Seq<BlockEntry>, idx: u32, missing: BlockHash) -> bool {
    &&& tree::present(s, idx)
    &&& s[idx as int].sequence > 0
    &&& s[idx as int].parent_ref == NONE_REF
    &&& forall|i: int|
        0 <= i < s.len() ==> !(#[trigger] s[i]).is_block(
            (s[idx as int].sequence - 1) as u32,
            missing,
        )
}

/// A tip that waits does so for the lowest block of its own branch, whose parent
/// is not in the tree.
pub proof fn waiting_tips_lack_a_parent(node: NodeView, prev: Seq<BlockHash>, slot: int)
    requires
        laws::coherent_node(node, prev),
        0 <= slot < node.heads.len(),
        node.heads[slot].waiting(),
    ensures
        ({
            let head = node.heads[slot];
            let tail = head.tail_or_connection_idx;
            &&& tree::present(node.blocks, head.head_idx)
            &&& lacks_parent(node.blocks, tail, head.missing_parent_hash)
            &&& head.missing_parent_hash == prev[tail as int]
        }),
{
    let s = node.blocks;
    let head = node.heads[slot];
    let t = node.tips();
    assert(t.heads[slot].in_use());
    assert(fit::knows_its_end(t.heads[slot], s));
    assert(fit::knows_its_parent(t.heads[slot], prev));
    admission_fit::lemma_anchor_end(s, prev, head.head_idx);
    let tail = head.tail_or_connection_idx;
    assert(s[tail as int].occupied());
    assert forall|i: int| 0 <= i < s.len() implies !(#[trigger] s[i]).is_block(
        (s[tail as int].sequence - 1) as u32,
        head.missing_parent_hash,
    ) by {}
}

/// Every request names a parent that a block of the tree waits for, by the hash
/// that the block itself gives and at the sequence below its own, and that the
/// tree does not hold.
pub proof fn requests_name_missing_parents(node: NodeView, prev: Seq<BlockHash>, now: u64)
    requires
        laws::coherent_node(node, prev),
    ensures
        node.ticked(now).0 matches TickOutcome::SendParentRecoveryRequest(request) ==> exists|
            idx: u32,
        | #[trigger]
            lacks_parent(node.blocks, idx, request.missing_parent_hash)
                && request.missing_parent_hash == prev[idx as int]
                && request.claimed_parent_sequence + 1 == node.blocks[idx as int].sequence,
{
    if let TickOutcome::SendParentRecoveryRequest(request) = node.ticked(now).0 {
        let (min_emit, retry) = node.recovery_intervals()->0;
        tip_laws::longest_waiting_tip_asks(node.heads, node.blocks, now, retry);
        let (slot, _) = tips::parent_request(node.heads, node.blocks, now, retry)->0;
        waiting_tips_lack_a_parent(node, prev, slot);
        assert(lacks_parent(
            node.blocks,
            node.heads[slot].tail_or_connection_idx,
            request.missing_parent_hash,
        ));
    }
}

/// For every block of the tree whose parent is missing, a tip waits for that very
/// parent.
pub proof fn missing_parents_are_waited_for(
    node: NodeView,
    prev: Seq<BlockHash>,
    idx: u32,
) -> (slot: int)
    requires
        laws::coherent_node(node, prev),
        tree::present(node.blocks, idx),
        node.blocks[idx as int].parent_ref == NONE_REF,
        node.blocks[idx as int].sequence > 0,
    ensures
        0 <= slot < node.heads.len(),
        node.heads[slot].waiting(),
        node.heads[slot].tail_or_connection_idx == idx,
        node.heads[slot].missing_parent_hash == prev[idx as int],
{
    let t = node.tips();
    let s = node.blocks;
    let none = Set::<u32>::empty();
    assert(s[idx as int].occupied());
    let tip = fit::lemma_tip_above(t, prev, node.active_head, none, idx);
    assert(fit::is_tip(t.heads, tip));
    let slot = choose|slot: int|
        0 <= slot < t.heads.len() && (#[trigger] t.heads[slot]).in_use() && t.heads[slot].head_idx
            == tip;
    assert(fit::knows_its_end(t.heads[slot], s));
    assert(fit::knows_its_parent(t.heads[slot], prev));
    fit::lemma_anchor_of_descendant(s, prev, node.active_head, tip, idx, s.len());
    fit::lemma_anchor_step(s, prev, idx);
    slot
}

/// The announced instant is exact in every coherent node.
pub proof fn next_call_is_exact_while_collecting(node: NodeView, prev: Seq<BlockHash>, now: u64)
    requires
        laws::coherent_node(node, prev),
    ensures
        match node.next_call() {
            NextCall::At(instant) => (node.ticked(now).0 is SendParentRecoveryRequest) == (now
                >= instant),
            NextCall::Idle => node.ticked(now).0 is Idle,
        },
{
    assert forall|i: int|
        0 <= i < node.heads.len() && (#[trigger] node.heads[i]).waiting() implies tree::present(
        node.blocks,
        node.heads[i].head_idx,
    ) && tree::present(node.blocks, node.heads[i].tail_or_connection_idx) by {
        waiting_tips_lack_a_parent(node, prev, i);
    }
    tip_laws::next_call_is_exact(node, now);
}

/// A candidate without a gap: its slots hold one block each from the tip down to
/// a block that is linked to none, each the parent of the one before it and one
/// sequence lower.
pub open spec fn whole(s: Seq<BlockEntry>, segment: Seq<u32>, from: int) -> bool {
    &&& from < segment.len()
    &&& forall|k: int|
        from <= k < segment.len() ==> {
            &&& tree::present(s, #[trigger] segment[k])
            &&& s[segment[k] as int].sequence == s[segment[from] as int].sequence - (k - from)
        }
    &&& forall|k: int, l: int|
        from <= k && k + 1 == l && l < segment.len() ==> #[trigger] segment[l]
            == s[#[trigger] segment[k] as int].parent_ref
    &&& s[segment.last() as int].parent_ref == NONE_REF
}

pub(crate) proof fn lemma_whole(
    s: Seq<BlockEntry>,
    prev: Seq<BlockHash>,
    active_head: u32,
    cur: u32,
    steps: nat,
    above: Seq<u32>,
)
    requires
        fit::linked(s, prev),
        fit::marked(s, active_head),
        tree::present(s, cur),
        steps >= fit::below(s, s[cur as int].sequence as int),
    ensures
        processing::segment_below(s, cur, steps, above) matches Ok(segment) && {
            &&& whole(s, segment, above.len() as int)
            &&& segment[above.len() as int] == cur
            &&& forall|i: int| 0 <= i < above.len() ==> #[trigger] segment[i] == above[i]
            &&& match tips::tip_anchor(s, cur) {
                Anchor::Connection(idx) => segment.last() == idx,
                Anchor::Tail(idx) => segment.last() == idx,
            }
        },
    decreases s[cur as int].sequence,
{
    fit::lemma_below_step(s, cur);
    fit::lemma_anchor_step(s, prev, cur);
    let entry = s[cur as int];
    let at = above.len() as int;
    if entry.parent_ref != NONE_REF {
        let next = above.push(cur);
        lemma_whole(s, prev, active_head, entry.parent_ref, (steps - 1) as nat, next);
        let segment = processing::segment_below(s, cur, steps, above)->Ok_0;
        assert(segment[at] == next[at]);
        assert forall|i: int| 0 <= i < above.len() implies #[trigger] segment[i] == above[i] by {
            assert(segment[i] == next[i]);
        }
        assert(segment[at + 1] == entry.parent_ref);
    }
}

/// The candidate of every tip is whole, and it ends in the block that the tip
/// names as the lowest of its branch; so it has the length by which it is
/// measured.
pub proof fn candidates_are_whole(node: NodeView, prev: Seq<BlockHash>, slot: int)
    requires
        laws::coherent_node(node, prev),
        0 <= slot < node.heads.len(),
        node.heads[slot].in_use(),
    ensures
        ({
            let s = node.blocks;
            let head = node.heads[slot];
            processing::candidate(s, head.head_idx) matches Ok(segment) && {
                &&& whole(s, segment, 0)
                &&& segment[0] == head.head_idx
                &&& segment.last() == head.tail_or_connection_idx
                &&& segment.len() == acquisition::branch_length(
                    s[head.head_idx as int].sequence,
                    s[head.tail_or_connection_idx as int].sequence,
                )
            }
        }),
{
    let s = node.blocks;
    let t = node.tips();
    let tip = node.heads[slot].head_idx;
    assert(t.heads[slot].in_use());
    assert(fit::knows_its_end(t.heads[slot], s));
    assert(s[tip as int].occupied());
    fit::lemma_below_bound(s, s[tip as int].sequence as int);
    lemma_whole(s, prev, node.active_head, tip, s.len(), Seq::empty());
}

/// Whether the candidate that ends in `idx` can be processed: it reaches down to
/// the first block of the chain, or is at least `window` blocks long.
pub open spec fn eligible(s: Seq<BlockEntry>, idx: u32, window: u32) -> bool {
    processing::candidate(s, idx) matches Ok(segment) && (s[segment.last() as int].sequence == 0
        || segment.len() >= window)
}

/// The chosen candidate tops the whole tree: of all the blocks off the active
/// chain that end an eligible candidate, none dominates the tip of the chosen
/// one. Where there is such a block, a candidate is chosen.
pub proof fn dominant_candidate_tops_the_tree(
    node: NodeView,
    prev: Seq<BlockHash>,
    window: u32,
    idx: u32,
)
    requires
        laws::coherent_node(node, prev),
        tree::present(node.blocks, idx),
        !node.blocks[idx as int].active(),
        eligible(node.blocks, idx, window),
    ensures
        acquisition::dominant(node.blocks, node.heads, window) matches Some(tip)
            && !acquisition::dominates(node.blocks, idx, tip),
{
    let t = node.tips();
    let s = node.blocks;
    let none = Set::<u32>::empty();
    let above = fit::lemma_tip_above(t, prev, node.active_head, none, idx);
    assert(fit::is_tip(t.heads, above));
    let slot = choose|slot: int|
        0 <= slot < t.heads.len() && (#[trigger] t.heads[slot]).in_use() && t.heads[slot].head_idx
            == above;
    fit::lemma_anchor_of_descendant(s, prev, node.active_head, above, idx, s.len());
    fit::lemma_descends_lower(s, prev, above, idx, s.len());
    fit::lemma_below_bound(s, s[idx as int].sequence as int);
    lemma_whole(s, prev, node.active_head, idx, s.len(), Seq::empty());
    candidates_are_whole(node, prev, slot);
    assert(acquisition::qualifies(s, node.heads[slot], window));
    acquisition::dominant_candidate_is_undominated(s, node.heads, window);
    let tip = acquisition::dominant(s, node.heads, window)->0;
    assert(!acquisition::dominates(s, above, tip));
    if above != idx {
        fit::lemma_descends_lower(
            s,
            prev,
            s[above as int].parent_ref,
            idx,
            (s.len() - 1) as nat,
        );
        assert(s[above as int].occupied());
    }
}

// -- The same choice everywhere ----------------------------------------------

/// The two slots hold the same block.
pub open spec fn same_content(
    a: NodeView,
    prev_a: Seq<BlockHash>,
    i: int,
    b: NodeView,
    prev_b: Seq<BlockHash>,
    j: int,
) -> bool {
    &&& a.blocks[i].sequence == b.blocks[j].sequence
    &&& a.blocks[i].hash == b.blocks[j].hash
    &&& prev_a[i] == prev_b[j]
}

/// Every block of `a` is a block of `b`, wherever it stands.
#[verifier::opaque]
pub open spec fn held_by(
    a: NodeView,
    prev_a: Seq<BlockHash>,
    b: NodeView,
    prev_b: Seq<BlockHash>,
) -> bool {
    forall|i: int|
        0 <= i < a.blocks.len() && (#[trigger] a.blocks[i]).occupied() ==> exists|j: int|
            0 <= j < b.blocks.len() && (#[trigger] b.blocks[j]).occupied() && same_content(
                a,
                prev_a,
                i,
                b,
                prev_b,
                j,
            )
}

/// The slot in `b` of a block of `a`.
proof fn lemma_counterpart(
    a: NodeView,
    prev_a: Seq<BlockHash>,
    b: NodeView,
    prev_b: Seq<BlockHash>,
    i: int,
) -> (j: int)
    requires
        held_by(a, prev_a, b, prev_b),
        0 <= i < a.blocks.len(),
        a.blocks[i].occupied(),
    ensures
        0 <= j < b.blocks.len(),
        b.blocks[j].occupied(),
        same_content(a, prev_a, i, b, prev_b, j),
{
    reveal(held_by);
    choose|j: int|
        0 <= j < b.blocks.len() && (#[trigger] b.blocks[j]).occupied() && same_content(
            a,
            prev_a,
            i,
            b,
            prev_b,
            j,
        )
}

/// The lowest block of the branch below `idx`.
spec fn lowest(s: Seq<BlockEntry>, idx: u32) -> u32 {
    match tips::tip_anchor(s, idx) {
        Anchor::Connection(end) => end,
        Anchor::Tail(end) => end,
    }
}

/// What coherence says of links and marks.
spec fn shaped(node: NodeView, prev: Seq<BlockHash>) -> bool {
    &&& fit::linked(node.blocks, prev)
    &&& fit::complete(node.blocks, prev, NONE_REF)
    &&& fit::marked(node.blocks, node.active_head)
    &&& tree::unique_blocks(node.blocks)
}

/// A branch reaches equally far down in both nodes.
proof fn lemma_same_end(
    a: NodeView,
    prev_a: Seq<BlockHash>,
    b: NodeView,
    prev_b: Seq<BlockHash>,
    i: int,
    j: int,
)
    requires
        shaped(a, prev_a),
        shaped(b, prev_b),
        held_by(a, prev_a, b, prev_b),
        held_by(b, prev_b, a, prev_a),
        0 <= i < a.blocks.len(),
        0 <= j < b.blocks.len(),
        a.blocks[i].occupied(),
        b.blocks[j].occupied(),
        same_content(a, prev_a, i, b, prev_b, j),
    ensures
        a.blocks[lowest(a.blocks, i as u32) as int].sequence
            == b.blocks[lowest(b.blocks, j as u32) as int].sequence,
    decreases a.blocks[i].sequence,
{
    fit::lemma_anchor_step(a.blocks, prev_a, i as u32);
    fit::lemma_anchor_step(b.blocks, prev_b, j as u32);
    let p = a.blocks[i].parent_ref;
    let q = b.blocks[j].parent_ref;
    if a.blocks[i].sequence > 0 {
        if p != NONE_REF {
            let r = lemma_counterpart(a, prev_a, b, prev_b, p as int);
            assert(q != NONE_REF);
            assert(a.blocks[i].parent_ref == p && b.blocks[j].parent_ref == q);
            assert(b.blocks[r].is_block(
                a.blocks[p as int].sequence,
                a.blocks[p as int].hash,
            ));
            assert(b.blocks[q as int].is_block(
                a.blocks[p as int].sequence,
                a.blocks[p as int].hash,
            ));
            assert(r == q);
            lemma_same_end(a, prev_a, b, prev_b, p as int, q as int);
        } else if q != NONE_REF {
            assert(b.blocks[j].parent_ref == q);
            let r = lemma_counterpart(b, prev_b, a, prev_a, q as int);
            assert(a.blocks[r].occupied());
            assert(false);
        }
    }
}

/// The counterpart of an eligible block is eligible.
proof fn lemma_same_eligible(
    a: NodeView,
    prev_a: Seq<BlockHash>,
    b: NodeView,
    prev_b: Seq<BlockHash>,
    i: int,
    j: int,
    window: u32,
)
    requires
        shaped(a, prev_a),
        shaped(b, prev_b),
        held_by(a, prev_a, b, prev_b),
        held_by(b, prev_b, a, prev_a),
        0 <= i < a.blocks.len(),
        0 <= j < b.blocks.len(),
        a.blocks[i].occupied(),
        b.blocks[j].occupied(),
        same_content(a, prev_a, i, b, prev_b, j),
        eligible(a.blocks, i as u32, window),
    ensures
        eligible(b.blocks, j as u32, window),
{
    lemma_same_end(a, prev_a, b, prev_b, i, j);
    fit::lemma_below_bound(a.blocks, a.blocks[i].sequence as int);
    fit::lemma_below_bound(b.blocks, b.blocks[j].sequence as int);
    lemma_whole(
        a.blocks,
        prev_a,
        a.active_head,
        i as u32,
        a.blocks.len(),
        Seq::empty(),
    );
    lemma_whole(
        b.blocks,
        prev_b,
        b.active_head,
        j as u32,
        b.blocks.len(),
        Seq::empty(),
    );
}

/// Nodes that hold the same blocks choose the same candidate, in whatever order
/// the blocks arrived and wherever they stand, as soon as one of them chooses
/// more than the first block of the chain.
pub proof fn the_choice_is_the_same_everywhere(
    a: NodeView,
    prev_a: Seq<BlockHash>,
    b: NodeView,
    prev_b: Seq<BlockHash>,
    window: u32,
)
    requires
        laws::coherent_node(a, prev_a),
        laws::coherent_node(b, prev_b),
        tree::unique_blocks(a.blocks),
        tree::unique_blocks(b.blocks),
        held_by(a, prev_a, b, prev_b),
        held_by(b, prev_b, a, prev_a),
        acquisition::dominant(a.blocks, a.heads, window) matches Some(tip)
            && a.blocks[tip as int].sequence > 0,
    ensures
        ({
            let tip = acquisition::dominant(a.blocks, a.heads, window)->0;
            acquisition::dominant(b.blocks, b.heads, window) matches Some(other) && {
                &&& b.blocks[other as int].sequence == a.blocks[tip as int].sequence
                &&& b.blocks[other as int].hash == a.blocks[tip as int].hash
            }
        }),
{
    let tip = acquisition::dominant(a.blocks, a.heads, window)->0;
    lemma_choice_is_eligible(a, prev_a, window);
    let j = lemma_counterpart(a, prev_a, b, prev_b, tip as int);
    lemma_same_eligible(a, prev_a, b, prev_b, tip as int, j, window);
    dominant_candidate_tops_the_tree(b, prev_b, window, j as u32);
    let other = acquisition::dominant(b.blocks, b.heads, window)->0;
    lemma_choice_is_eligible(b, prev_b, window);
    let i = lemma_counterpart(b, prev_b, a, prev_a, other as int);
    lemma_same_eligible(b, prev_b, a, prev_a, other as int, i, window);
    dominant_candidate_tops_the_tree(a, prev_a, window, i as u32);
    hash::lex_less_total(a.blocks[tip as int].hash, b.blocks[other as int].hash);
}

proof fn lemma_choice_is_eligible(node: NodeView, prev: Seq<BlockHash>, window: u32)
    requires
        laws::coherent_node(node, prev),
    ensures
        acquisition::dominant(node.blocks, node.heads, window) matches Some(tip)
            ==> tree::present(node.blocks, tip) && eligible(node.blocks, tip, window),
{
    acquisition::dominant_candidate_is_undominated(node.blocks, node.heads, window);
    if let Some(tip) = acquisition::dominant(node.blocks, node.heads, window) {
        let slot = choose|slot: int|
            0 <= slot < node.heads.len() && acquisition::qualifies(
                node.blocks,
                #[trigger] node.heads[slot],
                window,
            ) && node.heads[slot].head_idx == tip;
        candidates_are_whole(node, prev, slot);
    }
}

} // verus!
