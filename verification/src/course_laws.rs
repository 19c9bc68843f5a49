//! What an acquisition comes to depends on the blocks that are held and on the
//! answers it gets, not on how the node came by the blocks.

use vstd::prelude::*;

use crate::acquisition;
use crate::acquisition::{AcquisitionEvent, ActionView, Progress, RunView, StageView};
use crate::admission;
use crate::api::NodeView;
use crate::block_data::{ChainBlock, PAYLOAD_TYPE_BALANCE, PAYLOAD_TYPE_CHAIN_CONFIG};
use crate::blocks as tree;
use crate::blocks::{BlockEntry, NONE_REF};
use crate::chain_heads as tips;
use crate::chain_heads::{ChainHeadEntry, Tips};
use crate::coherence as fit;
use crate::coherence_laws as laws;
use crate::coherent_deletion as deletion_fit;
use crate::derivation;
use crate::derivation::{CheckView, ProcessingError, ValidationReason, VoteEngineError};
use crate::hash;
use crate::hash::BlockHash;
use crate::lifecycle::LifecyclePhase;
use crate::likeness as like;
use crate::processing;
use crate::recovery;
use crate::restart;
use crate::restart::ControlPlane;
use crate::restart_laws;

verus! {

/// Whether two nodes hold the same blocks in the same slots, with the same
/// parents and marks, the same active head and the same configuration, and are
/// in the same phase. They may differ in branch counts, in the table of tips and
/// in what the clock and the generator have left.
pub open spec fn same_standing(a: NodeView, b: NodeView) -> bool {
    &&& like::akin(a.blocks, b.blocks)
    &&& a.phase == b.phase
    &&& a.active_head == b.active_head
    &&& a.config == b.config
    &&& a.config_source == b.config_source
    &&& a.anchor_key == b.anchor_key
    &&& a.registration_size == b.registration_size
    &&& a.info.seeds.len() == b.info.seeds.len()
}

/// Whether two collecting nodes stand alike: the first block of the chain is a
/// tip of both or of neither. Of every other block coherence says whether it is.
pub open spec fn same_course(
    a: NodeView,
    prev_a: Seq<BlockHash>,
    b: NodeView,
    prev_b: Seq<BlockHash>,
) -> bool {
    &&& laws::coherent_node(a, prev_a)
    &&& laws::coherent_node(b, prev_b)
    &&& tree::unique_blocks(a.blocks)
    &&& same_standing(a, b)
    &&& fit::is_tip(a.heads, a.active_head) == fit::is_tip(b.heads, b.active_head)
}

/// Whether two steps came to the same.
pub open spec fn same_progress(a: Progress, b: Progress) -> bool {
    &&& a.action == b.action
    &&& a.run == b.run
    &&& same_standing(a.node, b.node)
}

// -- Tips --------------------------------------------------------------------

proof fn lemma_same_tips(a: NodeView, prev_a: Seq<BlockHash>, b: NodeView, prev_b: Seq<BlockHash>)
    requires
        same_course(a, prev_a, b, prev_b),
    ensures
        forall|idx: u32| #[trigger] fit::is_tip(a.heads, idx) == fit::is_tip(b.heads, idx),
{
    like::lemma_akin(a.blocks, b.blocks);
    assert forall|idx: u32| #[trigger] fit::is_tip(a.heads, idx) == fit::is_tip(b.heads, idx) by {
        if fit::is_tip(a.heads, idx) {
            lemma_tip_shared(a, prev_a, b, prev_b, idx);
        }
        if fit::is_tip(b.heads, idx) {
            assert(same_standing(b, a));
            lemma_tip_shared(b, prev_b, a, prev_a, idx);
        }
    }
}

proof fn lemma_tip_shared(
    a: NodeView,
    prev_a: Seq<BlockHash>,
    b: NodeView,
    prev_b: Seq<BlockHash>,
    idx: u32,
)
    requires
        laws::coherent_node(a, prev_a),
        laws::coherent_node(b, prev_b),
        same_standing(a, b),
        fit::is_tip(a.heads, a.active_head) == fit::is_tip(b.heads, b.active_head),
        fit::is_tip(a.heads, idx),
    ensures
        fit::is_tip(b.heads, idx),
{
    let slot = choose|slot: int|
        0 <= slot < a.heads.len() && (#[trigger] a.heads[slot]).in_use() && a.heads[slot].head_idx
            == idx;
    assert(a.tips().heads[slot].in_use());
    assert(like::same_entry(a.blocks[idx as int], b.blocks[idx as int]));
    like::lemma_childless(a.blocks, b.blocks, idx);
    assert(b.tips().blocks[idx as int].occupied());
    if b.blocks[idx as int].active() {
        assert(idx == b.active_head);
    }
}

/// The tips of one node stand for candidates where those of the other do.
proof fn lemma_qualifies(
    a: NodeView,
    prev_a: Seq<BlockHash>,
    b: NodeView,
    prev_b: Seq<BlockHash>,
    window: u32,
    slot: int,
) -> (other: int)
    requires
        laws::coherent_node(a, prev_a),
        laws::coherent_node(b, prev_b),
        same_standing(a, b),
        fit::is_tip(a.heads, a.active_head) == fit::is_tip(b.heads, b.active_head),
        0 <= slot < a.heads.len(),
        acquisition::qualifies(a.blocks, a.heads[slot], window),
    ensures
        0 <= other < b.heads.len(),
        acquisition::qualifies(b.blocks, b.heads[other], window),
        b.heads[other].head_idx == a.heads[slot].head_idx,
{
    let tip = a.heads[slot].head_idx;
    lemma_tip_shared(a, prev_a, b, prev_b, tip);
    let other = choose|k: int|
        0 <= k < b.heads.len() && (#[trigger] b.heads[k]).in_use() && b.heads[k].head_idx == tip;
    like::lemma_anchor(a.blocks, b.blocks, tip);
    assert(fit::knows_its_end(a.tips().heads[slot], a.blocks));
    assert(fit::knows_its_end(b.tips().heads[other], b.blocks));
    let end = a.heads[slot].tail_or_connection_idx;
    assert(like::same_entry(a.blocks[tip as int], b.blocks[tip as int]));
    assert(like::same_entry(a.blocks[end as int], b.blocks[end as int]));
    other
}

/// The same candidate is chosen.
proof fn lemma_dominant(
    a: NodeView,
    prev_a: Seq<BlockHash>,
    b: NodeView,
    prev_b: Seq<BlockHash>,
    window: u32,
)
    requires
        same_course(a, prev_a, b, prev_b),
    ensures
        acquisition::dominant(a.blocks, a.heads, window) == acquisition::dominant(
            b.blocks,
            b.heads,
            window,
        ),
{
    like::lemma_akin(a.blocks, b.blocks);
    assert(same_standing(b, a));
    acquisition::dominant_candidate_is_undominated(a.blocks, a.heads, window);
    acquisition::dominant_candidate_is_undominated(b.blocks, b.heads, window);
    let one = acquisition::dominant(a.blocks, a.heads, window);
    let two = acquisition::dominant(b.blocks, b.heads, window);
    if let Some(x) = one {
        let i = choose|i: int|
            0 <= i < a.heads.len() && acquisition::qualifies(
                a.blocks,
                #[trigger] a.heads[i],
                window,
            ) && a.heads[i].head_idx == x;
        let j = lemma_qualifies(a, prev_a, b, prev_b, window, i);
        assert(two is Some);
        let y = two->0;
        let k = choose|k: int|
            0 <= k < b.heads.len() && acquisition::qualifies(
                b.blocks,
                #[trigger] b.heads[k],
                window,
            ) && b.heads[k].head_idx == y;
        let l = lemma_qualifies(b, prev_b, a, prev_a, window, k);
        assert(!acquisition::dominates(a.blocks, a.heads[l].head_idx, x));
        assert(!acquisition::dominates(b.blocks, b.heads[j].head_idx, y));
        assert(like::same_entry(a.blocks[x as int], b.blocks[x as int]));
        assert(like::same_entry(a.blocks[y as int], b.blocks[y as int]));
        hash::lex_less_total(a.blocks[x as int].hash, a.blocks[y as int].hash);
        if x < y {
            assert(a.blocks[x as int].occupied() && a.blocks[y as int].occupied());
        }
        if y < x {
            assert(a.blocks[y as int].occupied() && a.blocks[x as int].occupied());
        }
    } else if let Some(y) = two {
        let k = choose|k: int|
            0 <= k < b.heads.len() && acquisition::qualifies(
                b.blocks,
                #[trigger] b.heads[k],
                window,
            ) && b.heads[k].head_idx == y;
        let l = lemma_qualifies(b, prev_b, a, prev_a, window, k);
        assert(!acquisition::qualifies(a.blocks, a.heads[l], window));
    }
}

/// Looking for a candidate finds the same one.
proof fn lemma_sought(
    a: NodeView,
    prev_a: Seq<BlockHash>,
    b: NodeView,
    prev_b: Seq<BlockHash>,
    window: u32,
    run: RunView,
)
    requires
        same_course(a, prev_a, b, prev_b),
    ensures
        same_progress(a.sought(window, run), b.sought(window, run)),
        same_course(
            a.sought(window, run).node,
            prev_a,
            b.sought(window, run).node,
            prev_b,
        ),
{
    lemma_dominant(a, prev_a, b, prev_b, window);
    if let Some(tip) = acquisition::dominant(a.blocks, a.heads, window) {
        like::lemma_ways(a.blocks, b.blocks, tip, a.blocks.len(), Seq::empty());
        assert(a.sought(window, run).node.tips() == a.tips());
        assert(b.sought(window, run).node.tips() == b.tips());
    }
}

// -- Passes ------------------------------------------------------------------

/// A pass over the same candidate finds the same.
proof fn lemma_passed(
    a: NodeView,
    b: NodeView,
    tip: u32,
    reads: Seq<Option<ChainBlock>>,
    vote_failure: Option<(int, VoteEngineError)>,
    holds: spec_fn(CheckView) -> bool,
)
    requires
        same_standing(a, b),
    ensures
        ({
            let x = a.passed(tip, reads, vote_failure, holds);
            let y = b.passed(tip, reads, vote_failure, holds);
            &&& same_standing(x.node, y.node)
            &&& x.segment == y.segment
            &&& x.checks == y.checks
            &&& x.failure == y.failure
            &&& x.node.heads == a.heads
            &&& y.node.heads == b.heads
        }),
{
    let s = a.blocks;
    let r = b.blocks;
    like::lemma_ways(s, r, tip, s.len(), Seq::empty());
    like::lemma_cleared(s, r, processing::candidate_path(s, tip), 0);
    if let Ok(segment) = processing::candidate(s, tip) {
        processing::candidate_is_in_the_tree(s, tip);
        like::lemma_kind(s, r, segment, PAYLOAD_TYPE_CHAIN_CONFIG, segment.len());
        like::lemma_kind(s, r, segment, PAYLOAD_TYPE_BALANCE, segment.len());
        like::lemma_cleared(s, r, segment, 0);
        assert(tree::present(s, segment[segment.len() - 1]));
        assert(like::same_entry(s[segment.last() as int], r[segment.last() as int]));
        let ctx = a.pass_view(segment, reads, vote_failure, holds);
        assert(b.pass_view(segment, reads, vote_failure, holds) == ctx);
        assert(a.preload_failure(tip, segment, reads) == b.preload_failure(tip, segment, reads));
        let x = a.pass_start(segment, reads);
        let y = b.pass_start(segment, reads);
        like::lemma_walk(x, y, ctx, segment.len(), None);
        like::lemma_cleared(
            derivation::segment_derived(x, ctx, segment.len(), None).0.blocks,
            derivation::segment_derived(y, ctx, segment.len(), None).0.blocks,
            segment,
            0,
        );
    }
}

/// What the verdicts come to is the same.
proof fn lemma_settled(
    a: NodeView,
    b: NodeView,
    segment: Seq<u32>,
    checks: Seq<CheckView>,
    failure: Option<ProcessingError>,
    verdicts: Seq<bool>,
)
    requires
        same_standing(a, b),
    ensures
        ({
            let (x, failed) = a.settled(segment, checks, failure, verdicts);
            let (y, other) = b.settled(segment, checks, failure, verdicts);
            &&& same_standing(x, y)
            &&& failed == other
            &&& x.heads == a.heads
            &&& y.heads == b.heads
        }),
{
    like::lemma_cleared(a.blocks, b.blocks, segment, 0);
}

proof fn lemma_abandoned(a: NodeView, b: NodeView)
    requires
        same_standing(a, b),
    ensures
        same_standing(a.abandoned(), b.abandoned()),
{
    like::lemma_all_unspent(a.blocks, b.blocks);
}

proof fn lemma_activated(a: NodeView, b: NodeView, tip: u32)
    requires
        same_standing(a, b),
    ensures
        same_standing(a.activated(tip), b.activated(tip)),
{
    like::lemma_promoted(a.blocks, b.blocks, tip, a.blocks.len());
}

// -- Deletion ----------------------------------------------------------------

/// What follows a deletion leaves two trees alike.
proof fn lemma_follow_up(x: Tips, y: Tips, gone: Seq<u32>, parent: u32)
    requires
        like::akin(x.blocks, y.blocks),
    ensures
        like::akin(
            tips::subtree_dropped(x, gone, parent).blocks,
            tips::subtree_dropped(y, gone, parent).blocks,
        ),
        like::akin(x.blocks, tips::subtree_dropped(x, gone, parent).blocks),
{
    let u = tips::subtree_dropped(x, gone, parent).blocks;
    let v = tips::subtree_dropped(y, gone, parent).blocks;
    tips::deletion_follow_up_only_counts(x, gone, parent);
    tips::deletion_follow_up_only_counts(y, gone, parent);
    like::lemma_counts_only(x.blocks, u);
    like::lemma_counts_only(y.blocks, v);
    like::lemma_akin(x.blocks, u);
    like::lemma_akin(u, x.blocks);
    like::lemma_akin(x.blocks, y.blocks);
    assert(like::akin(x.blocks, v));
    assert(like::akin(u, v));
}

proof fn lemma_deleted(a: NodeView, b: NodeView, target: u32)
    requires
        same_standing(a, b),
    ensures
        same_standing(a.subtree_deleted(target), b.subtree_deleted(target)),
        a.subtree_deleted(target).blocks.len() == a.blocks.len(),
{
    like::lemma_subtree(a.blocks, b.blocks, target);
    like::lemma_akin(a.blocks, b.blocks);
    assert(tree::present(a.blocks, target) == tree::present(b.blocks, target));
    if tree::present(a.blocks, target) {
        assert(like::same_entry(a.blocks[target as int], b.blocks[target as int]));
    }
    assert(a.parent_of(target) == b.parent_of(target));
    let gone = tree::subtree(a.blocks, target);
    let parent = a.parent_of(target);
    let x = Tips { heads: a.heads, blocks: tree::without_subtree(a.blocks, target) };
    let y = Tips { heads: b.heads, blocks: tree::without_subtree(b.blocks, target) };
    lemma_follow_up(x, y, gone, parent);
    like::lemma_akin(
        tips::subtree_dropped(x, gone, parent).blocks,
        tips::subtree_dropped(y, gone, parent).blocks,
    );
    assert(tree::present(tips::subtree_dropped(x, gone, parent).blocks, a.config_source)
        == tree::present(tips::subtree_dropped(y, gone, parent).blocks, b.config_source));
}

proof fn lemma_recovered(a: NodeView, b: NodeView, error: ProcessingError, tip: u32)
    requires
        same_standing(a, b),
        a.blocks.len() <= NONE_REF,
    ensures
        same_standing(a.recovered(error, tip), b.recovered(error, tip)),
{
    let target = recovery::deletion_target(error, tip);
    like::lemma_subtree(a.blocks, b.blocks, target);
    like::lemma_akin(a.blocks, b.blocks);
    assert(tree::present(a.blocks, target) == tree::present(b.blocks, target));
    if tree::present(a.blocks, target) {
        assert(like::same_entry(a.blocks[target as int], b.blocks[target as int]));
    }
    let x = tree::without_subtree(a.blocks, target);
    let y = tree::without_subtree(b.blocks, target);
    like::lemma_akin(x, y);
    assert(tree::present(x, a.config_source) == tree::present(y, b.config_source));
    like::lemma_marking(x, y);
    lemma_follow_up(
        Tips { heads: a.heads, blocks: recovery::marking_restored(x) },
        Tips { heads: b.heads, blocks: recovery::marking_restored(y) },
        tree::subtree(a.blocks, target),
        a.parent_of(target),
    );
}

proof fn lemma_mismatches(
    a: NodeView,
    b: NodeView,
    contents: Seq<Option<Seq<u8>>>,
    from: int,
    end: int,
)
    requires
        same_standing(a, b),
        0 <= from,
        end == a.blocks.len(),
    ensures
        same_standing(
            a.mismatches_deleted(contents, from, end),
            b.mismatches_deleted(contents, from, end),
        ),
        a.mismatches_deleted(contents, from, end).blocks.len() == a.blocks.len(),
    decreases end - from,
{
    if from < end {
        assert(like::same_entry(a.blocks[from], b.blocks[from]));
        lemma_deleted(a, b, from as u32);
        lemma_mismatches(
            a.subtree_deleted(from as u32),
            b.subtree_deleted(from as u32),
            contents,
            from + 1,
            end,
        );
        lemma_mismatches(a, b, contents, from + 1, end);
    }
}

proof fn lemma_oversized(a: NodeView, b: NodeView, limit: u16, from: int, end: int)
    requires
        same_standing(a, b),
        0 <= from,
        end == a.blocks.len(),
    ensures
        same_standing(
            a.oversized_deleted(limit, from, end),
            b.oversized_deleted(limit, from, end),
        ),
    decreases end - from,
{
    if from < end {
        assert(like::same_entry(a.blocks[from], b.blocks[from]));
        lemma_deleted(a, b, from as u32);
        lemma_oversized(
            a.subtree_deleted(from as u32),
            b.subtree_deleted(from as u32),
            limit,
            from + 1,
            end,
        );
        lemma_oversized(a, b, limit, from + 1, end);
    }
}

// -- Tips after a deletion ---------------------------------------------------

/// Whether a tip is among `gone`.
spec fn tip_gone(heads: Seq<ChainHeadEntry>, gone: Seq<u32>) -> bool {
    exists|idx: u32| #[trigger] fit::is_tip(heads, idx) && gone.contains(idx)
}

proof fn lemma_refreshed_tips(
    heads: Seq<ChainHeadEntry>,
    blocks: Seq<BlockEntry>,
    slot: int,
)
    requires
        0 <= slot <= heads.len(),
    ensures
        ({
            let after = tips::all_refreshed(heads, blocks, slot, heads.len() as int);
            &&& after.len() == heads.len()
            &&& forall|i: int|
                0 <= i < heads.len() ==> (#[trigger] after[i]).head_idx == heads[i].head_idx
        }),
    decreases heads.len() - slot,
{
    if slot < heads.len() {
        let next = heads.update(
            slot,
            tips::refreshed(heads, blocks, slot, NONE_REF, heads[slot].missing_parent_hash),
        );
        lemma_refreshed_tips(heads, blocks, slot + 1);
        lemma_refreshed_tips(next, blocks, slot + 1);
        assert forall|i: int| 0 <= i < heads.len() implies #[trigger] next[i].head_idx
            == heads[i].head_idx by {}
    }
}

/// The tips after a deletion: those that are not deleted, and the heir where one
/// is.
proof fn lemma_tips_left(t: Tips, gone: Seq<u32>, parent: u32, idx: u32)
    requires
        t.blocks.len() <= NONE_REF,
    ensures
        fit::is_tip(tips::subtree_dropped(t, gone, parent).heads, idx) == (fit::is_tip(t.heads, idx)
            && !gone.contains(idx) || tips::heir(t, parent) == Some(idx) && tip_gone(t.heads, gone)),
{
    let heir = tips::heir(t, parent);
    let kept = tips::deleted_dropped(t.heads, gone, heir, 0, t.heads.len() as int);
    let after = tips::subtree_dropped(t, gone, parent).heads;
    deletion_fit::lemma_deleted_dropped(t.heads, gone, heir, 0);
    lemma_refreshed_tips(kept, t.blocks, 0);
    assert forall|i: int| 0 <= i < t.heads.len() implies #[trigger] after[i].head_idx
        == kept[i].head_idx by {}
    if fit::is_tip(after, idx) {
        let slot = choose|slot: int|
            0 <= slot < after.len() && (#[trigger] after[slot]).in_use() && after[slot].head_idx
                == idx;
        assert(kept[slot].head_idx == idx);
        if deletion_fit::doomed(t.heads, gone, slot) {
            assert(fit::is_tip(t.heads, t.heads[slot].head_idx));
        } else {
            assert(kept[slot] == t.heads[slot]);
        }
    }
    if fit::is_tip(t.heads, idx) && !gone.contains(idx) {
        let slot = choose|slot: int|
            0 <= slot < t.heads.len() && (#[trigger] t.heads[slot]).in_use()
                && t.heads[slot].head_idx == idx;
        assert(!deletion_fit::doomed(t.heads, gone, slot));
        assert(kept[slot] == t.heads[slot]);
        assert(after[slot].in_use());
    }
    if heir == Some(idx) && tip_gone(t.heads, gone) {
        let lost = choose|lost: u32| #[trigger] fit::is_tip(t.heads, lost) && gone.contains(lost);
        let some = choose|slot: int|
            0 <= slot < t.heads.len() && (#[trigger] t.heads[slot]).in_use()
                && t.heads[slot].head_idx == lost;
        assert(deletion_fit::doomed(t.heads, gone, some));
        let first = deletion_fit::lemma_first_doomed(t.heads, gone, some);
        assert(kept[first].head_idx == idx);
        assert(after[first].in_use());
    }
}

/// Two nodes with the same tips have the same tips after the deletion.
proof fn lemma_same_tips_left(x: Tips, y: Tips, gone: Seq<u32>, parent: u32, idx: u32)
    requires
        like::akin(x.blocks, y.blocks),
        x.blocks.len() <= NONE_REF,
        forall|i: u32| #[trigger] fit::is_tip(x.heads, i) == fit::is_tip(y.heads, i),
    ensures
        fit::is_tip(tips::subtree_dropped(x, gone, parent).heads, idx) == fit::is_tip(
            tips::subtree_dropped(y, gone, parent).heads,
            idx,
        ),
{
    lemma_tips_left(x, gone, parent, idx);
    lemma_tips_left(y, gone, parent, idx);
    like::lemma_akin(x.blocks, y.blocks);
    like::lemma_childless(x.blocks, y.blocks, parent);
    fit::lemma_head_slot(x.heads, parent, 0);
    fit::lemma_head_slot(y.heads, parent, 0);
    assert(tree::present(x.blocks, parent) == tree::present(y.blocks, parent));
    assert(tips::heir(x, parent) == tips::heir(y, parent));
    assert(tip_gone(x.heads, gone) == tip_gone(y.heads, gone)) by {
        if tip_gone(x.heads, gone) {
            let lost = choose|lost: u32| #[trigger]
                fit::is_tip(x.heads, lost) && gone.contains(lost);
            assert(fit::is_tip(y.heads, lost));
        }
        if tip_gone(y.heads, gone) {
            let lost = choose|lost: u32| #[trigger]
                fit::is_tip(y.heads, lost) && gone.contains(lost);
            assert(fit::is_tip(x.heads, lost));
        }
    }
}

/// A tree that is a part of one without duplicates has none.
proof fn lemma_part_unique(s: Seq<BlockEntry>, after: Seq<BlockEntry>)
    requires
        tree::unique_blocks(s),
        after.len() == s.len(),
        forall|i: int|
            0 <= i < s.len() && (#[trigger] after[i]).occupied() ==> s[i].occupied()
                && s[i].sequence == after[i].sequence && s[i].hash == after[i].hash,
    ensures
        tree::unique_blocks(after),
{
    assert forall|i: int, j: int|
        0 <= i < j < after.len() && (#[trigger] after[i]).occupied() && (
        #[trigger] after[j]).occupied() implies !(after[i].sequence == after[j].sequence
        && after[i].hash == after[j].hash) by {
        assert(s[i].occupied() && s[j].occupied());
    }
}

/// Deleting the same block keeps two nodes alike.
proof fn lemma_deleted_course(
    a: NodeView,
    prev_a: Seq<BlockHash>,
    b: NodeView,
    prev_b: Seq<BlockHash>,
    target: u32,
)
    requires
        same_course(a, prev_a, b, prev_b),
    ensures
        same_course(a.subtree_deleted(target), prev_a, b.subtree_deleted(target), prev_b),
{
    laws::deletion_keeps_coherence(a, prev_a, target);
    laws::deletion_keeps_coherence(b, prev_b, target);
    lemma_deleted(a, b, target);
    lemma_same_tips(a, prev_a, b, prev_b);
    like::lemma_subtree(a.blocks, b.blocks, target);
    like::lemma_akin(a.blocks, b.blocks);
    assert(tree::present(a.blocks, target) == tree::present(b.blocks, target));
    if tree::present(a.blocks, target) {
        assert(like::same_entry(a.blocks[target as int], b.blocks[target as int]));
    }
    let gone = tree::subtree(a.blocks, target);
    if gone.len() > 0 {
        let x = Tips { heads: a.heads, blocks: tree::without_subtree(a.blocks, target) };
        let y = Tips { heads: b.heads, blocks: tree::without_subtree(b.blocks, target) };
        let after = a.subtree_deleted(target);
        lemma_same_tips_left(x, y, gone, a.parent_of(target), after.active_head);
        lemma_follow_up(x, y, gone, a.parent_of(target));
        assert forall|i: int| 0 <= i < a.blocks.len() && (#[trigger] after.blocks[i]).occupied() implies
            a.blocks[i].occupied() && a.blocks[i].sequence == after.blocks[i].sequence
            && a.blocks[i].hash == after.blocks[i].hash by {
            assert(like::same_entry(x.blocks[i], after.blocks[i]));
        }
        lemma_part_unique(a.blocks, after.blocks);
    }
}

/// The recovery from the same failure keeps two nodes alike.
proof fn lemma_recovered_course(
    a: NodeView,
    prev_a: Seq<BlockHash>,
    b: NodeView,
    prev_b: Seq<BlockHash>,
    error: ProcessingError,
    tip: u32,
)
    requires
        same_course(a, prev_a, b, prev_b),
    ensures
        same_course(a.recovered(error, tip), prev_a, b.recovered(error, tip), prev_b),
{
    let target = recovery::deletion_target(error, tip);
    laws::recovery_keeps_coherence(a, prev_a, error, tip);
    laws::recovery_keeps_coherence(b, prev_b, error, tip);
    lemma_recovered(a, b, error, tip);
    lemma_same_tips(a, prev_a, b, prev_b);
    like::lemma_subtree(a.blocks, b.blocks, target);
    like::lemma_akin(a.blocks, b.blocks);
    assert(tree::present(a.blocks, target) == tree::present(b.blocks, target));
    if tree::present(a.blocks, target) {
        assert(like::same_entry(a.blocks[target as int], b.blocks[target as int]));
    }
    let gone = tree::subtree(a.blocks, target);
    let rest = tree::without_subtree(a.blocks, target);
    let other = tree::without_subtree(b.blocks, target);
    let x = Tips { heads: a.heads, blocks: recovery::marking_restored(rest) };
    let y = Tips { heads: b.heads, blocks: recovery::marking_restored(other) };
    let after = a.recovered(error, tip);
    like::lemma_marking(rest, other);
    recovery::genesis_slot_is_first(recovery::unmarked(rest), 0);
    lemma_same_tips_left(x, y, gone, a.parent_of(target), after.active_head);
    lemma_follow_up(x, y, gone, a.parent_of(target));
    assert forall|i: int| 0 <= i < a.blocks.len() && (#[trigger] after.blocks[i]).occupied() implies
        a.blocks[i].occupied() && a.blocks[i].sequence == after.blocks[i].sequence
        && a.blocks[i].hash == after.blocks[i].hash by {
        if gone.len() > 0 {
            assert(like::same_entry(x.blocks[i], after.blocks[i]));
        }
        assert(rest[i].sequence == x.blocks[i].sequence);
        assert(rest[i].hash == x.blocks[i].hash);
        assert(rest[i].occupied() == x.blocks[i].occupied());
    }
    lemma_part_unique(a.blocks, after.blocks);
}

// -- Steps -------------------------------------------------------------------

/// A change of spent bits alone, made to both, keeps two nodes alike.
proof fn lemma_spending_course(
    a: NodeView,
    prev_a: Seq<BlockHash>,
    b: NodeView,
    prev_b: Seq<BlockHash>,
    x: NodeView,
    y: NodeView,
)
    requires
        same_course(a, prev_a, b, prev_b),
        laws::coherent_node(x, prev_a),
        laws::coherent_node(y, prev_b),
        same_standing(x, y),
        processing::spending_only(a.blocks, x.blocks),
        x.heads == a.heads,
        y.heads == b.heads,
        x.active_head == a.active_head,
    ensures
        same_course(x, prev_a, y, prev_b),
{
    processing::spending_keeps_blocks(a.blocks, x.blocks);
    tree::retaining_keeps_blocks_unique(a.blocks, x.blocks);
}

proof fn lemma_abandoned_course(
    a: NodeView,
    prev_a: Seq<BlockHash>,
    b: NodeView,
    prev_b: Seq<BlockHash>,
)
    requires
        same_course(a, prev_a, b, prev_b),
    ensures
        same_course(a.abandoned(), prev_a, b.abandoned(), prev_b),
{
    laws::abandonment_keeps_coherence(a, prev_a);
    laws::abandonment_keeps_coherence(b, prev_b);
    lemma_abandoned(a, b);
    assert forall|i: int| 0 <= i < a.blocks.len() implies (
    #[trigger] a.abandoned().blocks[i]).unspent() == a.blocks[i].unspent() by {}
    lemma_spending_course(a, prev_a, b, prev_b, a.abandoned(), b.abandoned());
}

/// The step that processes a candidate comes to the same.
proof fn lemma_examined(
    a: NodeView,
    prev_a: Seq<BlockHash>,
    b: NodeView,
    prev_b: Seq<BlockHash>,
    run: RunView,
    tip: u32,
    reads: Seq<Option<ChainBlock>>,
    vote_failure: Option<(int, VoteEngineError)>,
)
    requires
        same_course(a, prev_a, b, prev_b),
    ensures
        ({
            let x = a.examined(run, tip, reads, vote_failure);
            let y = b.examined(run, tip, reads, vote_failure);
            &&& same_progress(x, y)
            &&& same_course(x.node, prev_a, y.node, prev_b)
        }),
{
    let holds = derivation::all_hold();
    lemma_passed(a, b, tip, reads, vote_failure, holds);
    laws::pass_keeps_coherence(a, prev_a, tip, reads, vote_failure, holds);
    laws::pass_keeps_coherence(b, prev_b, tip, reads, vote_failure, holds);
    processing::pass_only_spends(a, tip, reads, vote_failure, holds);
    lemma_spending_course(
        a,
        prev_a,
        b,
        prev_b,
        a.passed(tip, reads, vote_failure, holds).node,
        b.passed(tip, reads, vote_failure, holds).node,
    );
}

/// The step after a pass that succeeded comes to the same.
proof fn lemma_accepted(
    a: NodeView,
    prev_a: Seq<BlockHash>,
    b: NodeView,
    prev_b: Seq<BlockHash>,
    run: RunView,
    tip: u32,
)
    requires
        same_course(a, prev_a, b, prev_b),
    ensures
        ({
            let x = a.accepted(run, tip);
            let y = b.accepted(run, tip);
            &&& same_progress(x, y)
            &&& x.node.phase != LifecyclePhase::Ready ==> same_course(
                x.node,
                prev_a,
                y.node,
                prev_b,
            )
        }),
{
    like::lemma_scan(a.blocks, b.blocks, tip, NONE_REF, a.blocks.len(), NONE_REF, false);
    if a.config.durable() is Some {
        lemma_activated(a, b, tip);
    } else {
        like::lemma_oversized(a.blocks, b.blocks, tip, a.declared_limit(), a.blocks.len(), None);
        let offender = recovery::oversized(
            a.blocks,
            tip,
            a.declared_limit(),
            a.blocks.len(),
            None,
        )->0;
        let error = ProcessingError::Invalid {
            block_idx: offender,
            reason: ValidationReason::BlockTooLarge,
        };
        lemma_recovered_course(a, prev_a, b, prev_b, error, tip);
        lemma_abandoned_course(a, prev_a, b, prev_b);
    }
}

/// Holding the same configuration in place of the tentative one keeps two nodes
/// alike.
proof fn lemma_adopted_course(
    a: NodeView,
    prev_a: Seq<BlockHash>,
    b: NodeView,
    prev_b: Seq<BlockHash>,
    tip: u32,
    first: u32,
    block: ChainBlock,
)
    requires
        same_course(a, prev_a, b, prev_b),
    ensures
        same_course(a.adopted(tip, first, block), prev_a, b.adopted(tip, first, block), prev_b),
{
    like::lemma_scan(
        a.blocks,
        b.blocks,
        tip,
        a.config_source,
        a.blocks.len(),
        NONE_REF,
        false,
    );
    let x = lemma_loaded(a, prev_a, first, block);
    let y = lemma_loaded(b, prev_b, first, block);
    assert(same_course(x, prev_a, y, prev_b));
    lemma_deleted_course(x, prev_a, y, prev_b, a.config_source);
}

/// The node with the configuration loaded, before anything is deleted.
proof fn lemma_loaded(node: NodeView, prev: Seq<BlockHash>, first: u32, block: ChainBlock) -> (
    loaded: NodeView)
    requires
        laws::coherent_node(node, prev),
    ensures
        loaded == (NodeView {
            config: node.config.loaded(
                block.config_content()->0,
                admission::accepted_parameters(block),
            ),
            config_source: first,
            vote_reset: true,
            ..node
        }),
        laws::coherent_node(loaded, prev),
{
    let loaded = NodeView {
        config: node.config.loaded(
            block.config_content()->0,
            admission::accepted_parameters(block),
        ),
        config_source: first,
        vote_reset: true,
        ..node
    };
    assert(loaded.tips() == node.tips());
    loaded
}

/// The step after a pass that failed comes to the same.
proof fn lemma_failed(
    a: NodeView,
    prev_a: Seq<BlockHash>,
    b: NodeView,
    prev_b: Seq<BlockHash>,
    window: u32,
    run: RunView,
    tip: u32,
    reads: Seq<Option<ChainBlock>>,
    segment: Seq<u32>,
    error: ProcessingError,
)
    requires
        same_course(a, prev_a, b, prev_b),
        forall|k: int| 0 <= k < segment.len() ==> tree::present(a.blocks, #[trigger] segment[k]),
    ensures
        ({
            let x = a.failed(window, run, tip, reads, segment, error);
            let y = b.failed(window, run, tip, reads, segment, error);
            &&& same_progress(x, y)
            &&& same_course(x.node, prev_a, y.node, prev_b)
        }),
{
    like::lemma_scan(a.blocks, b.blocks, tip, NONE_REF, a.blocks.len(), NONE_REF, false);
    like::lemma_kind(a.blocks, b.blocks, segment, PAYLOAD_TYPE_CHAIN_CONFIG, segment.len());
    assert(a.config_read(segment, reads) == b.config_read(segment, reads));
    assert(a.adoptable(run, tip, reads, segment, error) == b.adoptable(
        run,
        tip,
        reads,
        segment,
        error,
    ));
    if a.adoptable(run, tip, reads, segment, error) {
        let first = a.scanned(tip, NONE_REF).0;
        let block = a.config_read(segment, reads)->0;
        lemma_adopted_course(a, prev_a, b, prev_b, tip, first, block);
        let one = a.adopted(tip, first, block);
        let two = b.adopted(tip, first, block);
        let x = NodeView { phase: LifecyclePhase::Collecting, ..one };
        let y = NodeView { phase: LifecyclePhase::Collecting, ..two };
        assert(x.tips() == one.tips());
        assert(y.tips() == two.tips());
        lemma_sought(
            x,
            prev_a,
            y,
            prev_b,
            window,
            RunView { adopt_retries: (run.adopt_retries - 1) as u8, ..run },
        );
    } else {
        lemma_recovered_course(a, prev_a, b, prev_b, error, tip);
        lemma_sought(
            a.recovered(error, tip),
            prev_a,
            b.recovered(error, tip),
            prev_b,
            window,
            RunView { retries: (run.retries - 1) as u8, ..run },
        );
    }
}

/// The step that locks the configuration comes to the same.
proof fn lemma_concluded(
    a: NodeView,
    prev_a: Seq<BlockHash>,
    b: NodeView,
    prev_b: Seq<BlockHash>,
    run: RunView,
    tip: u32,
    block: Option<ChainBlock>,
    written: bool,
    contents: Seq<Option<Seq<u8>>>,
)
    requires
        same_course(a, prev_a, b, prev_b),
    ensures
        ({
            let x = a.concluded(run, tip, block, written, contents);
            let y = b.concluded(run, tip, block, written, contents);
            &&& same_progress(x, y)
            &&& x.node.phase != LifecyclePhase::Ready ==> same_course(
                x.node,
                prev_a,
                y.node,
                prev_b,
            )
        }),
{
    if a.commits(block) && written {
        lemma_activated(a.committed(), b.committed(), tip);
        let x = a.committed().activated(tip);
        let y = b.committed().activated(tip);
        let end = x.blocks.len() as int;
        lemma_mismatches(x, y, contents, 0, end);
        lemma_oversized(
            x.mismatches_deleted(contents, 0, end),
            y.mismatches_deleted(contents, 0, end),
            x.enforceable_limit(),
            0,
            end,
        );
    } else {
        lemma_abandoned_course(a, prev_a, b, prev_b);
    }
}

/// Two collecting nodes that hold the same blocks and the same configuration
/// take the same course: on the same answer each step of an acquisition asks for
/// the same, and leaves the same tree, the same active head, the same
/// configuration and the same phase. That holds of the steps that follow too,
/// until the nodes are ready.
pub proof fn acquisitions_take_the_same_course(
    a: NodeView,
    prev_a: Seq<BlockHash>,
    b: NodeView,
    prev_b: Seq<BlockHash>,
    window: u32,
    run: RunView,
    event: AcquisitionEvent,
)
    requires
        same_course(a, prev_a, b, prev_b),
        run.fits(a),
    ensures
        ({
            let x = a.advanced(window, run, event);
            let y = b.advanced(window, run, event);
            &&& same_progress(x, y)
            &&& x.node.phase != LifecyclePhase::Ready ==> same_course(
                x.node,
                prev_a,
                y.node,
                prev_b,
            )
        }),
{
    match (run.stage, event) {
        (StageView::Start, AcquisitionEvent::Begin) => {
            lemma_sought(a, prev_a, b, prev_b, window, run);
        },
        (
            StageView::Examining { tip },
            AcquisitionEvent::Examined { reads, vote_failure },
        ) => {
            lemma_examined(
                a,
                prev_a,
                b,
                prev_b,
                run,
                tip,
                reads@,
                processing::vote_stop(vote_failure),
            );
        },
        (
            StageView::Verifying { tip, reads, segment, checks, failure },
            AcquisitionEvent::Verified { verdicts },
        ) => {
            let (x, outcome) = a.settled(segment, checks, failure, verdicts@);
            let (y, other) = b.settled(segment, checks, failure, verdicts@);
            lemma_settled(a, b, segment, checks, failure, verdicts@);
            processing::clearing_only_spends(a.blocks, a.blocks, segment, 0);
            processing::clearing_only_spends(b.blocks, b.blocks, segment, 0);
            laws::lemma_spending(a, x, prev_a);
            laws::lemma_spending(b, y, prev_b);
            lemma_spending_course(a, prev_a, b, prev_b, x, y);
            processing::spending_keeps_blocks(a.blocks, x.blocks);
            match outcome {
                None => {
                    lemma_accepted(x, prev_a, y, prev_b, run, tip);
                },
                Some(error) => {
                    lemma_failed(
                        x,
                        prev_a,
                        y,
                        prev_b,
                        window,
                        run,
                        tip,
                        reads,
                        segment,
                        error,
                    );
                },
            }
        },
        (
            StageView::Committing { tip },
            AcquisitionEvent::Committed { block, written, contents },
        ) => {
            lemma_concluded(
                a,
                prev_a,
                b,
                prev_b,
                run,
                tip,
                block,
                written,
                recovery::content_views(contents@),
            );
        },
        _ => {},
    }
}

// -- Whole acquisitions ------------------------------------------------------

/// What the acquisition `run` has come to after the answers in turn.
pub open spec fn answered(
    node: NodeView,
    window: u32,
    run: RunView,
    events: Seq<AcquisitionEvent>,
) -> Progress
    decreases events.len(),
{
    if events.len() == 0 {
        Progress { node, run, action: ActionView::Done }
    } else {
        let before = answered(node, window, run, events.drop_last());
        before.node.advanced(window, before.run, events.last())
    }
}

/// Whether each of the events answers what the run asked for at its turn.
pub open spec fn in_turn(
    node: NodeView,
    window: u32,
    run: RunView,
    events: Seq<AcquisitionEvent>,
) -> bool
    decreases events.len(),
{
    events.len() == 0 || in_turn(node, window, run, events.drop_last()) && {
        let before = answered(node, window, run, events.drop_last());
        acquisition::answers(events.last(), before.run, before.node)
    }
}

/// A run stays one of the node.
proof fn lemma_fits(node: NodeView, window: u32, run: RunView, event: AcquisitionEvent)
    requires
        run.fits(node),
        acquisition::answers(event, run, node),
        node.blocks.len() <= NONE_REF,
    ensures
        ({
            let next = node.advanced(window, run, event);
            &&& next.run.fits(next.node)
            &&& next.node.phase == LifecyclePhase::Ready ==> next.run.stage is Finished
        }),
{
    match (run.stage, event) {
        (
            StageView::Examining { tip },
            AcquisitionEvent::Examined { reads, vote_failure },
        ) => {
            let pass = node.passed(
                tip,
                reads@,
                processing::vote_stop(vote_failure),
                derivation::all_hold(),
            );
            processing::candidate_is_in_the_tree(node.blocks, tip);
            processing::pass_only_spends(
                node,
                tip,
                reads@,
                processing::vote_stop(vote_failure),
                derivation::all_hold(),
            );
            processing::spending_keeps_blocks(node.blocks, pass.node.blocks);
        },
        _ => {},
    }
}

/// Two collecting nodes that hold the same blocks and the same configuration end
/// a whole acquisition alike, if they get the same answers.
pub proof fn whole_acquisitions_end_alike(
    a: NodeView,
    prev_a: Seq<BlockHash>,
    b: NodeView,
    prev_b: Seq<BlockHash>,
    window: u32,
    run: RunView,
    events: Seq<AcquisitionEvent>,
)
    requires
        same_course(a, prev_a, b, prev_b),
        a.phase != LifecyclePhase::Ready,
        run.fits(a),
        in_turn(a, window, run, events),
    ensures
        same_progress(answered(a, window, run, events), answered(b, window, run, events)),
        in_turn(b, window, run, events),
{
    lemma_answered(a, prev_a, b, prev_b, window, run, events);
}

proof fn lemma_answered(
    a: NodeView,
    prev_a: Seq<BlockHash>,
    b: NodeView,
    prev_b: Seq<BlockHash>,
    window: u32,
    run: RunView,
    events: Seq<AcquisitionEvent>,
)
    requires
        same_course(a, prev_a, b, prev_b),
        a.phase != LifecyclePhase::Ready,
        run.fits(a),
        in_turn(a, window, run, events),
    ensures
        ({
            let x = answered(a, window, run, events);
            let y = answered(b, window, run, events);
            &&& same_progress(x, y)
            &&& in_turn(b, window, run, events)
            &&& x.run.fits(x.node)
            &&& x.node.phase == LifecyclePhase::Ready ==> x.run.stage is Finished
            &&& x.node.phase != LifecyclePhase::Ready ==> same_course(
                x.node,
                prev_a,
                y.node,
                prev_b,
            )
        }),
    decreases events.len(),
{
    if events.len() > 0 {
        let before = events.drop_last();
        lemma_answered(a, prev_a, b, prev_b, window, run, before);
        let x = answered(a, window, run, before);
        let y = answered(b, window, run, before);
        assert(x.node.phase != LifecyclePhase::Ready);
        acquisitions_take_the_same_course(
            x.node,
            prev_a,
            y.node,
            prev_b,
            window,
            x.run,
            events.last(),
        );
        lemma_fits(x.node, window, x.run, events.last());
        if let StageView::Examining { tip } = x.run.stage {
            like::lemma_ways(
                x.node.blocks,
                y.node.blocks,
                tip,
                x.node.blocks.len(),
                Seq::empty(),
            );
        }
        assert(acquisition::answers(events.last(), y.run, y.node));
    }
}

// -- A restart ---------------------------------------------------------------

/// Whether the tree records of each block what was stored of it, and nothing was
/// spent since.
pub open spec fn recorded(node: NodeView, slots: Seq<Option<ChainBlock>>) -> bool {
    forall|i: int|
        0 <= i < node.blocks.len() && (#[trigger] node.blocks[i]).occupied() ==> {
            let entry = restart::stored_entry(slots[i]->0);
            &&& node.blocks[i].len == entry.len
            &&& node.blocks[i].spent_bits == entry.spent_bits
            &&& node.blocks[i].flags == if node.blocks[i].active() {
                entry.with_active(true).flags
            } else {
                entry.flags
            }
        }
}

/// A block that is admitted is recorded, and what was recorded of the others
/// stays so.
pub proof fn admission_records_the_block(
    node: NodeView,
    slots: Seq<Option<ChainBlock>>,
    block: ChainBlock,
    now: u64,
)
    requires
        node.blocks.len() <= NONE_REF,
        slots.len() == node.blocks.len(),
        recorded(node, slots),
        node.admit_refusal(block) is None,
    ensures
        ({
            let idx = tree::free_slot(node.blocks, 0)->0;
            recorded(node.admitted(block, now), slots.update(idx as int, Some(block)))
        }),
{
    let idx = tree::free_slot(node.blocks, 0)->0;
    let parent = tree::parent_slot(node.blocks, block.previous_hash, block.sequence);
    let entry = admission::admitted_entry(block, parent);
    let start = node.blocks.update(idx as int, entry);
    let after = node.admitted(block, now);
    let stored = slots.update(idx as int, Some(block));
    tree::free_slot_is_first(node.blocks, 0);
    laws::lemma_admitted_entry(block, parent);
    tips::admission_spares_the_active_chain(
        Tips { heads: node.heads, blocks: start },
        idx,
        parent,
        block.previous_hash,
        now,
        if block.sequence == 0 {
            idx
        } else {
            node.active_head
        },
    );
    assert forall|i: int|
        0 <= i < after.blocks.len() && (#[trigger] after.blocks[i]).occupied() implies {
        let kept = restart::stored_entry(stored[i]->0);
        &&& after.blocks[i].len == kept.len
        &&& after.blocks[i].spent_bits == kept.spent_bits
        &&& after.blocks[i].flags == if after.blocks[i].active() {
            kept.with_active(true).flags
        } else {
            kept.flags
        }
    } by {
        assert(start[i].occupied());
        assert(after.blocks[i].flags == start[i].flags);
        if i != idx {
            assert(node.blocks[i].occupied());
        }
    }
}

/// Two trees of the same stored blocks, with the same links and marks, are the
/// same but for branch counts.
pub proof fn trees_of_the_same_blocks_are_akin(
    a: NodeView,
    b: NodeView,
    slots: Seq<Option<ChainBlock>>,
)
    requires
        restart_laws::same_tree(a.blocks, b.blocks),
        recorded(a, slots),
        recorded(b, slots),
    ensures
        like::akin(a.blocks, b.blocks),
{
    assert forall|i: int|
        #![trigger a.blocks[i]]
        #![trigger b.blocks[i]]
        0 <= i < a.blocks.len() implies like::same_entry(a.blocks[i], b.blocks[i]) by {
        assert(b.blocks[i].occupied() == a.blocks[i].occupied());
    }
}

proof fn lemma_linked_entries(s: Seq<BlockEntry>, slots: Seq<Option<ChainBlock>>, from: int)
    requires
        0 <= from,
        slots.len() <= s.len(),
    ensures
        ({
            let after = restart::linked(s, slots, from);
            &&& after.len() == s.len()
            &&& forall|i: int|
                0 <= i < s.len() ==> #[trigger] after[i] == (BlockEntry {
                    parent_ref: after[i].parent_ref,
                    ..s[i]
                })
        }),
    decreases slots.len() - from,
{
    if from < slots.len() {
        if s[from].occupied() && slots[from] is Some {
            let block = slots[from]->0;
            if let Some(parent) = tree::parent_slot(s, block.previous_hash, block.sequence) {
                lemma_linked_entries(s.update(from, s[from].with_parent(parent)), slots, from + 1);
            } else {
                lemma_linked_entries(s, slots, from + 1);
            }
        } else {
            lemma_linked_entries(s, slots, from + 1);
        }
    }
}

/// The tree that was read back records of each block what was stored of it.
proof fn lemma_read_back(
    node: NodeView,
    prev: Seq<BlockHash>,
    fresh: NodeView,
    slots: Seq<Option<ChainBlock>>,
    after: Seq<BlockEntry>,
)
    requires
        node.blocks.len() <= NONE_REF,
        restart_laws::mirrors(node, prev, slots),
        recorded(node, slots),
        fresh.treeless(),
        fresh.blocks.len() == node.blocks.len(),
        restart_laws::same_tree(node.blocks, after),
        tips::counts_only(fresh.retained_tree(slots), after),
    ensures
        like::akin(node.blocks, after),
{
    let m = restart::materialized(fresh.blocks, slots, 0);
    let s = restart::linked(m, slots, 0);
    let retained = fresh.retained_tree(slots);
    assert(tree::unique_blocks(fresh.blocks)) by {
        assert forall|i: int| 0 <= i < fresh.blocks.len() implies !(
        #[trigger] fresh.blocks[i]).occupied() by {}
    }
    restart::lemma_materialized(fresh.blocks, slots, 0);
    lemma_linked_entries(m, slots, 0);
    laws::lemma_retained_tree(fresh, slots);
    recovery::genesis_slot_is_first(s, 0);
    like::lemma_counts_only(retained, after);
    assert forall|i: int|
        #![trigger node.blocks[i]]
        #![trigger after[i]]
        0 <= i < node.blocks.len() implies like::same_entry(node.blocks[i], after[i]) by {
        assert(after[i].occupied() == node.blocks[i].occupied());
        if after[i].occupied() {
            let entry = restart::stored_entry(slots[i]->0);
            assert(like::same_entry(retained[i], after[i]));
            assert(s[i].occupied());
            assert(s[i] == (BlockEntry { parent_ref: s[i].parent_ref, ..m[i] }));
            assert(m[i] == entry);
            assert(slots[i] is Some);
        }
    }
}

/// A node that is started again from what it has stored takes the course that it
/// would have taken: where the start finds the configuration that the node held,
/// the two stand alike, so that every acquisition comes to the same. The table of
/// tips has to have room for every childless block, and the first block of the
/// chain has to be a tip where nothing stands on it.
pub proof fn restarted_node_takes_the_same_course(
    node: NodeView,
    prev: Seq<BlockHash>,
    fresh: NodeView,
    control: ControlPlane,
    slots: Seq<Option<ChainBlock>>,
    now: u64,
)
    requires
        laws::coherent_node(node, prev),
        tree::unique_blocks(node.blocks),
        restart_laws::mirrors(node, prev, slots),
        recorded(node, slots),
        restart_laws::leaf_count(node.blocks, 0) <= node.heads.len(),
        node.active_head != NONE_REF && tree::childless(node.blocks, node.active_head)
            ==> fit::is_tip(node.heads, node.active_head),
        fresh.treeless(),
        fresh.blocks.len() == node.blocks.len(),
        fresh.heads.len() == node.heads.len(),
        fresh.info.seeds.len() == node.info.seeds.len(),
        fresh.anchor_key == node.anchor_key,
        fresh.registration_size == node.registration_size,
        fresh.phase == node.phase,
        fresh.control_failure(control) is None,
        fresh.started(control, slots, now).0.config == node.config,
        fresh.started(control, slots, now).0.config_source == node.config_source,
    ensures
        same_course(
            node,
            prev,
            fresh.started(control, slots, now).0,
            restart::previous_hashes(slots, node.blocks.len()),
        ),
{
    let base = fresh.relocked(control);
    let built = base.rebuilt(slots, now);
    let after = fresh.started(control, slots, now).0;
    let read = restart::previous_hashes(slots, node.blocks.len());
    restart_laws::restart_restores_the_tree(node, prev, base, slots, now);
    assert(after.tips() == built.tips());
    assert(after.active_head == built.active_head);
    lemma_read_back(node, prev, base, slots, after.blocks);
    let head = node.active_head;
    if head != NONE_REF {
        assert(tree::present(node.blocks, head));
        like::lemma_childless(node.blocks, after.blocks, head);
        if fit::is_tip(node.heads, head) {
            let slot = choose|slot: int|
                0 <= slot < node.heads.len() && (#[trigger] node.heads[slot]).in_use()
                    && node.heads[slot].head_idx == head;
            assert(node.tips().heads[slot].in_use());
        }
        if fit::is_tip(after.heads, head) {
            let slot = choose|slot: int|
                0 <= slot < after.heads.len() && (#[trigger] after.heads[slot]).in_use()
                    && after.heads[slot].head_idx == head;
            assert(after.tips().heads[slot].in_use());
        }
    }
}

} // verus!
