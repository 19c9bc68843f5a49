//! What holds of the choices made among the tips: which one is evicted, which
//! one asks for its parent, and when the next request is due.

use vstd::prelude::*;

use crate::api::{NextCall, NodeView};
use crate::blocks as tree;
use crate::blocks::BlockEntry;
use crate::chain_heads as tips;
use crate::chain_heads::ChainHeadEntry;
use crate::hash;

verus! {

proof fn lemma_lower_transitive(
    heads: Seq<ChainHeadEntry>,
    blocks: Seq<BlockEntry>,
    a: int,
    b: int,
    c: int,
)
    requires
        tips::tip_lower(heads, blocks, a, b),
        tips::tip_lower(heads, blocks, b, c),
    ensures
        tips::tip_lower(heads, blocks, a, c),
{
    let x = blocks[heads[a].head_idx as int];
    let y = blocks[heads[b].head_idx as int];
    let z = blocks[heads[c].head_idx as int];
    if x.sequence == y.sequence && y.sequence == z.sequence {
        hash::lex_less_transitive(x.hash, y.hash, z.hash);
    }
}

proof fn lemma_lower_irreflexive(heads: Seq<ChainHeadEntry>, blocks: Seq<BlockEntry>, a: int)
    ensures
        !tips::tip_lower(heads, blocks, a, a),
{
    hash::lex_less_irreflexive(blocks[heads[a].head_idx as int].hash@);
}

proof fn lemma_victim_from(
    heads: Seq<ChainHeadEntry>,
    blocks: Seq<BlockEntry>,
    active_head_idx: u32,
    slot: int,
    best: Option<int>,
)
    requires
        0 <= slot <= heads.len(),
        best matches Some(b) ==> 0 <= b < slot && tips::evictable(heads, blocks, active_head_idx, b),
        forall|i: int|
            0 <= i < slot && #[trigger] tips::evictable(heads, blocks, active_head_idx, i) ==> best
                is Some && !tips::tip_lower(heads, blocks, i, best->0),
    ensures
        match tips::victim_from(heads, blocks, active_head_idx, slot, best) {
            Some(v) => {
                &&& 0 <= v < heads.len()
                &&& tips::evictable(heads, blocks, active_head_idx, v)
                &&& forall|i: int|
                    0 <= i < heads.len() && #[trigger] tips::evictable(
                        heads,
                        blocks,
                        active_head_idx,
                        i,
                    ) ==> !tips::tip_lower(heads, blocks, i, v)
            },
            None => forall|i: int|
                0 <= i < heads.len() ==> !#[trigger] tips::evictable(
                    heads,
                    blocks,
                    active_head_idx,
                    i,
                ),
        },
    decreases heads.len() - slot,
{
    if slot < heads.len() {
        let takes = tips::evictable(heads, blocks, active_head_idx, slot) && (best is None
            || tips::tip_lower(heads, blocks, slot, best->0));
        let next = if takes {
            Some(slot)
        } else {
            best
        };
        assert forall|i: int|
            0 <= i < slot + 1 && #[trigger] tips::evictable(
                heads,
                blocks,
                active_head_idx,
                i,
            ) implies next is Some && !tips::tip_lower(heads, blocks, i, next->0) by {
            lemma_lower_irreflexive(heads, blocks, slot);
            if takes && i < slot && tips::tip_lower(heads, blocks, i, slot) {
                lemma_lower_transitive(heads, blocks, i, slot, best->0);
            }
        }
        lemma_victim_from(heads, blocks, active_head_idx, slot + 1, next);
    }
}

/// The tip that is evicted may be, so that it is never the head of the active
/// chain, and none that may be is lower. None is evicted only where none may be.
pub proof fn eviction_takes_the_lowest_tip(
    heads: Seq<ChainHeadEntry>,
    blocks: Seq<BlockEntry>,
    active_head_idx: u32,
)
    ensures
        match tips::victim(heads, blocks, active_head_idx) {
            Some(v) => {
                &&& 0 <= v < heads.len()
                &&& tips::evictable(heads, blocks, active_head_idx, v)
                &&& forall|i: int|
                    0 <= i < heads.len() && #[trigger] tips::evictable(
                        heads,
                        blocks,
                        active_head_idx,
                        i,
                    ) ==> !tips::tip_lower(heads, blocks, i, v)
            },
            None => forall|i: int|
                0 <= i < heads.len() ==> !#[trigger] tips::evictable(
                    heads,
                    blocks,
                    active_head_idx,
                    i,
                ),
        },
{
    lemma_victim_from(heads, blocks, active_head_idx, 0, None);
}

proof fn lemma_requester_from(
    heads: Seq<ChainHeadEntry>,
    blocks: Seq<BlockEntry>,
    now: u64,
    retry: u64,
    slot: int,
    best: Option<int>,
)
    requires
        0 <= slot <= heads.len(),
        best matches Some(b) ==> 0 <= b < slot && tips::may_request(heads, blocks, now, retry, b),
        forall|i: int|
            0 <= i < slot && #[trigger] tips::may_request(heads, blocks, now, retry, i) ==> best
                is Some && !tips::request_sooner(heads, blocks, i, best->0),
    ensures
        match tips::requester_from(heads, blocks, now, retry, slot, best) {
            Some(r) => {
                &&& 0 <= r < heads.len()
                &&& tips::may_request(heads, blocks, now, retry, r)
                &&& forall|i: int|
                    0 <= i < heads.len() && #[trigger] tips::may_request(
                        heads,
                        blocks,
                        now,
                        retry,
                        i,
                    ) ==> !tips::request_sooner(heads, blocks, i, r)
            },
            None => forall|i: int|
                0 <= i < heads.len() ==> !#[trigger] tips::may_request(
                    heads,
                    blocks,
                    now,
                    retry,
                    i,
                ),
        },
    decreases heads.len() - slot,
{
    if slot < heads.len() {
        let takes = tips::may_request(heads, blocks, now, retry, slot) && (best is None
            || tips::request_sooner(heads, blocks, slot, best->0));
        let next = if takes {
            Some(slot)
        } else {
            best
        };
        assert forall|i: int|
            0 <= i < slot + 1 && #[trigger] tips::may_request(
                heads,
                blocks,
                now,
                retry,
                i,
            ) implies next is Some && !tips::request_sooner(heads, blocks, i, next->0) by {
            lemma_lower_irreflexive(heads, blocks, slot);
            if takes && i < slot && tips::request_sooner(heads, blocks, i, slot) {
                if tips::tip_lower(heads, blocks, i, slot) && tips::tip_lower(
                    heads,
                    blocks,
                    slot,
                    best->0,
                ) {
                    lemma_lower_transitive(heads, blocks, i, slot, best->0);
                }
            }
        }
        lemma_requester_from(heads, blocks, now, retry, slot + 1, next);
    }
}

/// The tip that asks may, and of those that may none asked longer ago, or as
/// long ago and is lower. None asks only where none may.
pub proof fn longest_waiting_tip_asks(
    heads: Seq<ChainHeadEntry>,
    blocks: Seq<BlockEntry>,
    now: u64,
    retry: u64,
)
    ensures
        match tips::requester_from(heads, blocks, now, retry, 0, None) {
            Some(r) => {
                &&& 0 <= r < heads.len()
                &&& tips::may_request(heads, blocks, now, retry, r)
                &&& forall|i: int|
                    0 <= i < heads.len() && #[trigger] tips::may_request(
                        heads,
                        blocks,
                        now,
                        retry,
                        i,
                    ) ==> !tips::request_sooner(heads, blocks, i, r)
            },
            None => forall|i: int|
                0 <= i < heads.len() ==> !#[trigger] tips::may_request(
                    heads,
                    blocks,
                    now,
                    retry,
                    i,
                ),
        },
{
    lemma_requester_from(heads, blocks, now, retry, 0, None);
}

/// The deadline is that of some waiting tip, and none has an earlier one; there
/// is none only where no tip waits.
pub proof fn deadline_is_the_earliest(heads: Seq<ChainHeadEntry>, retry: u64, slot: int)
    requires
        0 <= slot <= heads.len(),
    ensures
        match tips::earliest_deadline(heads, retry, slot) {
            Some(deadline) => {
                &&& exists|i: int|
                    slot <= i < heads.len() && (#[trigger] heads[i]).waiting() && tips::eligible_at(
                        heads[i].last_request_timestamp,
                        retry,
                    ) == deadline
                &&& forall|i: int|
                    slot <= i < heads.len() && (#[trigger] heads[i]).waiting() ==> deadline
                        <= tips::eligible_at(heads[i].last_request_timestamp, retry)
            },
            None => forall|i: int| slot <= i < heads.len() ==> !(#[trigger] heads[i]).waiting(),
        },
    decreases heads.len() - slot,
{
    if slot < heads.len() {
        deadline_is_the_earliest(heads, retry, slot + 1);
        assert(heads[slot] == heads[slot]);
    }
}

/// Every waiting tip, and the lowest block of its branch, is in the tree.
pub open spec fn waiting_tips_in_tree(node: NodeView) -> bool {
    forall|i: int|
        0 <= i < node.heads.len() && (#[trigger] node.heads[i]).waiting() ==> tree::present(
            node.blocks,
            node.heads[i].head_idx,
        ) && tree::present(node.blocks, node.heads[i].tail_or_connection_idx)
}

/// The announced instant is exact: a tick before it emits nothing, and one at it
/// or later emits a request. Where none is announced, no tick emits anything.
pub proof fn next_call_is_exact(node: NodeView, now: u64)
    requires
        waiting_tips_in_tree(node),
    ensures
        match node.next_call() {
            NextCall::At(instant) => (node.ticked(now).0 is SendParentRecoveryRequest) == (now
                >= instant),
            NextCall::Idle => node.ticked(now).0 is Idle,
        },
{
    if let Some((min_emit, retry)) = node.recovery_intervals() {
        deadline_is_the_earliest(node.heads, retry, 0);
        longest_waiting_tip_asks(node.heads, node.blocks, now, retry);
        if let Some(deadline) = tips::earliest_deadline(node.heads, retry, 0) {
            if deadline <= now {
                let i = choose|i: int|
                    0 <= i < node.heads.len() && (#[trigger] node.heads[i]).waiting()
                        && tips::eligible_at(node.heads[i].last_request_timestamp, retry)
                        == deadline;
                assert(tips::may_request(node.heads, node.blocks, now, retry, i));
            } else {
                assert forall|i: int| 0 <= i < node.heads.len() implies !#[trigger]
                    tips::may_request(node.heads, node.blocks, now, retry, i) by {
                    assert(node.heads[i].waiting() ==> deadline <= tips::eligible_at(
                        node.heads[i].last_request_timestamp,
                        retry,
                    ));
                }
            }
        } else {
            assert forall|i: int| 0 <= i < node.heads.len() implies !#[trigger] tips::may_request(
                node.heads,
                node.blocks,
                now,
                retry,
                i,
            ) by {
                assert(!node.heads[i].waiting());
            }
        }
    }
}

/// After a request, none follows from any tip before the interval between
/// requests is over, and none from the same tip before its own is.
pub proof fn requests_are_spaced(node: NodeView, now: u64, later: u64)
    requires
        node.ticked(now).0 is SendParentRecoveryRequest,
        now > 0,
    ensures
        ({
            let (min_emit, retry) = node.recovery_intervals()->0;
            let after = node.ticked(now).1;
            let (slot, _) = tips::parent_request(node.heads, node.blocks, now, retry)->0;
            &&& later < now + min_emit && later < u64::MAX ==> after.ticked(later).0 is Idle
            &&& later < now + retry && later < u64::MAX ==> !tips::may_request(
                after.heads,
                after.blocks,
                later,
                retry,
                slot,
            )
        }),
{
    let (min_emit, retry) = node.recovery_intervals()->0;
    longest_waiting_tip_asks(node.heads, node.blocks, now, retry);
}

/// A tick changes nothing but when tips and the node last asked; without a
/// request, nothing at all.
pub proof fn ticks_touch_timestamps_alone(node: NodeView, now: u64)
    ensures
        ({
            let (outcome, after) = node.ticked(now);
            &&& outcome is Idle ==> after == node
            &&& after.blocks == node.blocks
            &&& after.heads.len() == node.heads.len()
            &&& after == (NodeView { heads: after.heads, last_emit: after.last_emit, ..node })
            &&& forall|i: int|
                0 <= i < node.heads.len() ==> (ChainHeadEntry {
                    last_request_timestamp: node.heads[i].last_request_timestamp,
                    ..#[trigger] after.heads[i]
                }) == node.heads[i]
        }),
{
    if let Some((min_emit, retry)) = node.recovery_intervals() {
        longest_waiting_tip_asks(node.heads, node.blocks, now, retry);
    }
}

} // verus!
