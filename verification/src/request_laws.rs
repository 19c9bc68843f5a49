//! Which missing parent a tick asks for, when it asks, and when the next request
//! is due.

use vstd::prelude::*;

use crate::api::{NextCall, NodeView};
use crate::blocks::{BlockEntry, NONE_REF};
use crate::chain_heads as tips;
use crate::chain_heads::ChainHeadEntry;
use crate::config_state::{ConfigParameters, ConfigView};
use crate::hash;
use crate::hash::BlockHash;
use crate::tip_laws;

verus! {

/// The parameters of the configuration that the node holds, locked or not.
pub open spec fn parameters_of(config: ConfigView) -> Option<ConfigParameters> {
    match config {
        ConfigView::Unloaded => None,
        ConfigView::Tentative { content, parameters } => Some(parameters),
        ConfigView::Durable { content, parameters } => Some(parameters),
    }
}

/// Whether the tip's branch waits for a parent that is not in the tree.
pub open spec fn waits(head: ChainHeadEntry) -> bool {
    head.head_idx != NONE_REF && head.flags & 1 == 0
}

/// Whether the slot holds a block.
pub open spec fn holds_block(s: Seq<BlockEntry>, idx: u32) -> bool {
    idx < s.len() && s[idx as int].sequence != NONE_REF
}

/// The instant `wait` after `last`, held at the largest one.
pub open spec fn after_wait(last: u64, wait: u64) -> int {
    if last + wait > 0xFFFF_FFFF_FFFF_FFFF {
        0xFFFF_FFFF_FFFF_FFFF
    } else {
        last + wait
    }
}

/// When a waiting tip may ask: at once if it never did, and otherwise once the
/// interval since it last did is over.
pub open spec fn ready_at(head: ChainHeadEntry, retry: u64) -> int {
    if head.last_request_timestamp == 0 {
        0
    } else {
        after_wait(head.last_request_timestamp, retry)
    }
}

/// Whether the tip at `slot` may ask now.
pub open spec fn may_ask(node: NodeView, retry: u64, now: u64, slot: int) -> bool {
    &&& 0 <= slot < node.heads.len()
    &&& waits(node.heads[slot])
    &&& ready_at(node.heads[slot], retry) <= now
    &&& holds_block(node.blocks, node.heads[slot].head_idx)
}

/// Whether byte string `a` comes before `b`: it is smaller at the first byte at
/// which they differ.
pub open spec fn hash_before(a: BlockHash, b: BlockHash) -> bool {
    exists|i: int|
        0 <= i < 32 && a@[i] < b@[i] && forall|j: int| 0 <= j < i ==> #[trigger] a@[j] == b@[j]
}

/// Whether the block at `a` stands before the one at `b`: lower, or at the same
/// height with the smaller hash.
pub open spec fn stands_before(s: Seq<BlockEntry>, a: u32, b: u32) -> bool {
    ||| s[a as int].sequence < s[b as int].sequence
    ||| s[a as int].sequence == s[b as int].sequence && hash_before(
        s[a as int].hash,
        s[b as int].hash,
    )
}

/// Whether no tip that may ask now asked longer ago than the one at `slot`, or as
/// long ago and stands before it.
pub open spec fn asked_longest_ago(node: NodeView, retry: u64, now: u64, slot: int) -> bool {
    forall|other: int| #[trigger]
        may_ask(node, retry, now, other) ==> {
            let head = node.heads[slot];
            let rival = node.heads[other];
            &&& head.last_request_timestamp <= rival.last_request_timestamp
            &&& head.last_request_timestamp == rival.last_request_timestamp ==> !stands_before(
                node.blocks,
                rival.head_idx,
                head.head_idx,
            )
        }
}

/// The order of hashes is that of their bytes, the first one weighing most.
pub proof fn hashes_are_ordered_by_their_first_difference(a: BlockHash, b: BlockHash)
    ensures
        hash::lex_less(a@, b@) == hash_before(a, b),
{
    if hash::lex_less(a@, b@) {
        let i = choose|i: int| #[trigger] hash::differ_first_at(a@, b@, i) && a@[i] < b@[i];
        assert(a@[i] < b@[i]);
    }
    if hash_before(a, b) {
        let i = choose|i: int|
            0 <= i < 32 && a@[i] < b@[i] && forall|j: int| 0 <= j < i ==> #[trigger] a@[j] == b@[j];
        assert(hash::differ_first_at(a@, b@, i));
    }
}

proof fn lemma_waits(head: ChainHeadEntry)
    ensures
        head.waiting() == waits(head),
{
}

/// A tick that sends a request serves a tip that may ask, and of those the one
/// that asked longest ago: no tip that may ask has a smaller timestamp, so that
/// none that has asked is served while one that never did may; of several with
/// the same timestamp, the lowest. The request names what the lowest block of the
/// tip's branch waits for, one below it. The tip and the node remember when.
pub proof fn ticks_serve_the_tip_that_asked_longest_ago(node: NodeView, now: u64)
    requires
        node.ticked(now).0 is SendParentRecoveryRequest,
    ensures
        ({
            let (outcome, after) = node.ticked(now);
            let request = outcome->SendParentRecoveryRequest_0;
            let p = parameters_of(node.config)->0;
            let retry = p.parent_recovery_per_head_retry_interval_ms;
            &&& parameters_of(node.config) is Some
            &&& after_wait(node.last_emit, p.parent_recovery_min_emit_interval_ms) <= now
            &&& exists|slot: int| {
                let head = node.heads[slot];
                let tail = node.blocks[head.tail_or_connection_idx as int];
                &&& #[trigger] may_ask(node, retry, now, slot)
                &&& holds_block(node.blocks, head.tail_or_connection_idx)
                &&& request.missing_parent_hash == head.missing_parent_hash
                &&& request.claimed_parent_sequence == if tail.sequence > 0 {
                    tail.sequence - 1
                } else {
                    0
                }
                &&& asked_longest_ago(node, retry, now, slot)
                &&& after.heads == node.heads.update(
                    slot,
                    (ChainHeadEntry { last_request_timestamp: now, ..head }),
                )
            }
            &&& after.last_emit == now
            &&& after == (NodeView { heads: after.heads, last_emit: now, ..node })
        }),
{
    let p = parameters_of(node.config)->0;
    let retry = p.parent_recovery_per_head_retry_interval_ms;
    tip_laws::longest_waiting_tip_asks(node.heads, node.blocks, now, retry);
    let slot = tips::requester_from(node.heads, node.blocks, now, retry, 0, None)->0;
    lemma_waits(node.heads[slot]);
    assert(may_ask(node, retry, now, slot));
    assert forall|other: int| #[trigger] may_ask(node, retry, now, other) implies {
        let head = node.heads[slot];
        let rival = node.heads[other];
        &&& head.last_request_timestamp <= rival.last_request_timestamp
        &&& head.last_request_timestamp == rival.last_request_timestamp ==> !stands_before(
            node.blocks,
            rival.head_idx,
            head.head_idx,
        )
    } by {
        lemma_waits(node.heads[other]);
        assert(tips::may_request(node.heads, node.blocks, now, retry, other));
        hashes_are_ordered_by_their_first_difference(
            node.blocks[node.heads[other].head_idx as int].hash,
            node.blocks[node.heads[slot].head_idx as int].hash,
        );
    }
}

/// A tick sends nothing, and changes nothing, exactly if no configuration is held,
/// the interval since the last request is not over, no tip may ask, or the branch
/// of the tip to be served has lost its lowest block.
pub proof fn ticks_are_idle_only_for_a_reason(node: NodeView, now: u64, slot: int)
    requires
        node.ticked(now).0 is Idle,
    ensures
        node.ticked(now).1 == node,
        ({
            let p = parameters_of(node.config)->0;
            let retry = p.parent_recovery_per_head_retry_interval_ms;
            ||| parameters_of(node.config) is None
            ||| now < after_wait(node.last_emit, p.parent_recovery_min_emit_interval_ms)
            ||| !may_ask(node, retry, now, slot)
            ||| exists|lost: int| #[trigger] may_ask(node, retry, now, lost) && !holds_block(
                node.blocks,
                node.heads[lost].tail_or_connection_idx,
            )
        }),
{
    if let Some(p) = parameters_of(node.config) {
        let retry = p.parent_recovery_per_head_retry_interval_ms;
        tip_laws::longest_waiting_tip_asks(node.heads, node.blocks, now, retry);
        if may_ask(node, retry, now, slot) {
            lemma_waits(node.heads[slot]);
            assert(tips::may_request(node.heads, node.blocks, now, retry, slot));
            if let Some(served) = tips::requester_from(
                node.heads,
                node.blocks,
                now,
                retry,
                0,
                None,
            ) {
                lemma_waits(node.heads[served]);
                assert(may_ask(node, retry, now, served));
            }
        }
    }
}

/// The announced instant is the earliest at which some waiting tip may ask, or the
/// end of the interval since the last request, whichever is later. None is
/// announced exactly if no configuration is held or no tip waits.
pub proof fn announced_instant_is_the_earliest(node: NodeView, slot: int)
    ensures
        match node.next_call() {
            NextCall::At(instant) => {
                let p = parameters_of(node.config)->0;
                let retry = p.parent_recovery_per_head_retry_interval_ms;
                let clear = after_wait(node.last_emit, p.parent_recovery_min_emit_interval_ms);
                &&& parameters_of(node.config) is Some
                &&& instant >= clear
                &&& 0 <= slot < node.heads.len() && waits(node.heads[slot]) ==> instant == clear
                    || instant <= ready_at(node.heads[slot], retry)
                &&& exists|i: int| {
                    &&& 0 <= i < node.heads.len()
                    &&& waits(#[trigger] node.heads[i])
                    &&& instant >= ready_at(node.heads[i], retry)
                    &&& instant == clear || instant == ready_at(node.heads[i], retry)
                }
            },
            NextCall::Idle => parameters_of(node.config) is None || (0 <= slot < node.heads.len()
                ==> !waits(node.heads[slot])),
        },
{
    if let Some(p) = parameters_of(node.config) {
        let retry = p.parent_recovery_per_head_retry_interval_ms;
        tip_laws::deadline_is_the_earliest(node.heads, retry, 0);
        if 0 <= slot < node.heads.len() {
            lemma_waits(node.heads[slot]);
        }
        if let Some(deadline) = tips::earliest_deadline(node.heads, retry, 0) {
            let i = choose|i: int|
                0 <= i < node.heads.len() && (#[trigger] node.heads[i]).waiting()
                    && tips::eligible_at(node.heads[i].last_request_timestamp, retry) == deadline;
            lemma_waits(node.heads[i]);
            assert(waits(node.heads[i]));
        }
    }
}

} // verus!
