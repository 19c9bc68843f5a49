//! What a block that passes makes of the nodes: which of them are known, under
//! which key, and what each of them holds.

use vstd::prelude::*;

use crate::block_data::{
    BalancePayload, BlockPayload, ChainBlock, NodeBalance, PAYLOAD_TYPE_BALANCE,
};
use crate::blocks::NONE_REF;
use crate::derivation as walk;
use crate::derivation::{BlockContext, Derivation, PassView, Step, ValidationReason};
use crate::hash::BlockHash;
use crate::node_info::InfoView;

verus! {

/// Every node has a key of full length, a balance and a source.
pub open spec fn sound(info: InfoView) -> bool {
    &&& info.keys.len() == info.seeds.len()
    &&& info.balances.len() == info.seeds.len()
    &&& forall|i: int| 0 <= i < info.keys.len() ==> (#[trigger] info.keys[i]).len() == 32
}

/// Whether the chain has introduced the node.
pub open spec fn known(info: InfoView, id: u32) -> bool {
    id < info.seeds.len() && info.seeds[id as int] != NONE_REF
}

/// Whether a key of the node is on record.
pub open spec fn has_key(info: InfoView, id: u32) -> bool {
    id < info.keys.len() && exists|i: int|
        0 <= i < info.keys[id as int].len() && #[trigger] info.keys[id as int][i] != 0
}

/// The amount, held at the largest one.
pub open spec fn capped(amount: int) -> int {
    if amount > 0xFFFF_FFFF_FFFF_FFFF {
        0xFFFF_FFFF_FFFF_FFFF
    } else {
        amount
    }
}

/// What the creator of the block gets for it, beside the fees.
pub open spec fn mined_by(block: ChainBlock, id: u32) -> int {
    if block.creator == id && block.sequence >= 2 {
        block.mined_amount as int
    } else {
        0
    }
}

// -- Balance blocks ----------------------------------------------------------

/// Whether entry `j` is the last one of its node.
pub open spec fn last_entry(entries: Seq<NodeBalance>, j: int) -> bool {
    &&& 0 <= j < entries.len()
    &&& forall|i: int| j < i < entries.len() ==> (#[trigger] entries[i]).owner != entries[j].owner
}

/// Whether the node is listed.
pub open spec fn listed(entries: Seq<NodeBalance>, from: int, id: u32) -> bool {
    exists|i: int| from <= i < entries.len() && (#[trigger] entries[i]).owner == id
}

proof fn lemma_entries(info: InfoView, entries: Seq<NodeBalance>, idx: u32, from: int)
    requires
        sound(info),
        0 <= from <= entries.len(),
    ensures
        ({
            let after = walk::entries_seeded(info, entries, idx, from);
            &&& sound(after)
            &&& after.seeds.len() == info.seeds.len()
            &&& after.max_known_node_id == info.max_known_node_id
            &&& forall|j: int|
                from <= j && #[trigger] last_entry(entries, j) && entries[j].owner
                    < info.seeds.len() ==> {
                    &&& after.seeds[entries[j].owner as int] == idx
                    &&& after.balances[entries[j].owner as int] == entries[j].balance
                    &&& after.keys[entries[j].owner as int] == entries[j].public_key@
                }
            &&& forall|id: u32|
                id < info.seeds.len() && !#[trigger] listed(entries, from, id) ==> {
                    &&& after.seeds[id as int] == info.seeds[id as int]
                    &&& after.balances[id as int] == info.balances[id as int]
                    &&& after.keys[id as int] == info.keys[id as int]
                }
        }),
    decreases entries.len() - from,
{
    if from < entries.len() {
        let entry = entries[from];
        let next = info.with_node(entry.owner, entry.public_key@, entry.balance, idx);
        if entry.owner < info.seeds.len() {
            assert(info.keys[entry.owner as int].len() == 32);
            assert(next.keys[entry.owner as int] =~= entry.public_key@);
        }
        assert(sound(next));
        lemma_entries(next, entries, idx, from + 1);
        let after = walk::entries_seeded(info, entries, idx, from);
        assert forall|id: u32|
            id < info.seeds.len() && !#[trigger] listed(entries, from, id) implies {
            &&& after.seeds[id as int] == info.seeds[id as int]
            &&& after.balances[id as int] == info.balances[id as int]
            &&& after.keys[id as int] == info.keys[id as int]
        } by {
            assert(!listed(entries, from + 1, id));
            assert(entries[from].owner != id);
        }
        assert forall|j: int|
            from <= j && #[trigger] last_entry(entries, j) && entries[j].owner
                < info.seeds.len() implies {
            &&& after.seeds[entries[j].owner as int] == idx
            &&& after.balances[entries[j].owner as int] == entries[j].balance
            &&& after.keys[entries[j].owner as int] == entries[j].public_key@
        } by {
            if j == from {
                assert(!listed(entries, from + 1, entry.owner));
            }
        }
    }
}

/// After a balance block that passes, whether or not it is the first of the
/// candidate, every node that it lists is introduced by that block, with the
/// listed key and the listed balance, and the creator has what it mined on top.
/// The nodes that it does not list keep what they had. The highest node id is at
/// least the one it declares.
pub proof fn balance_blocks_set_what_they_list(
    d: Derivation,
    ctx: PassView,
    block: ChainBlock,
    payload: BalancePayload,
    idx: u32,
    position: int,
    prev_hash: Option<BlockHash>,
    j: int,
    id: u32,
)
    requires
        sound(d.info),
        idx != NONE_REF,
        block.payload_type == PAYLOAD_TYPE_BALANCE,
        block.payload == BlockPayload::Balances(payload),
        walk::block_derived(d, ctx, block, idx, position, prev_hash).1 is None,
    ensures
        ({
            let before = d.info;
            let after = walk::block_derived(d, ctx, block, idx, position, prev_hash).0.info;
            let entries = payload.entries@;
            let owner = entries[j].owner as int;
            &&& sound(after)
            &&& after.seeds.len() == before.seeds.len()
            &&& last_entry(entries, j) && owner < before.seeds.len() ==> {
                &&& after.seeds[owner] == idx
                &&& after.keys[owner] == entries[j].public_key@
                &&& after.balances[owner] == capped(
                    entries[j].balance + mined_by(block, entries[j].owner),
                )
            }
            &&& id < before.seeds.len() && !listed(entries, 0, id) ==> {
                &&& after.seeds[id as int] == before.seeds[id as int]
                &&& after.keys[id as int] == before.keys[id as int]
                &&& after.balances[id as int] == if known(before, id) {
                    capped(before.balances[id as int] + mined_by(block, id))
                } else {
                    before.balances[id as int] as int
                }
            }
            &&& after.max_known_node_id == if payload.max_node_id > before.max_known_node_id {
                payload.max_node_id
            } else {
                before.max_known_node_id
            }
            &&& walk::block_derived(d, ctx, block, idx, position, prev_hash).0.saw_balance
        }),
{
    let checked = walk::header_checked(d, ctx, block, idx, prev_hash).0;
    let counted = if payload.max_node_id > d.info.max_known_node_id {
        d.info.with_watermark(payload.max_node_id)
    } else {
        d.info
    };
    assert(checked.info == d.info);
    lemma_entries(counted, payload.entries@, idx, 0);
}

/// A balance block after the first is refused exactly if it declares another
/// number of nodes than the chain has, as far as its payload goes.
pub proof fn later_balance_blocks_agree_on_the_nodes(
    s: Step,
    ctx: PassView,
    at: BlockContext,
    block: ChainBlock,
    payload: BalancePayload,
)
    requires
        s.broken is None,
        block.payload_type == PAYLOAD_TYPE_BALANCE,
        block.payload == BlockPayload::Balances(payload),
    ensures
        ({
            let after = walk::payload_applied(s, ctx, at, block);
            &&& after.broken == if s.d.saw_balance && payload.max_node_id
                != s.d.info.max_known_node_id {
                Some(ValidationReason::BalanceMaxNodeIdMismatch)
            } else {
                None
            }
            &&& after.fees == s.fees
            &&& after.d.blocks == s.d.blocks
        }),
{
}

} // verus!
