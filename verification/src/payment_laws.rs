//! What each transaction takes from whom and gives to whom, and when it may.

use vstd::prelude::*;

use crate::block_data::{
    BlockPayload, ChainBlock, NodeTransfer, Registration, Transaction, TransactionBody,
    PAYLOAD_TYPE_TRANSACTION,
};
use crate::derivation as walk;
use crate::derivation::{BlockContext, CheckView, Derivation, PassView, Step, ValidationReason};
use crate::hash::BlockHash;
use crate::node_info::InfoView;
use crate::roster_laws as roster;

verus! {

/// The signature that the transaction has to carry: over all of its bytes with
/// the last 64 blank, by the key of the signer.
pub open spec fn signs(check: CheckView, info: InfoView, at: BlockContext, tx: Transaction, signer: u32) -> bool {
    let len = tx.bytes@.len() as int;
    &&& check.block_idx == at.idx
    &&& check.reason == ValidationReason::TransactionSignatureInvalid
    &&& check.public_key == info.keys[signer as int]
    &&& check.signature == tx.bytes@.skip(len - 64)
    &&& check.message.len() == len
    &&& forall|i: int|
        0 <= i < len ==> #[trigger] check.message[i] == if i < len - 64 {
            tx.bytes@[i]
        } else {
            0
        }
}

/// Whether the vote names a node that exists.
pub open spec fn votes_for_a_node(info: InfoView, vote: u32) -> bool {
    vote <= info.max_known_node_id
}

/// Whether the transaction carries a signature that can be checked, and the
/// check holds.
pub open spec fn signed_by(
    info: InfoView,
    ctx: PassView,
    at: BlockContext,
    tx: Transaction,
    signer: u32,
) -> bool {
    &&& roster::has_key(info, signer)
    &&& 64 <= tx.bytes@.len() <= ctx.registration_size
    &&& exists|check: CheckView| #[trigger] signs(check, info, at, tx, signer) && (ctx.holds)(check)
}

/// The rule about actors that the node breaks at this height, if it does: in a
/// chain that starts at its first block every actor must have been introduced,
/// and where the number of nodes is known every id must be one of them.
pub open spec fn may_act(info: InfoView, ctx: PassView, id: u32) -> bool {
    &&& ctx.genesis_anchored ==> roster::known(info, id)
    &&& ctx.roster_bounded ==> id <= info.max_known_node_id
}

/// Whether the node can be named at this height.
pub open spec fn may_receive(info: InfoView, ctx: PassView, id: u32) -> bool {
    ctx.roster_bounded ==> id <= info.max_known_node_id
}

proof fn lemma_key(info: InfoView, id: u32)
    requires
        roster::sound(info),
    ensures
        (info.key(id) is Some) == roster::has_key(info, id),
        roster::has_key(info, id) ==> info.key(id) == Some(info.keys[id as int]),
{
    if id < info.keys.len() {
        let key = info.keys[id as int];
        if !crate::node_info::key_absent(key) {
            let i = choose|i: int| 0 <= i < key.len() && #[trigger] key[i] != 0;
            assert(info.keys[id as int][i] != 0);
        }
    }
}

/// The check that is asked for is the one that signs the transaction.
pub(crate) proof fn lemma_signed(info: InfoView, ctx: PassView, at: BlockContext, tx: Transaction, signer: u32)
    requires
        roster::sound(info),
    ensures
        match walk::transaction_check(info, ctx, tx, signer, at.idx) {
            Some(check) => {
                &&& signs(check, info, at, tx, signer)
                &&& roster::has_key(info, signer)
                &&& 64 <= tx.bytes@.len() <= ctx.registration_size
                &&& (ctx.holds)(check) == signed_by(info, ctx, at, tx, signer)
            },
            None => !signed_by(info, ctx, at, tx, signer),
        },
{
    lemma_key(info, signer);
    if let Some(check) = walk::transaction_check(info, ctx, tx, signer, at.idx) {
        let len = tx.bytes@.len() as int;
        assert(tx.bytes@.subrange(len - 64, len) =~= tx.bytes@.skip(len - 64));
        assert(signs(check, info, at, tx, signer));
        assert forall|other: CheckView| #[trigger] signs(other, info, at, tx, signer) implies other
            == check by {
            assert(other.message =~= check.message) by {
                assert forall|i: int| 0 <= i < len implies other.message[i] == check.message[i] by {}
            }
            assert(other =~= check);
        }
    }
}

/// What the transfer takes from its initializer.
pub open spec fn cost(nt: NodeTransfer) -> int {
    roster::capped(nt.amount + nt.fee)
}

/// Whether the transfer is allowed above the first block.
pub open spec fn transfer_allowed(
    info: InfoView,
    ctx: PassView,
    at: BlockContext,
    tx: Transaction,
    nt: NodeTransfer,
) -> bool {
    &&& may_act(info, ctx, nt.initializer)
    &&& may_receive(info, ctx, nt.receiver)
    &&& roster::known(info, nt.initializer) ==> {
        &&& votes_for_a_node(info, tx.vote)
        &&& signed_by(info, ctx, at, tx, nt.initializer)
        &&& info.balances[nt.initializer as int] >= cost(nt)
    }
}

/// A transfer above the first block passes exactly if it is allowed: its parties
/// exist, and an initializer that is known votes for a node, has signed it and
/// holds the amount and the fee.
pub proof fn transfers_pass_exactly_if_allowed(
    s: Step,
    ctx: PassView,
    at: BlockContext,
    tx: Transaction,
    nt: NodeTransfer,
)
    requires
        roster::sound(s.d.info),
        s.broken is None,
        tx.body == TransactionBody::NodeTransfer(nt),
        at.sequence != 0,
    ensures
        ({
            let info = s.d.info;
            let broken = walk::transaction_applied(s, ctx, at, tx).broken;
            &&& (broken is None) == transfer_allowed(info, ctx, at, tx, nt)
            &&& (broken == Some(ValidationReason::UnseededActor)) == (ctx.genesis_anchored
                && !roster::known(info, nt.initializer))
            &&& broken == Some(ValidationReason::NodeIdOutOfRange) ==> ctx.roster_bounded && (
            nt.initializer > info.max_known_node_id || nt.receiver > info.max_known_node_id)
            &&& broken == Some(ValidationReason::VoteTargetUnknown) ==> tx.vote
                > info.max_known_node_id
            &&& broken == Some(ValidationReason::TransactionSignatureInvalid) ==> !signed_by(
                info,
                ctx,
                at,
                tx,
                nt.initializer,
            )
            &&& broken == Some(ValidationReason::InsufficientBalance) ==> {
                &&& info.balances[nt.initializer as int] < cost(nt)
                &&& signed_by(info, ctx, at, tx, nt.initializer)
                &&& votes_for_a_node(info, tx.vote)
            }
            &&& broken matches Some(reason) ==> {
                ||| reason == ValidationReason::UnseededActor
                ||| reason == ValidationReason::NodeIdOutOfRange
                ||| reason == ValidationReason::VoteTargetUnknown
                ||| reason == ValidationReason::TransactionSignatureInvalid
                ||| reason == ValidationReason::InsufficientBalance
            }
        }),
{
    lemma_signed(s.d.info, ctx, at, tx, nt.initializer);
}

/// A transfer that passes takes the amount and the fee from the initializer, gives
/// the amount to the receiver and the fee to the block, and touches no other
/// balance, no key and no node. In the first block, and where the initializer is
/// not known, nothing is taken; a receiver that is not known gets nothing.
pub proof fn transfers_move_exactly_the_amount(
    s: Step,
    ctx: PassView,
    at: BlockContext,
    tx: Transaction,
    nt: NodeTransfer,
    id: u32,
)
    requires
        roster::sound(s.d.info),
        s.broken is None,
        tx.body == TransactionBody::NodeTransfer(nt),
        walk::transaction_applied(s, ctx, at, tx).broken is None,
    ensures
        ({
            let info = s.d.info;
            let after = walk::transaction_applied(s, ctx, at, tx);
            let paid = if id == nt.initializer && roster::known(info, id) && at.sequence != 0 {
                cost(nt)
            } else {
                0
            };
            let got = if id == nt.receiver && roster::known(info, id) {
                nt.amount as int
            } else {
                0
            };
            &&& id < info.seeds.len() ==> after.d.info.balances[id as int] == roster::capped(
                info.balances[id as int] - paid + got,
            )
            &&& after.fees == roster::capped(s.fees + nt.fee)
            &&& after.d.info.seeds == info.seeds
            &&& after.d.info.keys == info.keys
            &&& after.d.info.max_known_node_id == info.max_known_node_id
            &&& after.d.blocks == s.d.blocks
            &&& roster::sound(after.d.info)
            &&& at.sequence != 0 && roster::known(info, nt.initializer) ==> {
                &&& after.d.checks.len() == s.d.checks.len() + 1
                &&& signs(after.d.checks.last(), info, at, tx, nt.initializer)
                &&& after.d.checks.drop_last() == s.d.checks
            }
        }),
{
    lemma_signed(s.d.info, ctx, at, tx, nt.initializer);
    let after = walk::transaction_applied(s, ctx, at, tx);
    if at.sequence != 0 && roster::known(s.d.info, nt.initializer) {
        assert(after.d.checks.drop_last() =~= s.d.checks);
    }
}

// -- Registrations -----------------------------------------------------------

/// What the registration takes from its initializer.
pub open spec fn registration_cost(reg: Registration) -> int {
    roster::capped(reg.registration_price + reg.fee)
}

/// Whether another node of the chain holds the key.
pub open spec fn key_in_use(info: InfoView, key: Seq<u8>) -> bool {
    exists|id: u32| #[trigger] roster::known(info, id) && info.keys[id as int] == key
}

/// Whether the registration is allowed above the first block.
pub open spec fn registration_allowed(
    d: Derivation,
    ctx: PassView,
    at: BlockContext,
    tx: Transaction,
    reg: Registration,
) -> bool {
    let info = d.info;
    &&& may_act(info, ctx, reg.initializer)
    &&& ctx.genesis_anchored || d.saw_balance ==> reg.new_node_id == if info.max_known_node_id
        == u32::MAX {
        0
    } else {
        info.max_known_node_id + 1
    }
    &&& roster::known(info, reg.initializer) ==> {
        &&& votes_for_a_node(info, tx.vote)
        &&& signed_by(info, ctx, at, tx, reg.initializer)
        &&& info.balances[reg.initializer as int] >= registration_cost(reg)
    }
    &&& !key_in_use(info, reg.new_public_key@)
}

pub(crate) proof fn lemma_key_taken(info: InfoView, key: Seq<u8>)
    requires
        roster::sound(info),
        info.seeds.len() <= u32::MAX,
    ensures
        info.key_taken(key) == key_in_use(info, key),
{
    if info.key_taken(key) {
        let i = choose|i: int|
            0 <= i < info.seeds.len() && info.seeds[i] != crate::blocks::NONE_REF
                && #[trigger] info.keys[i] == key;
        assert(roster::known(info, i as u32));
    }
    if key_in_use(info, key) {
        let id = choose|id: u32| #[trigger]
            roster::known(info, id) && info.keys[id as int] == key;
        assert(info.keys[id as int] == key);
    }
}

/// A registration above the first block passes exactly if it is allowed: its
/// initializer may act and, if known, votes, has signed and can pay; the new node
/// takes the next free id; and no node holds its key already.
pub proof fn registrations_pass_exactly_if_allowed(
    s: Step,
    ctx: PassView,
    at: BlockContext,
    tx: Transaction,
    reg: Registration,
)
    requires
        roster::sound(s.d.info),
        s.d.info.seeds.len() <= u32::MAX,
        s.broken is None,
        tx.body == TransactionBody::Registration(reg),
        at.sequence != 0,
    ensures
        ({
            let broken = walk::transaction_applied(s, ctx, at, tx).broken;
            &&& (broken is None) == registration_allowed(s.d, ctx, at, tx, reg)
            &&& broken == Some(ValidationReason::DuplicatePublicKey) ==> key_in_use(
                s.d.info,
                reg.new_public_key@,
            )
            &&& broken == Some(ValidationReason::RegistrationWatermark) ==> reg.new_node_id
                != s.d.info.max_known_node_id + 1 && (ctx.genesis_anchored || s.d.saw_balance)
            &&& broken == Some(ValidationReason::InsufficientBalance) ==> s.d.info.balances[reg.initializer as int]
                < registration_cost(reg)
            &&& broken == Some(ValidationReason::UnseededActor) ==> ctx.genesis_anchored
                && !roster::known(s.d.info, reg.initializer)
        }),
{
    let info = s.d.info;
    lemma_signed(info, ctx, at, tx, reg.initializer);
    lemma_key_taken(info, reg.new_public_key@);
    if roster::known(info, reg.initializer) {
        let charged = info.debited(reg.initializer, registration_cost(reg) as u64);
        lemma_key_taken(charged, reg.new_public_key@);
        assert(charged.keys == info.keys && charged.seeds == info.seeds);
    }
}

/// A registration that passes introduces the new node with its key and an empty
/// balance, takes the price and the fee from an initializer that is known, gives
/// the fee to the block, and touches no other node. The highest node id rises to
/// the new one.
pub proof fn registrations_introduce_the_node(
    s: Step,
    ctx: PassView,
    at: BlockContext,
    tx: Transaction,
    reg: Registration,
    id: u32,
)
    requires
        roster::sound(s.d.info),
        s.broken is None,
        tx.body == TransactionBody::Registration(reg),
        walk::transaction_applied(s, ctx, at, tx).broken is None,
    ensures
        ({
            let info = s.d.info;
            let after = walk::transaction_applied(s, ctx, at, tx);
            let now = after.d.info;
            let charged = at.sequence != 0 && roster::known(info, reg.initializer);
            &&& roster::sound(now)
            &&& now.seeds.len() == info.seeds.len()
            &&& id == reg.new_node_id && id < info.seeds.len() ==> {
                &&& now.seeds[id as int] == at.idx
                &&& now.keys[id as int] == reg.new_public_key@
                &&& now.balances[id as int] == 0
            }
            &&& id != reg.new_node_id && id < info.seeds.len() ==> {
                &&& now.seeds[id as int] == info.seeds[id as int]
                &&& now.keys[id as int] == info.keys[id as int]
                &&& now.balances[id as int] == info.balances[id as int] - if charged && id
                    == reg.initializer {
                    registration_cost(reg)
                } else {
                    0
                }
            }
            &&& after.fees == if charged {
                roster::capped(s.fees + reg.fee)
            } else {
                s.fees as int
            }
            &&& now.max_known_node_id == if at.sequence != 0 && reg.new_node_id < info.seeds.len()
                && reg.new_node_id > info.max_known_node_id {
                reg.new_node_id
            } else {
                info.max_known_node_id
            }
            &&& after.d.blocks == s.d.blocks
        }),
{
    let info = s.d.info;
    lemma_signed(info, ctx, at, tx, reg.initializer);
    if reg.new_node_id < info.seeds.len() {
        assert(info.keys[reg.new_node_id as int].len() == 32);
        assert(crate::node_info::key_overwritten(
            info.keys[reg.new_node_id as int],
            reg.new_public_key@,
        ) =~= reg.new_public_key@);
    }
}

// -- The creator -------------------------------------------------------------

/// The creator of a block that passes gets what it mined and the fees of its
/// transactions, if it is known and the block is not one of the two founding
/// ones. Nothing else changes once the transactions are applied.
pub proof fn creators_get_what_they_mined_and_the_fees(
    d: Derivation,
    ctx: PassView,
    block: ChainBlock,
    txs: Vec<Transaction>,
    idx: u32,
    position: int,
    prev_hash: Option<BlockHash>,
    id: u32,
)
    requires
        roster::sound(d.info),
        block.payload_type == PAYLOAD_TYPE_TRANSACTION,
        block.payload == BlockPayload::Transactions(txs),
        walk::block_derived(d, ctx, block, idx, position, prev_hash).1 is None,
    ensures
        ({
            let at = BlockContext { sequence: block.sequence, idx };
            let start = walk::header_checked(d, ctx, block, idx, prev_hash).0;
            let applied = walk::transactions_applied(
                (Step { d: start, fees: 0, broken: None }),
                ctx,
                at,
                txs@,
                0,
            );
            let after = walk::block_derived(d, ctx, block, idx, position, prev_hash).0.info;
            let held = applied.d.info;
            &&& start.info == d.info
            &&& start.blocks == d.blocks
            &&& applied.broken is None
            &&& after.seeds == held.seeds
            &&& after.keys == held.keys
            &&& after.max_known_node_id == held.max_known_node_id
            &&& after.balances.len() == held.balances.len()
            &&& id < held.balances.len() && held.balances.len() == held.seeds.len()
                ==> after.balances[id as int] == if id == block.creator && roster::known(held, id)
                && block.sequence >= 2 {
                roster::capped(held.balances[id as int] + block.mined_amount + applied.fees)
            } else {
                held.balances[id as int] as int
            }
        }),
{
}

} // verus!
