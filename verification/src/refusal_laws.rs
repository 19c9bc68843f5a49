//! For which rule a transaction is refused, where it breaks several, and that no
//! transaction of a block is left out.

use vstd::prelude::*;

use crate::block_data::{
    BlockPayload, ChainBlock, NodeTransfer, Registration, Transaction, TransactionBody,
    TransactionInput, TransactionOutput,
};
use crate::derivation as walk;
use crate::derivation::{BlockContext, ComplexStep, PassView, Step, ValidationReason};
use crate::hash::BlockHash;
use crate::node_info::InfoView;
use crate::payment_laws as payment;
use crate::roster_laws as roster;

verus! {

/// The rule that a node breaks by acting above the first block, if any.
pub open spec fn actor_refused(info: InfoView, ctx: PassView, id: u32) -> Option<
    ValidationReason,
> {
    if ctx.genesis_anchored && !roster::known(info, id) {
        Some(ValidationReason::UnseededActor)
    } else if ctx.roster_bounded && id > info.max_known_node_id {
        Some(ValidationReason::NodeIdOutOfRange)
    } else {
        None
    }
}

/// The rule that a node that is known breaks as the signer of a transaction that
/// takes `cost` from it, if any.
pub open spec fn signer_refused(
    info: InfoView,
    ctx: PassView,
    at: BlockContext,
    tx: Transaction,
    signer: u32,
    cost: int,
) -> Option<ValidationReason> {
    if tx.vote > info.max_known_node_id {
        Some(ValidationReason::VoteTargetUnknown)
    } else if !payment::signed_by(info, ctx, at, tx, signer) {
        Some(ValidationReason::TransactionSignatureInvalid)
    } else if info.balances[signer as int] < cost {
        Some(ValidationReason::InsufficientBalance)
    } else {
        None
    }
}

/// A transfer is refused for the first rule it breaks: the initializer must be
/// known and exist, the receiver must exist, the vote must name a node, the
/// signature must hold, and the balance must suffice. In the first block none of
/// these is asked, and of an initializer that is not known only the first two.
pub proof fn transfers_are_refused_for_the_first_rule(
    s: Step,
    ctx: PassView,
    at: BlockContext,
    tx: Transaction,
    nt: NodeTransfer,
)
    requires
        roster::sound(s.d.info),
        s.broken is None,
        tx.body == TransactionBody::NodeTransfer(nt),
    ensures
        ({
            let info = s.d.info;
            let broken = walk::transaction_applied(s, ctx, at, tx).broken;
            let actor = actor_refused(info, ctx, nt.initializer);
            let beyond = ctx.roster_bounded && nt.receiver > info.max_known_node_id;
            &&& at.sequence == 0 ==> broken is None
            &&& at.sequence != 0 && actor is Some ==> broken == actor
            &&& at.sequence != 0 && actor is None && beyond ==> broken == Some(
                ValidationReason::NodeIdOutOfRange,
            )
            &&& at.sequence != 0 && actor is None && !beyond ==> broken == if roster::known(
                info,
                nt.initializer,
            ) {
                signer_refused(info, ctx, at, tx, nt.initializer, payment::cost(nt))
            } else {
                None
            }
        }),
{
    payment::lemma_signed(s.d.info, ctx, at, tx, nt.initializer);
}

/// A registration is refused for the first rule it breaks: the initializer must be
/// known and exist, the new node must take the next id where the ids are known, the
/// vote must name a node, the signature must hold, the balance must suffice, and
/// the key must be new. In the first block only the last of these is asked.
pub proof fn registrations_are_refused_for_the_first_rule(
    s: Step,
    ctx: PassView,
    at: BlockContext,
    tx: Transaction,
    reg: Registration,
)
    requires
        roster::sound(s.d.info),
        s.d.info.seeds.len() <= u32::MAX,
        s.broken is None,
        tx.body == TransactionBody::Registration(reg),
    ensures
        ({
            let info = s.d.info;
            let broken = walk::transaction_applied(s, ctx, at, tx).broken;
            let actor = actor_refused(info, ctx, reg.initializer);
            let next = if info.max_known_node_id == u32::MAX {
                0
            } else {
                info.max_known_node_id + 1
            };
            let misnumbered = (ctx.genesis_anchored || s.d.saw_balance) && reg.new_node_id != next;
            let signer = if roster::known(info, reg.initializer) {
                signer_refused(
                    info,
                    ctx,
                    at,
                    tx,
                    reg.initializer,
                    payment::registration_cost(reg),
                )
            } else {
                None
            };
            let key = if payment::key_in_use(info, reg.new_public_key@) {
                Some(ValidationReason::DuplicatePublicKey)
            } else {
                None
            };
            &&& at.sequence == 0 ==> broken == key
            &&& at.sequence != 0 && actor is Some ==> broken == actor
            &&& at.sequence != 0 && actor is None && misnumbered ==> broken == Some(
                ValidationReason::RegistrationWatermark,
            )
            &&& at.sequence != 0 && actor is None && !misnumbered ==> broken == if signer is Some {
                signer
            } else {
                key
            }
        }),
{
    let info = s.d.info;
    payment::lemma_signed(info, ctx, at, tx, reg.initializer);
    payment::lemma_key_taken(info, reg.new_public_key@);
    if roster::known(info, reg.initializer) {
        let charged = info.debited(reg.initializer, payment::registration_cost(reg) as u64);
        payment::lemma_key_taken(charged, reg.new_public_key@);
        assert(charged.keys == info.keys && charged.seeds == info.seeds);
        assert(payment::key_in_use(charged, reg.new_public_key@) == payment::key_in_use(
            info,
            reg.new_public_key@,
        )) by {
            assert forall|id: u32| roster::known(charged, id) == roster::known(info, id) by {}
            if payment::key_in_use(info, reg.new_public_key@) {
                let id = choose|id: u32| #[trigger]
                    roster::known(info, id) && info.keys[id as int] == reg.new_public_key@;
                assert(roster::known(charged, id));
            }
            if payment::key_in_use(charged, reg.new_public_key@) {
                let id = choose|id: u32| #[trigger]
                    roster::known(charged, id) && charged.keys[id as int] == reg.new_public_key@;
                assert(roster::known(info, id));
            }
        }
    }
}

/// An input that takes from a balance is refused for the first rule it breaks: the
/// initializer must be known and exist, the vote must name a node, and the balance
/// that is left must suffice. In the first block none of these is asked, and of an
/// initializer that is not known only the first.
pub proof fn inputs_are_refused_for_the_first_rule(
    c: ComplexStep,
    ctx: PassView,
    at: BlockContext,
    vote: u32,
    anchor: u32,
    id: u32,
    amount: u64,
)
    requires
        roster::sound(c.d.info),
        c.broken is None,
    ensures
        ({
            let info = c.d.info;
            let input = TransactionInput::Balance {
                anchor_sequence: anchor,
                initializer: id,
                amount,
            };
            let after = walk::input_applied(c, ctx, at, vote, input);
            let actor = actor_refused(info, ctx, id);
            &&& at.sequence == 0 ==> after.broken is None
            &&& at.sequence != 0 && actor is Some ==> after.broken == actor
            &&& at.sequence != 0 && actor is None ==> after.broken == if !roster::known(info, id) {
                None
            } else if vote > info.max_known_node_id {
                Some(ValidationReason::VoteTargetUnknown)
            } else if info.balances[id as int] < amount {
                Some(ValidationReason::InsufficientBalance)
            } else {
                None
            }
            &&& after.broken is None ==> {
                &&& after.in_sum == roster::capped(c.in_sum + amount)
                &&& id < info.seeds.len() ==> after.d.info.balances[id as int]
                    == info.balances[id as int] - if at.sequence != 0 && roster::known(info, id) {
                    amount as int
                } else {
                    0
                }
                &&& after.d.blocks == c.d.blocks
                &&& after.out_sum == c.out_sum
                &&& after.has_utxo_input == c.has_utxo_input
            }
        }),
{
}

/// An input that names an output is taken exactly if that output can be spent: then
/// it is, and no balance changes.
pub proof fn inputs_spend_the_output_they_name(
    c: ComplexStep,
    ctx: PassView,
    at: BlockContext,
    vote: u32,
    tr_hash: BlockHash,
    output_index: u8,
)
    requires
        c.broken is None,
    ensures
        ({
            let input = TransactionInput::Utxo { tr_hash, output_index };
            let after = walk::input_applied(c, ctx, at, vote, input);
            let spent = walk::output_spent(
                c.d.blocks,
                ctx,
                at.sequence,
                tr_hash,
                output_index,
                0,
            );
            &&& after.d.blocks == spent.0
            &&& after.broken == spent.1
            &&& after.d.info == c.d.info
            &&& after.has_utxo_input
            &&& after.in_sum == c.in_sum
            &&& after.out_sum == c.out_sum
        }),
{
}

/// An output to a balance is refused exactly if its receiver does not exist; a
/// receiver that is known gets the amount. An output that can be spent later
/// changes nothing.
pub proof fn outputs_are_refused_for_their_receiver(
    c: ComplexStep,
    ctx: PassView,
    at: BlockContext,
    id: u32,
    amount: u64,
)
    requires
        roster::sound(c.d.info),
        c.broken is None,
    ensures
        ({
            let info = c.d.info;
            let after = walk::output_applied(
                c,
                ctx,
                at,
                TransactionOutput::Balance { receiver: id, amount },
            );
            &&& after.broken == if at.sequence != 0 && ctx.roster_bounded && id
                > info.max_known_node_id {
                Some(ValidationReason::NodeIdOutOfRange)
            } else {
                None
            }
            &&& after.broken is None ==> {
                &&& after.out_sum == roster::capped(c.out_sum + amount)
                &&& roster::known(info, id) ==> after.d.info.balances[id as int] == roster::capped(
                    info.balances[id as int] + amount,
                )
                &&& !roster::known(info, id) ==> after.d.info == info
                &&& after.in_sum == c.in_sum
                &&& after.d.blocks == c.d.blocks
            }
            &&& walk::output_applied(c, ctx, at, TransactionOutput::Utxo { amount }) == c
        }),
{
}

// -- All transactions of a block ---------------------------------------------

/// Whether `steps` are the states of applying the transactions one after the other,
/// from the first on, as far as none is refused.
pub open spec fn applied_in_turn(
    steps: Seq<Step>,
    ctx: PassView,
    at: BlockContext,
    txs: Seq<Transaction>,
) -> bool {
    &&& steps.len() == txs.len() + 1
    &&& forall|k: int|
        0 <= k < txs.len() ==> steps[k + 1] == if steps[k].broken is None {
            walk::transaction_applied(steps[k], ctx, at, #[trigger] txs[k])
        } else {
            steps[k]
        }
}

proof fn lemma_in_turn(
    s: Step,
    ctx: PassView,
    at: BlockContext,
    txs: Seq<Transaction>,
    end: nat,
) -> (steps: Seq<Step>)
    requires
        end <= txs.len(),
    ensures
        applied_in_turn(steps, ctx, at, txs.take(end as int)),
        steps[0] == s,
        walk::transactions_applied(s, ctx, at, txs, 0) == walk::transactions_applied(
            steps.last(),
            ctx,
            at,
            txs,
            end as int,
        ),
    decreases end,
{
    if end == 0 {
        seq![s]
    } else {
        let fewer = lemma_in_turn(s, ctx, at, txs, (end - 1) as nat);
        let last = fewer.last();
        let next = if last.broken is None {
            walk::transaction_applied(last, ctx, at, txs[end - 1])
        } else {
            last
        };
        let steps = fewer.push(next);
        let part = txs.take(end as int);
        assert forall|k: int| 0 <= k < part.len() implies steps[k + 1] == if steps[k].broken
            is None {
            walk::transaction_applied(steps[k], ctx, at, #[trigger] part[k])
        } else {
            steps[k]
        } by {
            if k < end - 1 {
                assert(txs.take(end - 1)[k] == part[k]);
            }
        }
        steps
    }
}

/// A transaction block applies every one of its transactions, in their order, each
/// to what the ones before it left, and is refused for the first that is refused.
pub proof fn transactions_are_applied_in_turn(
    s: Step,
    ctx: PassView,
    at: BlockContext,
    block: ChainBlock,
    txs: Vec<Transaction>,
) -> (steps: Seq<Step>)
    requires
        s.broken is None,
        block.payload_type == 1,
        block.payload == BlockPayload::Transactions(txs),
    ensures
        applied_in_turn(steps, ctx, at, txs@),
        steps[0] == s,
        steps.last() == walk::payload_applied(s, ctx, at, block),
{
    let steps = lemma_in_turn(s, ctx, at, txs@, txs@.len());
    assert(txs@.take(txs@.len() as int) =~= txs@);
    steps
}

} // verus!
