//! What becomes of a block that a peer sends: when it is a duplicate, when it is
//! refused and why, when it is stored, and as what.

use vstd::prelude::*;

use crate::admission;
use crate::api::{NodeView, ReceiveBlockOutcome, RejectReason};
use crate::block_data::{
    BlockPayload, ChainBlock, Transaction, TransactionBody, TransactionInput,
};
use crate::blocks as tree;
use crate::blocks::{BlockEntry, NONE_REF};
use crate::chain_heads as tips;
use crate::chain_heads::Tips;
use crate::coherence_laws;
use crate::config_state::ConfigView;
use crate::lifecycle::LifecyclePhase;
use crate::staged_validation as tiers;
use crate::staged_validation::Tier1Failure;

verus! {

// -- The first tier ----------------------------------------------------------

/// Whether some initializer of the transaction is the node it votes for.
pub open spec fn votes_for_itself(tx: Transaction) -> bool {
    match tx.body {
        TransactionBody::NodeTransfer(nt) => nt.initializer == tx.vote,
        TransactionBody::Registration(reg) => reg.initializer == tx.vote,
        TransactionBody::Complex(cx) => exists|i: int|
            0 <= i < cx.inputs@.len() && ((#[trigger] cx.inputs@[i]) matches
                TransactionInput::Balance { anchor_sequence, initializer, amount } && initializer
                == tx.vote),
        TransactionBody::Unknown => false,
    }
}

/// Whether the transaction was made after a block that does not precede the one
/// at `sequence`.
pub open spec fn anchored_too_late(tx: Transaction, sequence: u32) -> bool {
    match tx.body {
        TransactionBody::NodeTransfer(nt) => nt.anchor_sequence >= sequence,
        TransactionBody::Complex(cx) => exists|i: int|
            0 <= i < cx.inputs@.len() && ((#[trigger] cx.inputs@[i]) matches
                TransactionInput::Balance { anchor_sequence, initializer, amount }
                && anchor_sequence >= sequence),
        _ => false,
    }
}

/// Whether nothing that the transaction says of itself speaks against it.
pub open spec fn in_itself_sound(tx: Transaction, sequence: u32) -> bool {
    &&& !(tx.body is Unknown)
    &&& sequence > 0 ==> !votes_for_itself(tx) && !anchored_too_late(tx, sequence)
}

/// Whether a registration and a complex transaction stand in one block.
pub open spec fn registers_beside_complex(txs: Seq<Transaction>) -> bool {
    exists|i: int, j: int|
        0 <= i < txs.len() && 0 <= j < txs.len() && (#[trigger] txs[i]).body is Registration && (
        #[trigger] txs[j]).body is Complex
}

/// Whether the block passes every check that can be made of it alone.
pub open spec fn fits_first_tier(block: ChainBlock, limit: u16) -> bool {
    &&& block.sequence != 0xFFFF_FFFF
    &&& block.bytes@.len() <= limit
    &&& 1 <= block.payload_type <= 4
    &&& block.payload_type == 1 ==> {
        &&& block.payload is Transactions
        &&& forall|i: int|
            0 <= i < block.payload->Transactions_0@.len() ==> in_itself_sound(
                #[trigger] block.payload->Transactions_0@[i],
                block.sequence,
            )
        &&& !registers_beside_complex(block.payload->Transactions_0@)
    }
    &&& block.payload_type == 2 ==> block.payload is Balances
    &&& block.payload_type == 3 ==> block.payload is ChainConfig && (
    block.payload->ChainConfig_0).signature_valid
}

proof fn lemma_inputs_failure(inputs: Seq<TransactionInput>, vote: u32, sequence: u32, from: int)
    requires
        0 <= from,
    ensures
        (tiers::inputs_failure(inputs, vote, sequence, from) is None) == (forall|i: int|
            from <= i < inputs.len() && (#[trigger] inputs[i]) is Balance ==> inputs[i]->initializer
                != vote && inputs[i]->anchor_sequence < sequence),
        tiers::inputs_failure(inputs, vote, sequence, from) matches Some(failure) ==> exists|i: int|
            from <= i < inputs.len() && (#[trigger] inputs[i]) is Balance && (failure
                == Tier1Failure::SelfVote && inputs[i]->initializer == vote || failure
                == Tier1Failure::AnchorNotBeforeBlock && inputs[i]->anchor_sequence >= sequence),
    decreases inputs.len() - from,
{
    if from < inputs.len() {
        lemma_inputs_failure(inputs, vote, sequence, from + 1);
        if inputs[from] is Balance {
            assert(inputs[from] is Balance);
        }
    }
}

proof fn lemma_transaction_failure(tx: Transaction, sequence: u32)
    ensures
        (tiers::transaction_failure(tx, sequence) is None) == in_itself_sound(tx, sequence),
        tiers::transaction_failure(tx, sequence) matches Some(failure) ==> {
            ||| failure == Tier1Failure::MalformedPayload && tx.body is Unknown
            ||| failure == Tier1Failure::SelfVote && sequence > 0 && votes_for_itself(tx)
            ||| failure == Tier1Failure::AnchorNotBeforeBlock && sequence > 0 && anchored_too_late(
                tx,
                sequence,
            )
        },
{
    if let TransactionBody::Complex(cx) = tx.body {
        lemma_inputs_failure(cx.inputs@, tx.vote, sequence, 0);
        if sequence > 0 {
            assert(votes_for_itself(tx) ==> exists|i: int|
                0 <= i < cx.inputs@.len() && (#[trigger] cx.inputs@[i]) is Balance
                    && cx.inputs@[i]->initializer == tx.vote);
            assert(anchored_too_late(tx, sequence) ==> exists|i: int|
                0 <= i < cx.inputs@.len() && (#[trigger] cx.inputs@[i]) is Balance
                    && cx.inputs@[i]->anchor_sequence >= sequence);
        }
    }
}

proof fn lemma_transactions_failure(txs: Seq<Transaction>, sequence: u32, from: int)
    requires
        0 <= from,
    ensures
        (tiers::transactions_failure(txs, sequence, from) is None) == (forall|i: int|
            from <= i < txs.len() ==> in_itself_sound(#[trigger] txs[i], sequence)),
        tiers::transactions_failure(txs, sequence, from) matches Some(failure) ==> exists|i: int| {
            &&& from <= i < txs.len()
            &&& !in_itself_sound(#[trigger] txs[i], sequence)
            &&& forall|j: int| from <= j < i ==> in_itself_sound(#[trigger] txs[j], sequence)
            &&& {
                ||| failure == Tier1Failure::MalformedPayload && txs[i].body is Unknown
                ||| failure == Tier1Failure::SelfVote && sequence > 0 && votes_for_itself(txs[i])
                ||| failure == Tier1Failure::AnchorNotBeforeBlock && sequence > 0
                    && anchored_too_late(txs[i], sequence)
            }
        },
    decreases txs.len() - from,
{
    if from < txs.len() {
        lemma_transaction_failure(txs[from], sequence);
        lemma_transactions_failure(txs, sequence, from + 1);
        if tiers::transaction_failure(txs[from], sequence) is Some {
            assert(!in_itself_sound(txs[from], sequence));
        } else if let Some(failure) = tiers::transactions_failure(txs, sequence, from + 1) {
            let i = choose|i: int| {
                &&& from + 1 <= i < txs.len()
                &&& !in_itself_sound(#[trigger] txs[i], sequence)
                &&& forall|j: int| from + 1 <= j < i ==> in_itself_sound(#[trigger] txs[j], sequence)
                &&& {
                    ||| failure == Tier1Failure::MalformedPayload && txs[i].body is Unknown
                    ||| failure == Tier1Failure::SelfVote && sequence > 0 && votes_for_itself(
                        txs[i],
                    )
                    ||| failure == Tier1Failure::AnchorNotBeforeBlock && sequence > 0
                        && anchored_too_late(txs[i], sequence)
                }
            };
            assert forall|j: int| from <= j < i implies in_itself_sound(
                #[trigger] txs[j],
                sequence,
            ) by {}
            assert(!in_itself_sound(txs[i], sequence));
        }
    }
}

proof fn lemma_mix(txs: Seq<Transaction>)
    ensures
        tiers::mixes_registration_and_complex(txs) == registers_beside_complex(txs),
{
    if tiers::mixes_registration_and_complex(txs) {
        let i = choose|i: int| 0 <= i < txs.len() && (#[trigger] txs[i]).body is Registration;
        let j = choose|j: int| 0 <= j < txs.len() && (#[trigger] txs[j]).body is Complex;
        assert(txs[i].body is Registration && txs[j].body is Complex);
    }
}

/// A block passes the first tier exactly if every check that can be made of it
/// alone holds, in particular of each of its transactions, at every position: its
/// body is known, no initializer of it is the node it votes for, and every anchor
/// is below the block (the last two above the first block of the chain).
pub proof fn first_tier_looks_at_every_transaction(block: ChainBlock, limit: u16)
    ensures
        (tiers::tier1_failure(block, limit) is None) == fits_first_tier(block, limit),
{
    if let BlockPayload::Transactions(txs) = block.payload {
        lemma_transactions_failure(txs@, block.sequence, 0);
        lemma_mix(txs@);
    }
}

/// What the first tier names as the failure is one: the block has the reserved
/// sequence, is too large, has no known type, does not read as its type, carries a
/// transaction that votes for its own initializer or was made too late, mixes
/// registrations with complex transactions, or carries a configuration that node
/// #0 did not sign.
pub proof fn first_tier_failures_are_real(block: ChainBlock, limit: u16)
    requires
        tiers::tier1_failure(block, limit) is Some,
    ensures
        match tiers::tier1_failure(block, limit)->0 {
            Tier1Failure::ReservedSequence => block.sequence == 0xFFFF_FFFF,
            Tier1Failure::BlockTooLarge => block.bytes@.len() > limit,
            Tier1Failure::UnknownPayloadType => !(1 <= block.payload_type <= 4),
            Tier1Failure::MalformedPayload => {
                ||| block.payload_type == 1 && !(block.payload is Transactions)
                ||| block.payload_type == 1 && exists|i: int|
                    0 <= i < block.payload->Transactions_0@.len() && (
                    #[trigger] block.payload->Transactions_0@[i]).body is Unknown
                ||| block.payload_type == 2 && !(block.payload is Balances)
                ||| block.payload_type == 3 && !(block.payload is ChainConfig)
            },
            Tier1Failure::SelfVote => {
                &&& block.payload_type == 1
                &&& exists|i: int|
                    0 <= i < block.payload->Transactions_0@.len() && votes_for_itself(
                        #[trigger] block.payload->Transactions_0@[i],
                    )
            },
            Tier1Failure::AnchorNotBeforeBlock => {
                &&& block.payload_type == 1
                &&& exists|i: int|
                    0 <= i < block.payload->Transactions_0@.len() && anchored_too_late(
                        #[trigger] block.payload->Transactions_0@[i],
                        block.sequence,
                    )
            },
            Tier1Failure::RegistrationWithComplex => {
                &&& block.payload_type == 1
                &&& registers_beside_complex(block.payload->Transactions_0@)
            },
            Tier1Failure::ChainConfigSignatureInvalid => {
                &&& block.payload_type == 3
                &&& block.payload is ChainConfig
                &&& !(block.payload->ChainConfig_0).signature_valid
            },
            _ => false,
        },
        block.sequence == 0xFFFF_FFFF ==> tiers::tier1_failure(block, limit) == Some(
            Tier1Failure::ReservedSequence,
        ),
        block.sequence != 0xFFFF_FFFF && block.bytes@.len() > limit ==> tiers::tier1_failure(
            block,
            limit,
        ) == Some(Tier1Failure::BlockTooLarge),
{
    if let BlockPayload::Transactions(txs) = block.payload {
        lemma_transactions_failure(txs@, block.sequence, 0);
        lemma_mix(txs@);
        if block.payload_type == 1 {
            if let Some(failure) = tiers::transactions_failure(txs@, block.sequence, 0) {
                let i = choose|i: int| {
                    &&& 0 <= i < txs@.len()
                    &&& !in_itself_sound(#[trigger] txs@[i], block.sequence)
                    &&& forall|j: int|
                        0 <= j < i ==> in_itself_sound(#[trigger] txs@[j], block.sequence)
                    &&& {
                        ||| failure == Tier1Failure::MalformedPayload && txs@[i].body is Unknown
                        ||| failure == Tier1Failure::SelfVote && block.sequence > 0
                            && votes_for_itself(txs@[i])
                        ||| failure == Tier1Failure::AnchorNotBeforeBlock && block.sequence > 0
                            && anchored_too_late(txs@[i], block.sequence)
                    }
                };
                assert(block.payload->Transactions_0@[i] == txs@[i]);
            }
        }
    }
}

// -- The outcome -------------------------------------------------------------

/// Whether the tree holds the block.
pub open spec fn in_tree(s: Seq<BlockEntry>, block: ChainBlock) -> bool {
    exists|i: int|
        0 <= i < s.len() && (#[trigger] s[i]).sequence == block.sequence && s[i].sequence
            != NONE_REF && s[i].hash == block.hash
}

/// Whether a slot of the tree is free.
pub open spec fn has_room(s: Seq<BlockEntry>) -> bool {
    exists|i: int| 0 <= i < s.len() && (#[trigger] s[i]).sequence == NONE_REF
}

/// Whether the block lies in the window of the active chain, where there is one:
/// from the tail up to, but not including, `w` above the head.
pub open spec fn in_window(block: ChainBlock, window: Option<(u32, u32)>, w: u32) -> bool {
    window matches Some((tail, head)) ==> tail <= block.sequence < head + w
}

/// Whether the block carries another configuration than the locked one.
pub open spec fn contradicts_the_lock(node: NodeView, block: ChainBlock) -> bool {
    node.config matches ConfigView::Durable { content, parameters } && block.payload_type == 3 && !(
    block.payload is ChainConfig && (block.payload->ChainConfig_0).content@ == content)
}

/// The largest block that is taken in: that of the locked configuration, and the
/// largest at all while none is locked.
pub open spec fn limit_in_force(node: NodeView) -> u16 {
    match node.config {
        ConfigView::Durable { content, parameters } => parameters.block_size_limit,
        _ => 2016,
    }
}

/// Whether the block is evidently invalid: it fails the first tier, is a second
/// first block, or carries a configuration that the registry refuses.
pub open spec fn evidently_invalid(node: NodeView, block: ChainBlock) -> bool {
    ||| !fits_first_tier(block, limit_in_force(node))
    ||| block.sequence == 0 && node.active_head != NONE_REF
    ||| has_room(node.blocks) && block.payload_type == 3 && (
    block.payload->ChainConfig_0).accepted is None
}

proof fn lemma_in_tree(s: Seq<BlockEntry>, block: ChainBlock, from: int)
    requires
        0 <= from,
    ensures
        (tree::slot_of(s, block.sequence, block.hash, from) is Some) == (exists|i: int|
            from <= i < s.len() && (#[trigger] s[i]).sequence == block.sequence && s[i].sequence
                != NONE_REF && s[i].hash == block.hash),
    decreases s.len() - from,
{
    if from < s.len() {
        lemma_in_tree(s, block, from + 1);
        if s[from].is_block(block.sequence, block.hash) {
            assert(s[from].sequence == block.sequence);
        }
    }
}

proof fn lemma_room(s: Seq<BlockEntry>, from: int)
    requires
        0 <= from,
        s.len() <= NONE_REF,
    ensures
        match tree::free_slot(s, from) {
            Some(idx) => from <= idx < s.len() && s[idx as int].sequence == NONE_REF && forall|i: int|
                from <= i < idx ==> (#[trigger] s[i]).sequence != NONE_REF,
            None => forall|i: int| from <= i < s.len() ==> (#[trigger] s[i]).sequence != NONE_REF,
        },
    decreases s.len() - from,
{
    if from < s.len() && s[from].sequence != NONE_REF {
        lemma_room(s, from + 1);
    }
}

/// Every submitted block gets the outcome that holds of it. It is a duplicate
/// exactly if the tree holds it; otherwise out of the window exactly if it lies
/// outside; otherwise invalid exactly if it contradicts the locked configuration
/// or is evidently invalid; otherwise unstorable exactly if the tree is full or
/// the write failed; and it is accepted in every other case.
pub proof fn outcomes_tell_what_holds_of_the_block(
    node: NodeView,
    block: ChainBlock,
    window: Option<(u32, u32)>,
    w: u32,
    saved: bool,
)
    requires
        node.blocks.len() <= NONE_REF,
    ensures
        node.classified(block, window, w, saved) == if in_tree(node.blocks, block) {
            ReceiveBlockOutcome::DuplicateKnown
        } else if !in_window(block, window, w) {
            ReceiveBlockOutcome::Rejected(RejectReason::OutOfWindow)
        } else if contradicts_the_lock(node, block) || evidently_invalid(node, block) {
            ReceiveBlockOutcome::Rejected(RejectReason::InvalidEvidence)
        } else if !has_room(node.blocks) || !saved {
            ReceiveBlockOutcome::Rejected(RejectReason::Unstorable)
        } else {
            ReceiveBlockOutcome::AcceptedSilently
        },
{
    lemma_in_tree(node.blocks, block, 0);
    lemma_room(node.blocks, 0);
    first_tier_looks_at_every_transaction(block, limit_in_force(node));
    assert(node.enforceable_limit() == limit_in_force(node));
    if let Some(idx) = tree::free_slot(node.blocks, 0) {
        assert(node.blocks[idx as int].sequence == NONE_REF);
    }
}

/// A block that is taken in enters the lowest free slot: as the block that it is,
/// with its length and type, stored and on no active chain unless it is the first
/// of the chain, with no output spent, and linked to the block that it names as
/// its parent if the tree holds that. A first block becomes the active head.
pub proof fn admitted_blocks_are_recorded_as_they_are(node: NodeView, block: ChainBlock, now: u64)
    requires
        node.blocks.len() <= NONE_REF,
        node.admit_refusal(block) is None,
        block.bytes@.len() <= 0xFFFF,
    ensures
        ({
            let idx = node.admit_result(block, true)->Ok_0;
            let after = node.admitted(block, now);
            let entry = after.blocks[idx as int];
            &&& node.admit_result(block, true) is Ok
            &&& idx < node.blocks.len()
            &&& node.blocks[idx as int].sequence == NONE_REF
            &&& forall|i: int| 0 <= i < idx ==> (#[trigger] node.blocks[i]).sequence != NONE_REF
            &&& after.blocks.len() == node.blocks.len()
            &&& entry.sequence != NONE_REF ==> {
                &&& entry.sequence == block.sequence
                &&& entry.hash == block.hash
                &&& entry.len == block.bytes@.len()
                &&& entry.flags & 1 == (if block.sequence == 0 {
                    1u8
                } else {
                    0u8
                })
                &&& (entry.flags & 0b110) == 0
                &&& entry.flags >> 3 == block.payload_type
                &&& forall|i: int| 0 <= i < 32 ==> #[trigger] entry.spent_bits@[i] == 0
                &&& block.sequence > 0 ==> forall|p: int|
                    0 <= p < node.blocks.len() && (#[trigger] node.blocks[p]).sequence + 1
                        == block.sequence && node.blocks[p].hash == block.previous_hash ==> {
                        let parent = entry.parent_ref;
                        &&& parent < node.blocks.len()
                        &&& node.blocks[parent as int].sequence + 1 == block.sequence
                        &&& node.blocks[parent as int].hash == block.previous_hash
                    }
            }
            &&& after.active_head == if block.sequence == 0 {
                idx
            } else {
                node.active_head
            }
            &&& after.phase == node.phase
            &&& after.last_emit == node.last_emit
            &&& after.info == node.info
        }),
{
    let idx = tree::free_slot(node.blocks, 0)->0;
    let parent = tree::parent_slot(node.blocks, block.previous_hash, block.sequence);
    let entry = admission::admitted_entry(block, parent);
    let start = node.blocks.update(idx as int, entry);
    let active_head = if block.sequence == 0 {
        idx
    } else {
        node.active_head
    };
    lemma_room(node.blocks, 0);
    first_tier_looks_at_every_transaction(block, limit_in_force(node));
    assert(node.enforceable_limit() == limit_in_force(node));
    coherence_laws::lemma_admitted_entry(block, parent);
    tips::admission_spares_the_active_chain(
        Tips { heads: node.heads, blocks: start },
        idx,
        parent,
        block.previous_hash,
        now,
        active_head,
    );
    lemma_entry_flags(block);
    if block.sequence > 0 {
        tree::slot_of_is_first(
            node.blocks,
            (block.sequence - 1) as u32,
            block.previous_hash,
            0,
        );
        assert forall|p: int|
            0 <= p < node.blocks.len() && (#[trigger] node.blocks[p]).sequence + 1
                == block.sequence && node.blocks[p].hash == block.previous_hash implies parent
            is Some by {
            assert(node.blocks[p].is_block((block.sequence - 1) as u32, block.previous_hash));
        }
    }
}

/// A submission calls for an acquisition exactly if the block was taken in, the
/// node collects, and it holds a configuration, locked or not.
pub proof fn acquisitions_are_due_with_a_configuration(
    node: NodeView,
    outcome: ReceiveBlockOutcome,
)
    ensures
        node.acquisition_due(outcome) <==> outcome == ReceiveBlockOutcome::AcceptedSilently
            && node.phase == LifecyclePhase::Collecting && (node.config is Tentative
            || node.config is Durable),
{
}

/// Of a transaction that breaks two rules of the first tier it is told that it
/// votes for itself; in a complex one the first input that breaks a rule counts.
pub proof fn self_votes_are_told_first(tx: Transaction, sequence: u32, i: int)
    requires
        sequence > 0,
    ensures
        ({
            let failure = tiers::transaction_failure(tx, sequence);
            match tx.body {
                TransactionBody::NodeTransfer(nt) => failure == if nt.initializer == tx.vote {
                    Some(Tier1Failure::SelfVote)
                } else if nt.anchor_sequence >= sequence {
                    Some(Tier1Failure::AnchorNotBeforeBlock)
                } else {
                    None
                },
                TransactionBody::Registration(reg) => failure == if reg.initializer == tx.vote {
                    Some(Tier1Failure::SelfVote)
                } else {
                    None
                },
                TransactionBody::Complex(cx) => first_offence(cx.inputs@, tx.vote, sequence, i)
                    ==> failure == if cx.inputs@[i]->initializer == tx.vote {
                    Some(Tier1Failure::SelfVote)
                } else {
                    Some(Tier1Failure::AnchorNotBeforeBlock)
                },
                TransactionBody::Unknown => failure == Some(Tier1Failure::MalformedPayload),
            }
        }),
{
    if let TransactionBody::Complex(cx) = tx.body {
        if first_offence(cx.inputs@, tx.vote, sequence, i) {
            lemma_first_offence(cx.inputs@, tx.vote, sequence, i, 0);
        }
    }
}

/// Whether the input breaks a rule of the first tier.
pub open spec fn offends(input: TransactionInput, vote: u32, sequence: u32) -> bool {
    input is Balance && (input->initializer == vote || input->anchor_sequence >= sequence)
}

/// Whether input `i` is the first that breaks a rule of the first tier.
pub open spec fn first_offence(
    inputs: Seq<TransactionInput>,
    vote: u32,
    sequence: u32,
    i: int,
) -> bool {
    &&& 0 <= i < inputs.len()
    &&& offends(inputs[i], vote, sequence)
    &&& forall|j: int| 0 <= j < i ==> !offends(#[trigger] inputs[j], vote, sequence)
}

proof fn lemma_first_offence(
    inputs: Seq<TransactionInput>,
    vote: u32,
    sequence: u32,
    i: int,
    from: int,
)
    requires
        first_offence(inputs, vote, sequence, i),
        0 <= from <= i,
    ensures
        tiers::inputs_failure(inputs, vote, sequence, from) == if inputs[i]->initializer == vote {
            Some(Tier1Failure::SelfVote)
        } else {
            Some(Tier1Failure::AnchorNotBeforeBlock)
        },
    decreases i - from,
{
    if from < i {
        assert(!offends(inputs[from], vote, sequence));
        lemma_first_offence(inputs, vote, sequence, i, from + 1);
    }
}

/// The flags with which a block enters the tree.
proof fn lemma_entry_flags(block: ChainBlock)
    requires
        1 <= block.payload_type <= 4,
    ensures
        forall|parent: Option<u32>| {
            let entry = #[trigger] admission::admitted_entry(block, parent);
            &&& entry.flags & 1 == (if block.sequence == 0 {
                1u8
            } else {
                0u8
            })
            &&& (entry.flags & 0b110) == 0
            &&& entry.flags >> 3 == block.payload_type
        },
{
    let kind = block.payload_type;
    assert(1 <= kind <= 4 ==> {
        let stored = (0u8 & !0b110u8) | ((0u8 << 1u8) & 0b110u8);
        let plain = (stored & 0b111u8) | (kind << 3u8);
        let active = plain | 1u8;
        &&& plain & 1 == 0
        &&& plain & 0b110 == 0
        &&& plain >> 3u8 == kind
        &&& active & 1 == 1
        &&& active & 0b110 == 0
        &&& active >> 3u8 == kind
    }) by (bit_vector);
}

} // verus!
