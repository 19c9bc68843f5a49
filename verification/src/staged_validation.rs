//! Staged validation: the status a retained block has reached, and the first
//! tier of checks.
//!
//! The first tier is decided from the block alone, before anything is stored:
//! its size, whether its payload reads as what it claims to be, what its
//! transactions say of themselves, and the signature under a chain
//! configuration. Who created the block, and whether its transactions are
//! covered, depends on the chain below it and is settled when a candidate chain
//! is processed.

use vstd::prelude::*;

use crate::block_data::{
    BlockPayload, ChainBlock, Transaction, TransactionBody, TransactionInput,
    PAYLOAD_TYPE_APPROVAL, PAYLOAD_TYPE_BALANCE, PAYLOAD_TYPE_CHAIN_CONFIG,
    PAYLOAD_TYPE_TRANSACTION,
};
use crate::blocks::NONE_REF;

verus! {

/// How far a retained block has come through staged validation.
#[derive(Debug, Clone, Copy, PartialEq, Eq, Structural)]
pub enum BlockStatus {
    /// Passed the first tier; the only status assigned while collecting.
    Stored,
    /// Its ancestry resolves to the active chain.
    Connected,
    /// Part of the validated active chain.
    Active,
}

/// Why a block fails the first tier.
#[derive(Debug, Clone, Copy, PartialEq, Eq, Structural)]
pub enum Tier1Failure {
    /// The sequence is the one that names no block.
    ReservedSequence,
    /// The block is larger than the limit in force.
    BlockTooLarge,
    /// The payload type is not one the chain knows.
    UnknownPayloadType,
    /// The payload does not read as what its type says.
    MalformedPayload,
    /// A transaction votes for its own initializer.
    SelfVote,
    /// A transaction was made after a block that does not precede this one.
    AnchorNotBeforeBlock,
    /// Registrations and complex transactions stand in one block.
    RegistrationWithComplex,
    /// The signature under a chain configuration is not node #0's.
    ChainConfigSignatureInvalid,
    /// The configuration registry refuses the content.
    ChainConfigContentRejected,
    /// A further block at sequence 0, when the chain has its first block.
    DuplicateGenesis,
}

/// What is wrong with the inputs of a complex transaction from `from` on.
pub open spec fn inputs_failure(
    inputs: Seq<TransactionInput>,
    vote: u32,
    sequence: u32,
    from: int,
) -> Option<Tier1Failure>
    decreases inputs.len() - from,
{
    if from < 0 || from >= inputs.len() {
        None
    } else {
        match inputs[from] {
            TransactionInput::Balance { anchor_sequence, initializer, amount } => if initializer
                == vote {
                Some(Tier1Failure::SelfVote)
            } else if anchor_sequence >= sequence {
                Some(Tier1Failure::AnchorNotBeforeBlock)
            } else {
                inputs_failure(inputs, vote, sequence, from + 1)
            },
            TransactionInput::Utxo { tr_hash, output_index } => inputs_failure(
                inputs,
                vote,
                sequence,
                from + 1,
            ),
        }
    }
}

/// What is wrong with a transaction of a block at `sequence`. The first block
/// of the chain may vote for its own initializer and has nothing before it.
pub open spec fn transaction_failure(tx: Transaction, sequence: u32) -> Option<Tier1Failure> {
    match tx.body {
        TransactionBody::Unknown => Some(Tier1Failure::MalformedPayload),
        TransactionBody::NodeTransfer(nt) => if sequence == 0 {
            None
        } else if nt.initializer == tx.vote {
            Some(Tier1Failure::SelfVote)
        } else if nt.anchor_sequence >= sequence {
            Some(Tier1Failure::AnchorNotBeforeBlock)
        } else {
            None
        },
        TransactionBody::Registration(reg) => if sequence != 0 && reg.initializer == tx.vote {
            Some(Tier1Failure::SelfVote)
        } else {
            None
        },
        TransactionBody::Complex(cx) => if sequence == 0 {
            None
        } else {
            inputs_failure(cx.inputs@, tx.vote, sequence, 0)
        },
    }
}

/// What is wrong with the transactions from `from` on, taken one by one.
pub open spec fn transactions_failure(
    txs: Seq<Transaction>,
    sequence: u32,
    from: int,
) -> Option<Tier1Failure>
    decreases txs.len() - from,
{
    if from < 0 || from >= txs.len() {
        None
    } else {
        match transaction_failure(txs[from], sequence) {
            Some(failure) => Some(failure),
            None => transactions_failure(txs, sequence, from + 1),
        }
    }
}

/// Whether registrations and complex transactions stand side by side.
pub open spec fn mixes_registration_and_complex(txs: Seq<Transaction>) -> bool {
    &&& exists|i: int| 0 <= i < txs.len() && (#[trigger] txs[i]).body is Registration
    &&& exists|i: int| 0 <= i < txs.len() && (#[trigger] txs[i]).body is Complex
}

/// What is wrong with a chain-configuration block: it frames no content, or
/// the content is not signed by node #0.
pub open spec fn chain_config_failure(block: ChainBlock) -> Option<Tier1Failure> {
    match block.payload {
        BlockPayload::ChainConfig(envelope) => if envelope.signature_valid {
            None
        } else {
            Some(Tier1Failure::ChainConfigSignatureInvalid)
        },
        _ => Some(Tier1Failure::MalformedPayload),
    }
}

/// What is wrong with the payload.
pub open spec fn payload_failure(block: ChainBlock) -> Option<Tier1Failure> {
    if block.payload_type == PAYLOAD_TYPE_TRANSACTION {
        match block.payload {
            BlockPayload::Transactions(txs) => match transactions_failure(
                txs@,
                block.sequence,
                0,
            ) {
                Some(failure) => Some(failure),
                None => if mixes_registration_and_complex(txs@) {
                    Some(Tier1Failure::RegistrationWithComplex)
                } else {
                    None
                },
            },
            _ => Some(Tier1Failure::MalformedPayload),
        }
    } else if block.payload_type == PAYLOAD_TYPE_BALANCE {
        if block.payload is Balances {
            None
        } else {
            Some(Tier1Failure::MalformedPayload)
        }
    } else if block.payload_type == PAYLOAD_TYPE_CHAIN_CONFIG {
        chain_config_failure(block)
    } else if block.payload_type == PAYLOAD_TYPE_APPROVAL {
        None
    } else {
        Some(Tier1Failure::UnknownPayloadType)
    }
}

/// Why the block fails the first tier under `block_size_limit`, if it does.
pub open spec fn tier1_failure(block: ChainBlock, block_size_limit: u16) -> Option<Tier1Failure> {
    if block.sequence == NONE_REF {
        Some(Tier1Failure::ReservedSequence)
    } else if block.bytes@.len() > block_size_limit {
        Some(Tier1Failure::BlockTooLarge)
    } else {
        payload_failure(block)
    }
}

/// Checks the inputs of a complex transaction.
fn check_inputs(inputs: &Vec<TransactionInput>, vote: u32, sequence: u32) -> (failure: Option<
    Tier1Failure,
>)
    ensures
        failure == inputs_failure(inputs@, vote, sequence, 0),
{
    let mut i: usize = 0;
    while i < inputs.len()
        invariant
            i <= inputs@.len(),
            inputs_failure(inputs@, vote, sequence, 0) == inputs_failure(
                inputs@,
                vote,
                sequence,
                i as int,
            ),
        decreases inputs@.len() - i,
    {
        match inputs[i] {
            TransactionInput::Balance { anchor_sequence, initializer, amount: _ } => {
                if initializer == vote {
                    return Some(Tier1Failure::SelfVote);
                }
                if anchor_sequence >= sequence {
                    return Some(Tier1Failure::AnchorNotBeforeBlock);
                }
            },
            TransactionInput::Utxo { tr_hash: _, output_index: _ } => {},
        }
        i = i + 1;
    }
    None
}

/// Checks one transaction of a block at `sequence`.
fn check_transaction(tx: &Transaction, sequence: u32) -> (failure: Option<Tier1Failure>)
    ensures
        failure == transaction_failure(*tx, sequence),
{
    match &tx.body {
        TransactionBody::Unknown => Some(Tier1Failure::MalformedPayload),
        TransactionBody::NodeTransfer(nt) => {
            if sequence == 0 {
                None
            } else if nt.initializer == tx.vote {
                Some(Tier1Failure::SelfVote)
            } else if nt.anchor_sequence >= sequence {
                Some(Tier1Failure::AnchorNotBeforeBlock)
            } else {
                None
            }
        },
        TransactionBody::Registration(reg) => {
            if sequence != 0 && reg.initializer == tx.vote {
                Some(Tier1Failure::SelfVote)
            } else {
                None
            }
        },
        TransactionBody::Complex(cx) => {
            if sequence == 0 {
                None
            } else {
                check_inputs(&cx.inputs, tx.vote, sequence)
            }
        },
    }
}

/// Checks the transactions of a block at `sequence`.
fn check_transactions(txs: &Vec<Transaction>, sequence: u32) -> (failure: Option<Tier1Failure>)
    ensures
        failure == match transactions_failure(txs@, sequence, 0) {
            Some(f) => Some(f),
            None => if mixes_registration_and_complex(txs@) {
                Some(Tier1Failure::RegistrationWithComplex)
            } else {
                None
            },
        },
{
    let mut registration: bool = false;
    let mut complex: bool = false;
    let mut i: usize = 0;
    while i < txs.len()
        invariant
            i <= txs@.len(),
            transactions_failure(txs@, sequence, 0) == transactions_failure(
                txs@,
                sequence,
                i as int,
            ),
            registration == exists|j: int| 0 <= j < i && (#[trigger] txs@[j]).body is Registration,
            complex == exists|j: int| 0 <= j < i && (#[trigger] txs@[j]).body is Complex,
        decreases txs@.len() - i,
    {
        let failure: Option<Tier1Failure> = check_transaction(&txs[i], sequence);
        if failure.is_some() {
            return failure;
        }
        match &txs[i].body {
            TransactionBody::Registration(_) => {
                registration = true;
                assert(txs@[i as int].body is Registration);
            },
            TransactionBody::Complex(_) => {
                complex = true;
                assert(txs@[i as int].body is Complex);
            },
            _ => {},
        }
        i = i + 1;
    }
    if registration && complex {
        Some(Tier1Failure::RegistrationWithComplex)
    } else {
        None
    }
}

/// Checks a chain-configuration block: it frames a content region, signed by
/// node #0. Holds nothing against the node's own state, so that it can be
/// repeated at any time.
pub fn tier1_chain_config_block(block: &ChainBlock) -> (result: Result<(), Tier1Failure>)
    ensures
        match chain_config_failure(*block) {
            Some(failure) => result == Err::<(), Tier1Failure>(failure),
            None => result is Ok,
        },
{
    match &block.payload {
        BlockPayload::ChainConfig(envelope) => {
            if envelope.signature_valid {
                Ok(())
            } else {
                Err(Tier1Failure::ChainConfigSignatureInvalid)
            }
        },
        _ => Err(Tier1Failure::MalformedPayload),
    }
}

/// The first tier of checks.
pub fn tier1_gate(block: &ChainBlock, block_size_limit: u16) -> (result: Result<(), Tier1Failure>)
    ensures
        match tier1_failure(*block, block_size_limit) {
            Some(failure) => result == Err::<(), Tier1Failure>(failure),
            None => result is Ok,
        },
{
    if block.sequence == NONE_REF {
        return Err(Tier1Failure::ReservedSequence);
    }
    if block.bytes.len() > block_size_limit as usize {
        return Err(Tier1Failure::BlockTooLarge);
    }
    if block.payload_type == PAYLOAD_TYPE_TRANSACTION {
        match &block.payload {
            BlockPayload::Transactions(txs) => match check_transactions(txs, block.sequence) {
                Some(failure) => Err(failure),
                None => Ok(()),
            },
            _ => Err(Tier1Failure::MalformedPayload),
        }
    } else if block.payload_type == PAYLOAD_TYPE_BALANCE {
        match &block.payload {
            BlockPayload::Balances(_) => Ok(()),
            _ => Err(Tier1Failure::MalformedPayload),
        }
    } else if block.payload_type == PAYLOAD_TYPE_CHAIN_CONFIG {
        tier1_chain_config_block(block)
    } else if block.payload_type == PAYLOAD_TYPE_APPROVAL {
        Ok(())
    } else {
        Err(Tier1Failure::UnknownPayloadType)
    }
}

} // verus!
