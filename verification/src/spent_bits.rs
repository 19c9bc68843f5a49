//! Where a referenced transaction output stands in its block.
//!
//! A complex transaction refers to an output by the hash of the transaction
//! that created it and the output's index there. The spent bits of a block
//! number the spendable outputs of all its complex transactions in order.

use vstd::prelude::*;

use crate::block_data::{
    BlockPayload, ChainBlock, Transaction, TransactionBody, TransactionOutput, MAX_BLOCK_SIZE,
};
use crate::hash::{hash_eq, BlockHash};

verus! {

/// Number of spendable outputs from `from` on.
pub open spec fn utxo_count(outputs: Seq<TransactionOutput>, from: int) -> nat
    decreases outputs.len() - from,
{
    if from < 0 || from >= outputs.len() {
        0
    } else if outputs[from] is Utxo {
        1 + utxo_count(outputs, from + 1)
    } else {
        utxo_count(outputs, from + 1)
    }
}

/// Number of spendable outputs of one transaction.
pub open spec fn transaction_utxo_count(tx: Transaction) -> nat {
    match tx.body {
        TransactionBody::Complex(cx) => utxo_count(cx.outputs@, 0),
        _ => 0,
    }
}

/// Number of spendable outputs of the transactions from `from` on.
pub open spec fn utxo_total(txs: Seq<Transaction>, from: int) -> nat
    decreases txs.len() - from,
{
    if from < 0 || from >= txs.len() {
        0
    } else {
        transaction_utxo_count(txs[from]) + utxo_total(txs, from + 1)
    }
}

/// The position of the referenced output among the spendable outputs of the
/// transactions from `from` on, `base` outputs coming before them.
pub open spec fn utxo_position(
    txs: Seq<Transaction>,
    tr_hash: BlockHash,
    output_index: u8,
    from: int,
    base: int,
) -> Option<int>
    decreases txs.len() - from,
{
    if from < 0 || from >= txs.len() {
        None
    } else if txs[from].body is Complex && txs[from].hash == tr_hash {
        if output_index < transaction_utxo_count(txs[from]) {
            Some(base + output_index)
        } else {
            None
        }
    } else {
        utxo_position(
            txs,
            tr_hash,
            output_index,
            from + 1,
            base + transaction_utxo_count(txs[from]),
        )
    }
}

/// The spent bit of the referenced output in `block`, if it is there.
pub open spec fn utxo_bit(block: ChainBlock, tr_hash: BlockHash, output_index: u8) -> Option<int> {
    match block.transaction_list() {
        Some(txs) => utxo_position(txs, tr_hash, output_index, 0, 0),
        None => None,
    }
}

/// A block holds no more spendable outputs than it has room for.
pub open spec fn outputs_fit(block: ChainBlock) -> bool {
    match block.transaction_list() {
        Some(txs) => utxo_total(txs, 0) <= MAX_BLOCK_SIZE,
        None => true,
    }
}

/// Number of spendable outputs of one transaction.
fn count_utxo_outputs(outputs: &Vec<TransactionOutput>) -> (count: usize)
    ensures
        count == utxo_count(outputs@, 0),
{
    let total: usize = outputs.len();
    let mut i: usize = total;
    let mut count: usize = 0;
    while i > 0
        invariant
            total == outputs@.len(),
            i <= total,
            count == utxo_count(outputs@, i as int),
            count <= total - i,
        decreases i,
    {
        i = i - 1;
        match outputs[i] {
            TransactionOutput::Utxo { amount: _ } => {
                count = count + 1;
            },
            TransactionOutput::Balance { receiver: _, amount: _ } => {},
        }
    }
    count
}

/// The spent bit of output `output_index` of the transaction `tr_hash` in
/// `block`; nothing when the block holds no such transaction, or the
/// transaction no such spendable output.
pub fn resolve_utxo_bit(block: &ChainBlock, tr_hash: &BlockHash, output_index: u8) -> (bit: Option<
    usize,
>)
    requires
        outputs_fit(*block),
    ensures
        match bit {
            Some(b) => utxo_bit(*block, *tr_hash, output_index) == Some(b as int),
            None => utxo_bit(*block, *tr_hash, output_index) is None,
        },
{
    match &block.payload {
        BlockPayload::Transactions(txs) => {
            let mut base: usize = 0;
            let mut i: usize = 0;
            while i < txs.len()
                invariant
                    block.payload == BlockPayload::Transactions(*txs),
                    i <= txs@.len(),
                    base + utxo_total(txs@, i as int) <= MAX_BLOCK_SIZE,
                    utxo_position(txs@, *tr_hash, output_index, 0, 0) == utxo_position(
                        txs@,
                        *tr_hash,
                        output_index,
                        i as int,
                        base as int,
                    ),
                decreases txs@.len() - i,
            {
                match &txs[i].body {
                    TransactionBody::Complex(cx) => {
                        let outputs: usize = count_utxo_outputs(&cx.outputs);
                        if hash_eq(&txs[i].hash, tr_hash) {
                            let index: usize = output_index as usize;
                            if index < outputs {
                                return Some(base + index);
                            }
                            return None;
                        }
                        base = base + outputs;
                    },
                    _ => {},
                }
                i = i + 1;
            }
            None
        },
        _ => None,
    }
}

/// A resolved reference lies within the spendable outputs of its block.
pub proof fn resolved_bit_is_in_the_block(
    txs: Seq<Transaction>,
    tr_hash: BlockHash,
    output_index: u8,
    from: int,
    base: int,
)
    requires
        0 <= from,
    ensures
        utxo_position(txs, tr_hash, output_index, from, base) matches Some(bit) ==> base <= bit
            < base + utxo_total(txs, from),
    decreases txs.len() - from,
{
    if from < txs.len() && !(txs[from].body is Complex && txs[from].hash == tr_hash) {
        resolved_bit_is_in_the_block(
            txs,
            tr_hash,
            output_index,
            from + 1,
            base + transaction_utxo_count(txs[from]),
        );
    }
}

} // verus!
