//! How the spendable outputs of a block are numbered: through all its complex
//! transactions, in order, so that no two outputs share a spent bit.

use vstd::prelude::*;

use crate::block_data::{
    BlockPayload, ChainBlock, Transaction, TransactionBody, TransactionOutput,
};
use crate::hash::BlockHash;
use crate::spent_bits;

verus! {

/// How many of the first `end` outputs can be spent by a later transaction.
pub open spec fn spendable_among(outputs: Seq<TransactionOutput>, end: nat) -> nat
    decreases end,
{
    if end == 0 {
        0
    } else {
        spendable_among(outputs, (end - 1) as nat) + match outputs[end - 1] {
            TransactionOutput::Utxo { amount } => 1,
            TransactionOutput::Balance { receiver, amount } => 0nat,
        }
    }
}

/// How many outputs of the transaction can be spent by a later one.
pub open spec fn spendable_in(tx: Transaction) -> nat {
    match tx.body {
        TransactionBody::Complex(cx) => spendable_among(cx.outputs@, cx.outputs@.len()),
        _ => 0,
    }
}

/// How many outputs of the first `end` transactions can be spent by a later one.
pub open spec fn spendable_before(txs: Seq<Transaction>, end: nat) -> nat
    decreases end,
{
    if end == 0 {
        0
    } else {
        spendable_before(txs, (end - 1) as nat) + spendable_in(txs[end - 1])
    }
}

/// Whether the transaction at `j` is the first complex one with its hash.
pub open spec fn first_of_its_hash(txs: Seq<Transaction>, j: int) -> bool {
    &&& 0 <= j < txs.len()
    &&& txs[j].body is Complex
    &&& forall|i: int|
        0 <= i < j ==> !((#[trigger] txs[i]).body is Complex && txs[i].hash == txs[j].hash)
}

proof fn lemma_count(outputs: Seq<TransactionOutput>, from: int)
    requires
        0 <= from <= outputs.len(),
    ensures
        spent_bits::utxo_count(outputs, from) + spendable_among(outputs, from as nat)
            == spendable_among(outputs, outputs.len()),
    decreases outputs.len() - from,
{
    if from < outputs.len() {
        lemma_count(outputs, from + 1);
    }
}

proof fn lemma_transaction_count(tx: Transaction)
    ensures
        spent_bits::transaction_utxo_count(tx) == spendable_in(tx),
{
    if let TransactionBody::Complex(cx) = tx.body {
        lemma_count(cx.outputs@, 0);
    }
}

proof fn lemma_position(
    txs: Seq<Transaction>,
    tr_hash: BlockHash,
    output_index: u8,
    from: int,
    j: int,
)
    requires
        first_of_its_hash(txs, j),
        txs[j].hash == tr_hash,
        0 <= from <= j,
    ensures
        spent_bits::utxo_position(
            txs,
            tr_hash,
            output_index,
            from,
            spendable_before(txs, from as nat) as int,
        ) == if output_index < spendable_in(txs[j]) {
            Some(spendable_before(txs, j as nat) + output_index as int)
        } else {
            None
        },
    decreases j - from,
{
    lemma_transaction_count(txs[from]);
    if from < j {
        assert(!(txs[from].body is Complex && txs[from].hash == txs[j].hash));
        lemma_position(txs, tr_hash, output_index, from + 1, j);
    }
}

proof fn lemma_nowhere(
    txs: Seq<Transaction>,
    tr_hash: BlockHash,
    output_index: u8,
    from: int,
    base: int,
)
    requires
        0 <= from,
        forall|i: int|
            0 <= i < txs.len() ==> !((#[trigger] txs[i]).body is Complex && txs[i].hash == tr_hash),
    ensures
        spent_bits::utxo_position(txs, tr_hash, output_index, from, base) is None,
    decreases txs.len() - from,
{
    if from < txs.len() {
        assert(!(txs[from].body is Complex && txs[from].hash == tr_hash));
        lemma_nowhere(
            txs,
            tr_hash,
            output_index,
            from + 1,
            base + spent_bits::transaction_utxo_count(txs[from]),
        );
    }
}

/// The bit of output `output_index` of a transaction is the number of spendable
/// outputs of the complex transactions before it in the block, plus
/// `output_index`. An index beyond its spendable outputs names nothing.
pub proof fn outputs_are_numbered_through_the_block(
    block: ChainBlock,
    txs: Vec<Transaction>,
    j: int,
    output_index: u8,
)
    requires
        block.payload == BlockPayload::Transactions(txs),
        first_of_its_hash(txs@, j),
    ensures
        spent_bits::utxo_bit(block, txs@[j].hash, output_index) == if output_index < spendable_in(
            txs@[j],
        ) {
            Some(spendable_before(txs@, j as nat) + output_index as int)
        } else {
            None
        },
{
    lemma_position(txs@, txs@[j].hash, output_index, 0, j);
}

/// A block in which no complex transaction has the hash holds none of its
/// outputs.
pub proof fn outputs_of_absent_transactions_are_not_found(
    block: ChainBlock,
    tr_hash: BlockHash,
    output_index: u8,
)
    requires
        block.payload matches BlockPayload::Transactions(txs) ==> forall|i: int|
            0 <= i < txs@.len() ==> !((#[trigger] txs@[i]).body is Complex && txs@[i].hash
                == tr_hash),
    ensures
        spent_bits::utxo_bit(block, tr_hash, output_index) is None,
{
    if let BlockPayload::Transactions(txs) = block.payload {
        lemma_nowhere(txs@, tr_hash, output_index, 0, 0);
    }
}

/// The first complex transaction with the hash, if there is one.
pub proof fn first_with_hash(txs: Seq<Transaction>, tr_hash: BlockHash, some: int) -> (first: int)
    requires
        0 <= some < txs.len(),
        txs[some].body is Complex,
        txs[some].hash == tr_hash,
    ensures
        0 <= first <= some,
        first_of_its_hash(txs, first),
        txs[first].hash == tr_hash,
    decreases some,
{
    if exists|i: int|
        0 <= i < some && (#[trigger] txs[i]).body is Complex && txs[i].hash == tr_hash {
        let lower = choose|i: int|
            0 <= i < some && (#[trigger] txs[i]).body is Complex && txs[i].hash == tr_hash;
        first_with_hash(txs, tr_hash, lower)
    } else {
        some
    }
}

proof fn lemma_before_grows(txs: Seq<Transaction>, a: nat, b: nat)
    requires
        a <= b,
    ensures
        spendable_before(txs, a) <= spendable_before(txs, b),
    decreases b,
{
    if a < b {
        lemma_before_grows(txs, a, (b - 1) as nat);
    }
}

/// A bit that is found is one of a transaction with the hash.
pub proof fn found_bit_is_of_the_transaction(
    block: ChainBlock,
    tr_hash: BlockHash,
    output_index: u8,
) -> (j: int)
    requires
        spent_bits::utxo_bit(block, tr_hash, output_index) is Some,
    ensures
        block.payload is Transactions,
        first_of_its_hash(block.payload->Transactions_0@, j),
        block.payload->Transactions_0@[j].hash == tr_hash,
        output_index < spendable_in(block.payload->Transactions_0@[j]),
        spent_bits::utxo_bit(block, tr_hash, output_index) == Some(
            spendable_before(block.payload->Transactions_0@, j as nat) + output_index as int,
        ),
{
    let txs = block.payload->Transactions_0;
    if forall|i: int|
        0 <= i < txs@.len() ==> !((#[trigger] txs@[i]).body is Complex && txs@[i].hash == tr_hash) {
        outputs_of_absent_transactions_are_not_found(block, tr_hash, output_index);
    }
    let some = choose|i: int|
        0 <= i < txs@.len() && (#[trigger] txs@[i]).body is Complex && txs@[i].hash == tr_hash;
    let j = first_with_hash(txs@, tr_hash, some);
    outputs_are_numbered_through_the_block(block, txs, j, output_index);
    j
}

/// Distinct outputs of one block have distinct bits: two transactions never share
/// one, and neither do two outputs of one transaction.
pub proof fn distinct_outputs_have_distinct_bits(
    block: ChainBlock,
    a_hash: BlockHash,
    a_index: u8,
    b_hash: BlockHash,
    b_index: u8,
)
    requires
        a_hash != b_hash || a_index != b_index,
        spent_bits::utxo_bit(block, a_hash, a_index) is Some,
        spent_bits::utxo_bit(block, b_hash, b_index) is Some,
    ensures
        spent_bits::utxo_bit(block, a_hash, a_index) != spent_bits::utxo_bit(
            block,
            b_hash,
            b_index,
        ),
{
    let txs = block.payload->Transactions_0@;
    let i = found_bit_is_of_the_transaction(block, a_hash, a_index);
    let j = found_bit_is_of_the_transaction(block, b_hash, b_index);
    if i < j {
        lemma_before_grows(txs, (i + 1) as nat, j as nat);
    } else if j < i {
        lemma_before_grows(txs, (j + 1) as nat, i as nat);
    } else {
        assert(a_hash == b_hash);
    }
}

} // verus!
