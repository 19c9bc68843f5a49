//! What the inputs of complex transactions do to the outputs they name.

use vstd::prelude::*;

use crate::block_data::{Transaction, TransactionBody, TransactionInput};
use crate::blocks::{BlockEntry, NONE_REF};
use crate::derivation as walk;
use crate::derivation::{BlockContext, ComplexStep, PassView, Step, ValidationReason};
use crate::hash::BlockHash;
use crate::ledger_laws as ledger;
use crate::numbering_laws;
use crate::processing;
use crate::spent_bits;

verus! {

/// Whether the block of the candidate at `k` lies below `sequence` and holds the
/// output.
pub open spec fn holder(
    blocks: Seq<BlockEntry>,
    ctx: PassView,
    sequence: u32,
    tr_hash: BlockHash,
    output_index: u8,
    k: int,
) -> bool {
    &&& 0 <= k < ctx.marked.len()
    &&& ctx.marked[k] < blocks.len()
    &&& blocks[ctx.marked[k] as int].sequence != NONE_REF
    &&& blocks[ctx.marked[k] as int].sequence < sequence
    &&& ctx.reads[k] is Some
    &&& spent_bits::utxo_bit(ctx.reads[k]->0, tr_hash, output_index) is Some
}

/// Whether the block at `k` is the uppermost one below `sequence` that holds the
/// output.
pub open spec fn uppermost_holder(
    blocks: Seq<BlockEntry>,
    ctx: PassView,
    sequence: u32,
    tr_hash: BlockHash,
    output_index: u8,
    k: int,
) -> bool {
    &&& holder(blocks, ctx, sequence, tr_hash, output_index, k)
    &&& forall|j: int|
        0 <= j < k ==> !#[trigger] holder(blocks, ctx, sequence, tr_hash, output_index, j)
}

/// Whether the spent bit that belongs to the output is set in the block at `k`.
pub open spec fn marked_spent(
    blocks: Seq<BlockEntry>,
    ctx: PassView,
    tr_hash: BlockHash,
    output_index: u8,
    k: int,
) -> bool {
    let bit = spent_bits::utxo_bit(ctx.reads[k]->0, tr_hash, output_index)->0;
    bit / 8 >= 32 || blocks[ctx.marked[k] as int].spent_bits@[bit / 8] & (1u8 << ((bit % 8) as u8))
        != 0
}

proof fn lemma_uppermost(
    blocks: Seq<BlockEntry>,
    ctx: PassView,
    sequence: u32,
    tr_hash: BlockHash,
    output_index: u8,
    k: int,
)
    ensures
        holder(blocks, ctx, sequence, tr_hash, output_index, k) == ledger::holds_output(
            blocks,
            ctx,
            k,
            0,
            sequence,
            tr_hash,
            output_index,
        ),
        uppermost_holder(blocks, ctx, sequence, tr_hash, output_index, k) == ledger::first_holder(
            blocks,
            ctx,
            sequence,
            tr_hash,
            output_index,
            0,
            k,
        ),
{
    assert forall|j: int|
        #![trigger holder(blocks, ctx, sequence, tr_hash, output_index, j)]
        #![trigger ledger::holds_output(blocks, ctx, j, 0, sequence, tr_hash, output_index)]
        holder(blocks, ctx, sequence, tr_hash, output_index, j) == ledger::holds_output(
            blocks,
            ctx,
            j,
            0,
            sequence,
            tr_hash,
            output_index,
        ) by {}
}

/// Spending an output succeeds exactly if the uppermost block below the spender
/// that holds it has it unspent. It is spent already exactly if that block has it
/// spent, and cannot be resolved exactly if no block below the spender holds it.
pub proof fn spending_follows_the_spent_bit(
    blocks: Seq<BlockEntry>,
    ctx: PassView,
    sequence: u32,
    tr_hash: BlockHash,
    output_index: u8,
    k: int,
)
    ensures
        ({
            let refused = walk::output_spent(blocks, ctx, sequence, tr_hash, output_index, 0).1;
            &&& uppermost_holder(blocks, ctx, sequence, tr_hash, output_index, k) ==> refused
                == if marked_spent(blocks, ctx, tr_hash, output_index, k) {
                Some(ValidationReason::UtxoAlreadySpent)
            } else {
                None
            }
            &&& (forall|j: int|
                !#[trigger] holder(blocks, ctx, sequence, tr_hash, output_index, j)) == (refused
                == Some(ValidationReason::UtxoUnresolvable))
        }),
{
    ledger::spending_sets_one_bit(blocks, ctx, sequence, tr_hash, output_index, 0);
    assert forall|j: int|
        #![trigger holder(blocks, ctx, sequence, tr_hash, output_index, j)]
        #![trigger ledger::holds_output(blocks, ctx, j, 0, sequence, tr_hash, output_index)]
        holder(blocks, ctx, sequence, tr_hash, output_index, j) == ledger::holds_output(
            blocks,
            ctx,
            j,
            0,
            sequence,
            tr_hash,
            output_index,
        ) by {}
    let refused = walk::output_spent(blocks, ctx, sequence, tr_hash, output_index, 0).1;
    if refused != Some(ValidationReason::UtxoUnresolvable) {
        let first = choose|i: int| #[trigger]
            ledger::first_holder(blocks, ctx, sequence, tr_hash, output_index, 0, i);
        assert(holder(blocks, ctx, sequence, tr_hash, output_index, first));
        if uppermost_holder(blocks, ctx, sequence, tr_hash, output_index, k) {
            if first < k {
                assert(!holder(blocks, ctx, sequence, tr_hash, output_index, first));
            }
            if k < first {
                assert(!ledger::holds_output(
                    blocks,
                    ctx,
                    k,
                    0,
                    sequence,
                    tr_hash,
                    output_index,
                ));
            }
        }
    }
}

proof fn lemma_untouched(
    before: Seq<BlockEntry>,
    after: Seq<BlockEntry>,
    ctx: PassView,
    at: int,
    a_hash: BlockHash,
    a_index: u8,
    sequence: u32,
    b_hash: BlockHash,
    b_index: u8,
    from: int,
)
    requires
        ctx.marked.no_duplicates(),
        0 <= at < ctx.marked.len(),
        ctx.reads[at] is Some,
        spent_bits::utxo_bit(ctx.reads[at]->0, a_hash, a_index) is Some,
        ledger::one_bit_set(
            before,
            after,
            ctx.marked[at],
            spent_bits::utxo_bit(ctx.reads[at]->0, a_hash, a_index)->0,
        ),
        a_hash != b_hash || a_index != b_index,
        0 <= from,
    ensures
        walk::output_spent(after, ctx, sequence, b_hash, b_index, from).1 == walk::output_spent(
            before,
            ctx,
            sequence,
            b_hash,
            b_index,
            from,
        ).1,
    decreases ctx.marked.len() - from,
{
    if from < ctx.marked.len() {
        let idx = ctx.marked[from] as int;
        lemma_untouched(
            before,
            after,
            ctx,
            at,
            a_hash,
            a_index,
            sequence,
            b_hash,
            b_index,
            from + 1,
        );
        if idx < before.len() {
            if from == at {
                let x = after[idx].unspent();
                let y = before[idx].unspent();
                assert(x == y);
                assert(x.sequence == after[idx].sequence && y.sequence == before[idx].sequence);
                if spent_bits::utxo_bit(ctx.reads[from]->0, b_hash, b_index) is Some {
                    numbering_laws::distinct_outputs_have_distinct_bits(
                        ctx.reads[at]->0,
                        a_hash,
                        a_index,
                        b_hash,
                        b_index,
                    );
                    let j = numbering_laws::found_bit_is_of_the_transaction(
                        ctx.reads[at]->0,
                        b_hash,
                        b_index,
                    );
                    let bit = spent_bits::utxo_bit(ctx.reads[from]->0, b_hash, b_index)->0;
                    assert(after[idx].spent(bit) == before[idx].spent(bit));
                }
            } else {
                assert(ctx.marked[from] != ctx.marked[at]);
                assert(after[idx] == before[idx]);
            }
        }
    }
}

/// Spending one output takes no other one: every other reference comes to what it
/// came to before.
pub proof fn spending_one_output_leaves_the_others(
    blocks: Seq<BlockEntry>,
    ctx: PassView,
    sequence: u32,
    a_hash: BlockHash,
    a_index: u8,
    later: u32,
    b_hash: BlockHash,
    b_index: u8,
)
    requires
        ctx.marked.no_duplicates(),
        a_hash != b_hash || a_index != b_index,
        walk::output_spent(blocks, ctx, sequence, a_hash, a_index, 0).1 is None,
    ensures
        ({
            let after = walk::output_spent(blocks, ctx, sequence, a_hash, a_index, 0).0;
            walk::output_spent(after, ctx, later, b_hash, b_index, 0).1 == walk::output_spent(
                blocks,
                ctx,
                later,
                b_hash,
                b_index,
                0,
            ).1
        }),
{
    let after = walk::output_spent(blocks, ctx, sequence, a_hash, a_index, 0).0;
    ledger::spending_sets_one_bit(blocks, ctx, sequence, a_hash, a_index, 0);
    let at = choose|i: int| #[trigger]
        ledger::first_holder(blocks, ctx, sequence, a_hash, a_index, 0, i) && ledger::one_bit_set(
            blocks,
            after,
            ctx.marked[i],
            spent_bits::utxo_bit(ctx.reads[i]->0, a_hash, a_index)->0,
        );
    lemma_untouched(blocks, after, ctx, at, a_hash, a_index, later, b_hash, b_index, 0);
}

// -- All inputs of a transaction ---------------------------------------------

/// Whether the inputs name outputs alone, each another one.
pub open spec fn distinct_outputs(inputs: Seq<TransactionInput>) -> bool {
    &&& forall|i: int| 0 <= i < inputs.len() ==> (#[trigger] inputs[i]) is Utxo
    &&& forall|i: int, j: int|
        0 <= i < j < inputs.len() ==> (#[trigger] inputs[i])->tr_hash != (
        #[trigger] inputs[j])->tr_hash || inputs[i]->output_index != inputs[j]->output_index
}

/// Whether the output that the input names can be spent below `sequence`.
pub open spec fn can_be_spent(
    blocks: Seq<BlockEntry>,
    ctx: PassView,
    sequence: u32,
    input: TransactionInput,
) -> bool {
    exists|k: int| #[trigger]
        uppermost_holder(blocks, ctx, sequence, input->tr_hash, input->output_index, k)
            && !marked_spent(blocks, ctx, input->tr_hash, input->output_index, k)
}

proof fn lemma_all_spent(
    c: ComplexStep,
    ctx: PassView,
    at: BlockContext,
    vote: u32,
    inputs: Seq<TransactionInput>,
    from: int,
)
    requires
        ctx.marked.no_duplicates(),
        distinct_outputs(inputs),
        c.broken is None,
        0 <= from,
        forall|i: int|
            from <= i < inputs.len() ==> walk::output_spent(
                c.d.blocks,
                ctx,
                at.sequence,
                (#[trigger] inputs[i])->tr_hash,
                inputs[i]->output_index,
                0,
            ).1 is None,
    ensures
        walk::inputs_applied(c, ctx, at, vote, inputs, from).broken is None,
    decreases inputs.len() - from,
{
    if from < inputs.len() {
        let next = walk::input_applied(c, ctx, at, vote, inputs[from]);
        assert(inputs[from] is Utxo);
        assert(next.broken is None);
        assert forall|i: int| from + 1 <= i < inputs.len() implies walk::output_spent(
            next.d.blocks,
            ctx,
            at.sequence,
            (#[trigger] inputs[i])->tr_hash,
            inputs[i]->output_index,
            0,
        ).1 is None by {
            spending_one_output_leaves_the_others(
                c.d.blocks,
                ctx,
                at.sequence,
                inputs[from]->tr_hash,
                inputs[from]->output_index,
                at.sequence,
                inputs[i]->tr_hash,
                inputs[i]->output_index,
            );
        }
        lemma_all_spent(next, ctx, at, vote, inputs, from + 1);
    }
}

/// A transaction that names distinct outputs, each of which can be spent, spends
/// all of them: none of its inputs stands in the way of another.
pub proof fn distinct_unspent_outputs_are_all_spent(
    c: ComplexStep,
    ctx: PassView,
    at: BlockContext,
    vote: u32,
    inputs: Seq<TransactionInput>,
)
    requires
        ctx.marked.no_duplicates(),
        distinct_outputs(inputs),
        c.broken is None,
        forall|i: int|
            0 <= i < inputs.len() ==> can_be_spent(
                c.d.blocks,
                ctx,
                at.sequence,
                #[trigger] inputs[i],
            ),
    ensures
        walk::inputs_applied(c, ctx, at, vote, inputs, 0).broken is None,
{
    assert forall|i: int| 0 <= i < inputs.len() implies walk::output_spent(
        c.d.blocks,
        ctx,
        at.sequence,
        (#[trigger] inputs[i])->tr_hash,
        inputs[i]->output_index,
        0,
    ).1 is None by {
        assert(can_be_spent(c.d.blocks, ctx, at.sequence, inputs[i]));
        let k = choose|k: int| #[trigger]
            uppermost_holder(
                c.d.blocks,
                ctx,
                at.sequence,
                inputs[i]->tr_hash,
                inputs[i]->output_index,
                k,
            ) && !marked_spent(
                c.d.blocks,
                ctx,
                inputs[i]->tr_hash,
                inputs[i]->output_index,
                k,
            );
        spending_follows_the_spent_bit(
            c.d.blocks,
            ctx,
            at.sequence,
            inputs[i]->tr_hash,
            inputs[i]->output_index,
            k,
        );
    }
    lemma_all_spent(c, ctx, at, vote, inputs, 0);
}

// -- All inputs of a block ---------------------------------------------------

/// Whether a reference comes to an output that is spent.
spec fn gone(
    blocks: Seq<BlockEntry>,
    ctx: PassView,
    sequence: u32,
    tr_hash: BlockHash,
    output_index: u8,
) -> bool {
    walk::output_spent(blocks, ctx, sequence, tr_hash, output_index, 0).1 == Some(
        ValidationReason::UtxoAlreadySpent,
    )
}

/// Whether `after` differs from `before` in outputs that were spent in between.
spec fn spent_since(before: Seq<BlockEntry>, after: Seq<BlockEntry>) -> bool {
    &&& ledger::spends_more(before, after)
    &&& processing::spending_only(before, after)
}

proof fn lemma_since(a: Seq<BlockEntry>, b: Seq<BlockEntry>, c: Seq<BlockEntry>)
    requires
        spent_since(a, b),
        spent_since(b, c),
    ensures
        spent_since(a, c),
{
    assert forall|i: int| 0 <= i < a.len() implies (#[trigger] c[i]).unspent() == a[i].unspent() by {
        assert(b[i].unspent() == a[i].unspent());
    }
    assert forall|i: int, bit: int|
        0 <= i < a.len() && 0 <= bit && a[i].spent(bit) implies #[trigger] c[i].spent(bit) by {
        assert(b[i].spent(bit));
    }
}

proof fn lemma_still_gone(
    before: Seq<BlockEntry>,
    after: Seq<BlockEntry>,
    ctx: PassView,
    sequence: u32,
    tr_hash: BlockHash,
    output_index: u8,
    from: int,
)
    requires
        spent_since(before, after),
        0 <= from,
        walk::output_spent(before, ctx, sequence, tr_hash, output_index, from).1 == Some(
            ValidationReason::UtxoAlreadySpent,
        ),
    ensures
        walk::output_spent(after, ctx, sequence, tr_hash, output_index, from).1 == Some(
            ValidationReason::UtxoAlreadySpent,
        ),
    decreases ctx.marked.len() - from,
{
    if from < ctx.marked.len() {
        let idx = ctx.marked[from] as int;
        if idx < before.len() {
            let x = after[idx].unspent();
            let y = before[idx].unspent();
            assert(x == y);
            assert(x.sequence == after[idx].sequence && y.sequence == before[idx].sequence);
        }
        if ctx.reads[from] is Some && spent_bits::utxo_bit(
            ctx.reads[from]->0,
            tr_hash,
            output_index,
        ) is Some {
            let j = numbering_laws::found_bit_is_of_the_transaction(
                ctx.reads[from]->0,
                tr_hash,
                output_index,
            );
        }
        if !holder(before, ctx, sequence, tr_hash, output_index, from) {
            lemma_still_gone(before, after, ctx, sequence, tr_hash, output_index, from + 1);
        }
    }
}

proof fn lemma_one_input(c: ComplexStep, ctx: PassView, at: BlockContext, vote: u32, input: TransactionInput)
    requires
        c.d.blocks.len() <= NONE_REF,
        walk::input_applied(c, ctx, at, vote, input).broken is None,
    ensures
        ({
            let after = walk::input_applied(c, ctx, at, vote, input).d.blocks;
            &&& spent_since(c.d.blocks, after)
            &&& after.len() == c.d.blocks.len()
            &&& input matches TransactionInput::Utxo { tr_hash, output_index } ==> gone(
                after,
                ctx,
                at.sequence,
                tr_hash,
                output_index,
            ) && !gone(c.d.blocks, ctx, at.sequence, tr_hash, output_index)
        }),
{
    let blocks = c.d.blocks;
    if let TransactionInput::Utxo { tr_hash, output_index } = input {
        let after = walk::output_spent(blocks, ctx, at.sequence, tr_hash, output_index, 0).0;
        ledger::second_spend_is_refused(blocks, ctx, at.sequence, tr_hash, output_index);
        processing::lemma_output_spending(
            blocks,
            blocks,
            ctx,
            at.sequence,
            tr_hash,
            output_index,
            0,
        );
        ledger::spending_sets_one_bit(blocks, ctx, at.sequence, tr_hash, output_index, 0);
        let k = choose|k: int| #[trigger]
            ledger::first_holder(blocks, ctx, at.sequence, tr_hash, output_index, 0, k)
                && ledger::one_bit_set(
                blocks,
                after,
                ctx.marked[k],
                spent_bits::utxo_bit(ctx.reads[k]->0, tr_hash, output_index)->0,
            );
        assert forall|i: int, bit: int|
            0 <= i < blocks.len() && 0 <= bit && blocks[i].spent(bit) implies #[trigger] after[i].spent(
            bit,
        ) by {
            if i == ctx.marked[k] {
                if bit != spent_bits::utxo_bit(ctx.reads[k]->0, tr_hash, output_index)->0 {
                    assert(blocks[i].spent(bit) == after[i].spent(bit));
                }
            } else {
                assert(after[i] == blocks[i]);
            }
        }
    }
}

proof fn lemma_inputs_gone(
    c: ComplexStep,
    ctx: PassView,
    at: BlockContext,
    vote: u32,
    inputs: Seq<TransactionInput>,
    from: int,
)
    requires
        c.d.blocks.len() <= NONE_REF,
        0 <= from,
        c.broken is None,
        walk::inputs_applied(c, ctx, at, vote, inputs, from).broken is None,
    ensures
        ({
            let after = walk::inputs_applied(c, ctx, at, vote, inputs, from).d.blocks;
            &&& spent_since(c.d.blocks, after)
            &&& forall|p: int|
                from <= p < inputs.len() && (#[trigger] inputs[p]) is Utxo ==> gone(
                    after,
                    ctx,
                    at.sequence,
                    inputs[p]->tr_hash,
                    inputs[p]->output_index,
                ) && !gone(
                    c.d.blocks,
                    ctx,
                    at.sequence,
                    inputs[p]->tr_hash,
                    inputs[p]->output_index,
                )
            &&& forall|p: int, q: int|
                from <= p < q < inputs.len() && (#[trigger] inputs[p]) is Utxo && (
                #[trigger] inputs[q]) is Utxo ==> inputs[p]->tr_hash != inputs[q]->tr_hash
                    || inputs[p]->output_index != inputs[q]->output_index
        }),
    decreases inputs.len() - from,
{
    if from < inputs.len() {
        let next = walk::input_applied(c, ctx, at, vote, inputs[from]);
        let after = walk::inputs_applied(c, ctx, at, vote, inputs, from).d.blocks;
        if next.broken is Some {
            assert(walk::inputs_applied(next, ctx, at, vote, inputs, from + 1) == next);
        }
        lemma_one_input(c, ctx, at, vote, inputs[from]);
        lemma_inputs_gone(next, ctx, at, vote, inputs, from + 1);
        lemma_since(c.d.blocks, next.d.blocks, after);
        if inputs[from] is Utxo {
            lemma_still_gone(
                next.d.blocks,
                after,
                ctx,
                at.sequence,
                inputs[from]->tr_hash,
                inputs[from]->output_index,
                0,
            );
        }
        assert forall|p: int| from <= p < inputs.len() && (#[trigger] inputs[p]) is Utxo implies gone(
            after,
            ctx,
            at.sequence,
            inputs[p]->tr_hash,
            inputs[p]->output_index,
        ) && !gone(
            c.d.blocks,
            ctx,
            at.sequence,
            inputs[p]->tr_hash,
            inputs[p]->output_index,
        ) by {
            if p > from && gone(
                c.d.blocks,
                ctx,
                at.sequence,
                inputs[p]->tr_hash,
                inputs[p]->output_index,
            ) {
                lemma_still_gone(
                    c.d.blocks,
                    next.d.blocks,
                    ctx,
                    at.sequence,
                    inputs[p]->tr_hash,
                    inputs[p]->output_index,
                    0,
                );
            }
        }
    }
}

/// The inputs of the transaction, if it has any.
pub open spec fn inputs_of(tx: Transaction) -> Seq<TransactionInput> {
    match tx.body {
        TransactionBody::Complex(cx) => cx.inputs@,
        _ => Seq::empty(),
    }
}

proof fn lemma_transaction_gone(s: Step, ctx: PassView, at: BlockContext, tx: Transaction)
    requires
        s.d.blocks.len() <= NONE_REF,
        walk::transaction_applied(s, ctx, at, tx).broken is None,
    ensures
        ({
            let after = walk::transaction_applied(s, ctx, at, tx).d.blocks;
            let inputs = inputs_of(tx);
            &&& spent_since(s.d.blocks, after)
            &&& forall|p: int|
                0 <= p < inputs.len() && (#[trigger] inputs[p]) is Utxo ==> gone(
                    after,
                    ctx,
                    at.sequence,
                    inputs[p]->tr_hash,
                    inputs[p]->output_index,
                ) && !gone(
                    s.d.blocks,
                    ctx,
                    at.sequence,
                    inputs[p]->tr_hash,
                    inputs[p]->output_index,
                )
            &&& forall|p: int, q: int|
                0 <= p < q < inputs.len() && (#[trigger] inputs[p]) is Utxo && (
                #[trigger] inputs[q]) is Utxo ==> inputs[p]->tr_hash != inputs[q]->tr_hash
                    || inputs[p]->output_index != inputs[q]->output_index
        }),
{
    if let TransactionBody::Complex(cx) = tx.body {
        let start = walk::complex_start(s.d);
        let spent = walk::inputs_applied(start, ctx, at, tx.vote, cx.inputs@, 0);
        processing::lemma_outputs_spending(spent, ctx, at, cx.outputs@, 0);
        assert(spent.broken is None);
        lemma_inputs_gone(start, ctx, at, tx.vote, cx.inputs@, 0);
    }
}

proof fn lemma_transactions_gone(
    s: Step,
    ctx: PassView,
    at: BlockContext,
    txs: Seq<Transaction>,
    from: int,
)
    requires
        s.d.blocks.len() <= NONE_REF,
        0 <= from,
        s.broken is None,
        walk::transactions_applied(s, ctx, at, txs, from).broken is None,
    ensures
        ({
            let after = walk::transactions_applied(s, ctx, at, txs, from).d.blocks;
            &&& spent_since(s.d.blocks, after)
            &&& forall|i: int, p: int|
                from <= i < txs.len() && 0 <= p < inputs_of(txs[i]).len() && (
                #[trigger] inputs_of(txs[i])[p]) is Utxo ==> gone(
                    after,
                    ctx,
                    at.sequence,
                    inputs_of(txs[i])[p]->tr_hash,
                    inputs_of(txs[i])[p]->output_index,
                ) && !gone(
                    s.d.blocks,
                    ctx,
                    at.sequence,
                    inputs_of(txs[i])[p]->tr_hash,
                    inputs_of(txs[i])[p]->output_index,
                )
            &&& forall|i: int, p: int, j: int, q: int|
                from <= i <= j < txs.len() && 0 <= p < inputs_of(txs[i]).len() && 0 <= q
                    < inputs_of(txs[j]).len() && (i < j || p < q) && (
                #[trigger] inputs_of(txs[i])[p]) is Utxo && (#[trigger] inputs_of(txs[j])[q])
                    is Utxo ==> inputs_of(txs[i])[p]->tr_hash != inputs_of(txs[j])[q]->tr_hash
                    || inputs_of(txs[i])[p]->output_index != inputs_of(txs[j])[q]->output_index
        }),
    decreases txs.len() - from,
{
    if from < txs.len() {
        let next = walk::transaction_applied(s, ctx, at, txs[from]);
        let after = walk::transactions_applied(s, ctx, at, txs, from).d.blocks;
        if next.broken is Some {
            assert(walk::transactions_applied(next, ctx, at, txs, from + 1) == next);
        }
        lemma_transaction_gone(s, ctx, at, txs[from]);
        lemma_transactions_gone(next, ctx, at, txs, from + 1);
        lemma_since(s.d.blocks, next.d.blocks, after);
        assert forall|i: int, p: int|
            from <= i < txs.len() && 0 <= p < inputs_of(txs[i]).len() && (
            #[trigger] inputs_of(txs[i])[p]) is Utxo implies gone(
            after,
            ctx,
            at.sequence,
            inputs_of(txs[i])[p]->tr_hash,
            inputs_of(txs[i])[p]->output_index,
        ) && !gone(
            s.d.blocks,
            ctx,
            at.sequence,
            inputs_of(txs[i])[p]->tr_hash,
            inputs_of(txs[i])[p]->output_index,
        ) by {
            let input = inputs_of(txs[i])[p];
            if i == from {
                lemma_still_gone(
                    next.d.blocks,
                    after,
                    ctx,
                    at.sequence,
                    input->tr_hash,
                    input->output_index,
                    0,
                );
            } else if gone(s.d.blocks, ctx, at.sequence, input->tr_hash, input->output_index) {
                lemma_still_gone(
                    s.d.blocks,
                    next.d.blocks,
                    ctx,
                    at.sequence,
                    input->tr_hash,
                    input->output_index,
                    0,
                );
            }
        }
    }
}

/// In a block whose transactions pass, every output that any input of any
/// transaction names is found in a block below, was unspent there before and is
/// spent afterwards; and no two inputs name the same output.
pub proof fn passing_transactions_spend_each_named_output_once(
    s: Step,
    ctx: PassView,
    at: BlockContext,
    txs: Seq<Transaction>,
    i: int,
    p: int,
    j: int,
    q: int,
)
    requires
        s.d.blocks.len() <= NONE_REF,
        s.broken is None,
        walk::transactions_applied(s, ctx, at, txs, 0).broken is None,
        0 <= i < txs.len(),
        0 <= p < inputs_of(txs[i]).len(),
        inputs_of(txs[i])[p] is Utxo,
    ensures
        ({
            let after = walk::transactions_applied(s, ctx, at, txs, 0).d.blocks;
            let tr_hash = inputs_of(txs[i])[p]->tr_hash;
            let output_index = inputs_of(txs[i])[p]->output_index;
            exists|k: int| #[trigger]
                uppermost_holder(s.d.blocks, ctx, at.sequence, tr_hash, output_index, k)
                    && !marked_spent(s.d.blocks, ctx, tr_hash, output_index, k) && marked_spent(
                    after,
                    ctx,
                    tr_hash,
                    output_index,
                    k,
                )
        }),
        0 <= j < txs.len() && 0 <= q < inputs_of(txs[j]).len() && (i != j || p != q) && inputs_of(
            txs[j],
        )[q] is Utxo ==> inputs_of(txs[i])[p]->tr_hash != inputs_of(txs[j])[q]->tr_hash
            || inputs_of(txs[i])[p]->output_index != inputs_of(txs[j])[q]->output_index,
{
    let after = walk::transactions_applied(s, ctx, at, txs, 0).d.blocks;
    let before = s.d.blocks;
    let tr_hash = inputs_of(txs[i])[p]->tr_hash;
    let output_index = inputs_of(txs[i])[p]->output_index;
    lemma_transactions_gone(s, ctx, at, txs, 0);
    assert(gone(after, ctx, at.sequence, tr_hash, output_index));
    ledger::spending_sets_one_bit(after, ctx, at.sequence, tr_hash, output_index, 0);
    let k = choose|k: int| #[trigger]
        ledger::first_holder(after, ctx, at.sequence, tr_hash, output_index, 0, k)
            && after[ctx.marked[k] as int].spent(
            spent_bits::utxo_bit(ctx.reads[k]->0, tr_hash, output_index)->0,
        );
    lemma_uppermost(after, ctx, at.sequence, tr_hash, output_index, k);
    assert forall|l: int|
        #![trigger holder(before, ctx, at.sequence, tr_hash, output_index, l)]
        #![trigger holder(after, ctx, at.sequence, tr_hash, output_index, l)]
        holder(before, ctx, at.sequence, tr_hash, output_index, l) == holder(
            after,
            ctx,
            at.sequence,
            tr_hash,
            output_index,
            l,
        ) by {
        if 0 <= l < ctx.marked.len() && ctx.marked[l] < before.len() {
            let x = after[ctx.marked[l] as int].unspent();
            let y = before[ctx.marked[l] as int].unspent();
            assert(x == y);
            assert(x.sequence == after[ctx.marked[l] as int].sequence);
            assert(y.sequence == before[ctx.marked[l] as int].sequence);
        }
    }
    assert(uppermost_holder(before, ctx, at.sequence, tr_hash, output_index, k));
    spending_follows_the_spent_bit(before, ctx, at.sequence, tr_hash, output_index, k);
    if 0 <= j < txs.len() && 0 <= q < inputs_of(txs[j]).len() && (i != j || p != q) {
        let one = inputs_of(txs[i])[p];
        let two = inputs_of(txs[j])[q];
        if i < j || (i == j && p < q) {
            assert(one is Utxo);
        } else {
            assert(one is Utxo);
        }
    }
}

} // verus!
