//! What holds of every pass over a candidate: an output that is spent stays
//! spent and is not spent again, the number of known nodes never falls, and a
//! candidate that passes is in order from its lowest block to its tip.

use vstd::prelude::*;

use crate::api::NodeView;
use crate::block_data::{
    BlockPayload, ChainBlock, NodeBalance, Transaction, TransactionBody, TransactionInput,
    TransactionOutput, PAYLOAD_TYPE_CHAIN_CONFIG, PAYLOAD_TYPE_TRANSACTION,
};
use crate::blocks as tree;
use crate::blocks::BlockEntry;
use crate::derivation as walk;
use crate::derivation::{
    BlockContext, CheckView, ComplexStep, Derivation, PassView, Step, ValidationReason,
    VoteEngineError,
};
use crate::hash::BlockHash;
use crate::node_info::InfoView;
use crate::processing;
use crate::spent_bits;

verus! {

/// Every output that is spent in `before` is spent in `after`.
pub open spec fn spends_more(before: Seq<BlockEntry>, after: Seq<BlockEntry>) -> bool {
    &&& after.len() == before.len()
    &&& forall|i: int, bit: int|
        0 <= i < before.len() && 0 <= bit && before[i].spent(bit) ==> #[trigger] after[i].spent(bit)
}

/// Nothing that the walk has come to know is forgotten: spent outputs stay
/// spent, and the highest known node id does not fall.
pub open spec fn further(before: Derivation, after: Derivation) -> bool {
    &&& spends_more(before.blocks, after.blocks)
    &&& after.info.max_known_node_id >= before.info.max_known_node_id
}

proof fn lemma_bit(block: ChainBlock, tr_hash: BlockHash, output_index: u8)
    ensures
        spent_bits::utxo_bit(block, tr_hash, output_index) matches Some(bit) ==> bit >= 0,
{
    if let Some(txs) = block.transaction_list() {
        spent_bits::resolved_bit_is_in_the_block(txs, tr_hash, output_index, 0, 0);
    }
}

proof fn lemma_output_further(
    blocks: Seq<BlockEntry>,
    ctx: PassView,
    sequence: u32,
    tr_hash: BlockHash,
    output_index: u8,
    from: int,
)
    ensures
        spends_more(
            blocks,
            walk::output_spent(blocks, ctx, sequence, tr_hash, output_index, from).0,
        ),
    decreases ctx.marked.len() - from,
{
    if 0 <= from < ctx.marked.len() {
        lemma_output_further(blocks, ctx, sequence, tr_hash, output_index, from + 1);
        let idx = ctx.marked[from] as int;
        if ctx.reads[from] is Some {
            lemma_bit(ctx.reads[from]->0, tr_hash, output_index);
            if let Some(bit) = spent_bits::utxo_bit(ctx.reads[from]->0, tr_hash, output_index) {
                tree::lemma_spent_update(blocks[idx], bit, true);
                let after = tree::revised(
                    blocks,
                    ctx.marked[from],
                    blocks[idx].with_spent(bit, true),
                );
                assert forall|i: int, b: int|
                    0 <= i < blocks.len() && 0 <= b
                        && blocks[i].spent(b) implies #[trigger] after[i].spent(b) by {
                    if i == idx && b == bit && bit < 8 * 32 {
                        assert(blocks[idx].with_spent(bit, true).spent(bit));
                    }
                    if i == idx && b != bit {
                        assert(blocks[idx].with_spent(bit, true).spent(b) == blocks[idx].spent(b));
                    }
                }
            }
        }
    }
}

proof fn lemma_inputs_further(
    c: ComplexStep,
    ctx: PassView,
    at: BlockContext,
    vote: u32,
    inputs: Seq<TransactionInput>,
    from: int,
)
    ensures
        further(c.d, walk::inputs_applied(c, ctx, at, vote, inputs, from).d),
    decreases inputs.len() - from,
{
    if c.broken is None && 0 <= from < inputs.len() {
        if let TransactionInput::Utxo { tr_hash, output_index } = inputs[from] {
            lemma_output_further(c.d.blocks, ctx, at.sequence, tr_hash, output_index, 0);
        }
        lemma_inputs_further(
            walk::input_applied(c, ctx, at, vote, inputs[from]),
            ctx,
            at,
            vote,
            inputs,
            from + 1,
        );
    }
}

proof fn lemma_outputs_further(
    c: ComplexStep,
    ctx: PassView,
    at: BlockContext,
    outputs: Seq<TransactionOutput>,
    from: int,
)
    ensures
        further(c.d, walk::outputs_applied(c, ctx, at, outputs, from).d),
    decreases outputs.len() - from,
{
    if c.broken is None && 0 <= from < outputs.len() {
        lemma_outputs_further(
            walk::output_applied(c, ctx, at, outputs[from]),
            ctx,
            at,
            outputs,
            from + 1,
        );
    }
}

proof fn lemma_transactions_further(
    s: Step,
    ctx: PassView,
    at: BlockContext,
    txs: Seq<Transaction>,
    from: int,
)
    ensures
        further(s.d, walk::transactions_applied(s, ctx, at, txs, from).d),
    decreases txs.len() - from,
{
    if s.broken is None && 0 <= from < txs.len() {
        let next = walk::transaction_applied(s, ctx, at, txs[from]);
        if let TransactionBody::Complex(cx) = txs[from].body {
            let start = walk::complex_start(s.d);
            let vote = txs[from].vote;
            lemma_inputs_further(start, ctx, at, vote, cx.inputs@, 0);
            lemma_outputs_further(
                walk::inputs_applied(start, ctx, at, vote, cx.inputs@, 0),
                ctx,
                at,
                cx.outputs@,
                0,
            );
        }
        assert(further(s.d, next.d));
        lemma_transactions_further(next, ctx, at, txs, from + 1);
    }
}

proof fn lemma_entries_further(info: InfoView, entries: Seq<NodeBalance>, idx: u32, from: int)
    ensures
        walk::entries_seeded(info, entries, idx, from).max_known_node_id
            == info.max_known_node_id,
    decreases entries.len() - from,
{
    if 0 <= from < entries.len() {
        lemma_entries_further(
            info.with_node(
                entries[from].owner,
                entries[from].public_key@,
                entries[from].balance,
                idx,
            ),
            entries,
            idx,
            from + 1,
        );
    }
}

/// A walk over a candidate forgets nothing: no spent output becomes unspent
/// again, and the highest known node id never falls.
pub proof fn walks_forget_nothing(
    d: Derivation,
    ctx: PassView,
    left: nat,
    prev_hash: Option<BlockHash>,
)
    ensures
        further(d, walk::segment_derived(d, ctx, left, prev_hash).0),
    decreases left,
{
    if left > 0 && ctx.reads[left - 1] is Some {
        let block = ctx.reads[left - 1]->0;
        let idx = ctx.marked[left - 1];
        let at = BlockContext { sequence: block.sequence, idx };
        let checked = walk::header_checked(d, ctx, block, idx, prev_hash).0;
        let start = Step { d: checked, fees: 0, broken: None };
        match block.payload {
            BlockPayload::Transactions(txs) => {
                lemma_transactions_further(start, ctx, at, txs@, 0);
            },
            BlockPayload::Balances(payload) => {
                let counted = if payload.max_node_id > checked.info.max_known_node_id {
                    checked.info.with_watermark(payload.max_node_id)
                } else {
                    checked.info
                };
                lemma_entries_further(counted, payload.entries@, idx, 0);
            },
            _ => {},
        }
        let next = walk::block_derived(
            d,
            ctx,
            block,
            idx,
            ctx.marked.len() - left,
            prev_hash,
        ).0;
        assert(further(d, next));
        walks_forget_nothing(next, ctx, (left - 1) as nat, Some(block.hash));
    }
}

/// Whether the block of the candidate at `k` stands from `low` up to `high` and
/// holds the output.
pub open spec fn holds_output(
    blocks: Seq<BlockEntry>,
    ctx: PassView,
    k: int,
    low: u32,
    high: u32,
    tr_hash: BlockHash,
    output_index: u8,
) -> bool {
    &&& 0 <= k < ctx.marked.len()
    &&& tree::present(blocks, ctx.marked[k])
    &&& low <= blocks[ctx.marked[k] as int].sequence < high
    &&& ctx.reads[k] is Some
    &&& spent_bits::utxo_bit(ctx.reads[k]->0, tr_hash, output_index) is Some
}

/// An output is spent once: after a block at `sequence` has spent it, no block at
/// `later_sequence` can, as long as no block in between carries the same output
/// anew.
pub proof fn outputs_are_spent_once(
    blocks: Seq<BlockEntry>,
    later: Seq<BlockEntry>,
    ctx: PassView,
    sequence: u32,
    later_sequence: u32,
    tr_hash: BlockHash,
    output_index: u8,
    from: int,
)
    requires
        walk::output_spent(blocks, ctx, sequence, tr_hash, output_index, from).1 is None,
        ({
            let after = walk::output_spent(blocks, ctx, sequence, tr_hash, output_index, from).0;
            &&& spends_more(after, later)
            &&& processing::spending_only(after, later)
        }),
        sequence <= later_sequence,
        forall|k: int| !#[trigger]
            holds_output(
                blocks,
                ctx,
                k,
                sequence,
                later_sequence,
                tr_hash,
                output_index,
            ),
    ensures
        walk::output_spent(later, ctx, later_sequence, tr_hash, output_index, from) == (
            later,
            Some(ValidationReason::UtxoAlreadySpent),
        ),
    decreases ctx.marked.len() - from,
{
    let after = walk::output_spent(blocks, ctx, sequence, tr_hash, output_index, from).0;
    let idx = ctx.marked[from];
    let i = idx as int;
    processing::lemma_output_spending(
        blocks,
        blocks,
        ctx,
        sequence,
        tr_hash,
        output_index,
        from,
    );
    processing::spending_keeps_blocks(after, later);
    processing::spending_keeps_blocks(blocks, after);
    assert(!holds_output(
        blocks,
        ctx,
        from,
        sequence,
        later_sequence,
        tr_hash,
        output_index,
    ));
    if tree::present(blocks, idx) {
        assert(tree::present(after, idx));
        assert(tree::present(later, idx));
        assert(after[i].unspent() == blocks[i].unspent());
        assert(later[i].unspent() == after[i].unspent());
        assert(later[i].unspent().sequence == blocks[i].unspent().sequence);
    } else {
        assert(!tree::present(after, idx));
        assert(!tree::present(later, idx));
    }
    if !tree::present(blocks, idx) || blocks[i].sequence >= sequence || ctx.reads[from] is None
        || spent_bits::utxo_bit(ctx.reads[from]->0, tr_hash, output_index) is None {
        outputs_are_spent_once(
            blocks,
            later,
            ctx,
            sequence,
            later_sequence,
            tr_hash,
            output_index,
            from + 1,
        );
    } else {
        let bit = spent_bits::utxo_bit(ctx.reads[from]->0, tr_hash, output_index)->0;
        lemma_bit(ctx.reads[from]->0, tr_hash, output_index);
        tree::lemma_spent_update(blocks[i], bit, true);
        assert(after[i].spent(bit));
        assert(later[i].spent(bit));
    }
}

/// Whether the block of the candidate at `k` is the first from `from` on, tip
/// first, that lies below the spender and holds the output.
pub open spec fn first_holder(
    blocks: Seq<BlockEntry>,
    ctx: PassView,
    sequence: u32,
    tr_hash: BlockHash,
    output_index: u8,
    from: int,
    k: int,
) -> bool {
    &&& from <= k
    &&& holds_output(blocks, ctx, k, 0, sequence, tr_hash, output_index)
    &&& forall|j: int|
        from <= j < k ==> !#[trigger] holds_output(
            blocks,
            ctx,
            j,
            0,
            sequence,
            tr_hash,
            output_index,
        )
}

/// The only change from `before` to `after` is that the output `bit` of the
/// block at `idx`, unspent so far, is spent.
pub open spec fn one_bit_set(
    before: Seq<BlockEntry>,
    after: Seq<BlockEntry>,
    idx: u32,
    bit: int,
) -> bool {
    &&& after.len() == before.len()
    &&& idx < before.len()
    &&& !before[idx as int].spent(bit)
    &&& after[idx as int].spent(bit)
    &&& forall|other: int|
        0 <= other && other != bit ==> after[idx as int].spent(other) == #[trigger] before[idx as int].spent(
            other,
        )
    &&& after[idx as int].unspent() == before[idx as int].unspent()
    &&& forall|i: int| 0 <= i < before.len() && i != idx ==> #[trigger] after[i] == before[i]
}

/// Spending an output sets exactly one bit, in a block below the spender; every
/// refusal changes nothing. The output cannot be resolved exactly if no block of
/// the candidate below the spender holds it, so that one held only at or above
/// the spender cannot be spent; and it is spent already exactly if it is in the
/// first block that holds it.
pub proof fn spending_sets_one_bit(
    blocks: Seq<BlockEntry>,
    ctx: PassView,
    sequence: u32,
    tr_hash: BlockHash,
    output_index: u8,
    from: int,
)
    requires
        0 <= from,
    ensures
        ({
            let (after, refused) = walk::output_spent(
                blocks,
                ctx,
                sequence,
                tr_hash,
                output_index,
                from,
            );
            &&& refused is Some ==> after == blocks
            &&& match refused {
                None => exists|k: int| #[trigger]
                    first_holder(blocks, ctx, sequence, tr_hash, output_index, from, k)
                        && one_bit_set(
                        blocks,
                        after,
                        ctx.marked[k],
                        spent_bits::utxo_bit(ctx.reads[k]->0, tr_hash, output_index)->0,
                    ),
                Some(ValidationReason::UtxoAlreadySpent) => exists|k: int| #[trigger]
                    first_holder(blocks, ctx, sequence, tr_hash, output_index, from, k)
                        && blocks[ctx.marked[k] as int].spent(
                        spent_bits::utxo_bit(ctx.reads[k]->0, tr_hash, output_index)->0,
                    ),
                Some(reason) => reason == ValidationReason::UtxoUnresolvable && forall|k: int|
                    from <= k ==> !#[trigger] holds_output(
                        blocks,
                        ctx,
                        k,
                        0,
                        sequence,
                        tr_hash,
                        output_index,
                    ),
            }
        }),
    decreases ctx.marked.len() - from,
{
    if from < ctx.marked.len() {
        let idx = ctx.marked[from];
        if !holds_output(blocks, ctx, from, 0, sequence, tr_hash, output_index) {
            spending_sets_one_bit(blocks, ctx, sequence, tr_hash, output_index, from + 1);
            assert forall|k: int|
                #[trigger] first_holder(
                    blocks,
                    ctx,
                    sequence,
                    tr_hash,
                    output_index,
                    from + 1,
                    k,
                ) implies first_holder(
                blocks,
                ctx,
                sequence,
                tr_hash,
                output_index,
                from,
                k,
            ) by {}
        } else {
            let bit = spent_bits::utxo_bit(ctx.reads[from]->0, tr_hash, output_index)->0;
            lemma_bit(ctx.reads[from]->0, tr_hash, output_index);
            tree::lemma_spent_update(blocks[idx as int], bit, true);
            assert(first_holder(blocks, ctx, sequence, tr_hash, output_index, from, from));
            let after = walk::output_spent(
                blocks,
                ctx,
                sequence,
                tr_hash,
                output_index,
                from,
            ).0;
            if !blocks[idx as int].spent(bit) {
                assert(one_bit_set(blocks, after, idx, bit));
            }
        }
    }
}

/// An output that was spent cannot be spent again, by the same block or by any
/// other at its height.
pub proof fn second_spend_is_refused(
    blocks: Seq<BlockEntry>,
    ctx: PassView,
    sequence: u32,
    tr_hash: BlockHash,
    output_index: u8,
)
    requires
        walk::output_spent(blocks, ctx, sequence, tr_hash, output_index, 0).1 is None,
    ensures
        ({
            let after = walk::output_spent(blocks, ctx, sequence, tr_hash, output_index, 0).0;
            walk::output_spent(after, ctx, sequence, tr_hash, output_index, 0) == (
                after,
                Some(ValidationReason::UtxoAlreadySpent),
            )
        }),
{
    let after = walk::output_spent(blocks, ctx, sequence, tr_hash, output_index, 0).0;
    outputs_are_spent_once(
        blocks,
        after,
        ctx,
        sequence,
        sequence,
        tr_hash,
        output_index,
        0,
    );
}

// -- What a candidate that passes is like ------------------------------------

/// Whether the block of the candidate at `k` was read, fits the size limit, is
/// followed by the block above it, and carries no other configuration than the
/// node holds.
pub open spec fn in_order(ctx: PassView, k: int) -> bool {
    ctx.reads[k] matches Some(block) && {
        &&& block.bytes@.len() <= ctx.size_limit
        &&& k + 1 < ctx.reads.len() ==> ctx.reads[k + 1] is Some && block.previous_hash == (
        ctx.reads[k + 1]->0).hash
        &&& block.payload_type == PAYLOAD_TYPE_CHAIN_CONFIG && ctx.held is Some
            ==> block.config_content() == ctx.held
    }
}

proof fn lemma_in_order(d: Derivation, ctx: PassView, left: nat, prev_hash: Option<BlockHash>)
    requires
        left <= ctx.marked.len(),
        ctx.reads.len() == ctx.marked.len(),
        left < ctx.reads.len() ==> ctx.reads[left as int] is Some && prev_hash == Some(
            (ctx.reads[left as int]->0).hash,
        ),
        walk::segment_derived(d, ctx, left, prev_hash).1 is None,
    ensures
        forall|k: int| 0 <= k < left ==> #[trigger] in_order(ctx, k),
    decreases left,
{
    if left > 0 {
        let i = left - 1;
        let block = ctx.reads[i]->0;
        let next = walk::block_derived(
            d,
            ctx,
            block,
            ctx.marked[i],
            ctx.marked.len() - left,
            prev_hash,
        ).0;
        lemma_in_order(next, ctx, i as nat, Some(block.hash));
        assert(in_order(ctx, i));
    }
}

/// In a candidate that passes, every block was read and fits the size limit,
/// each one follows the one below it, and every configuration block carries what
/// the node holds; so locking that rules out none of them.
pub proof fn passing_candidates_are_in_order(
    node: NodeView,
    tip: u32,
    reads: Seq<Option<ChainBlock>>,
    vote_failure: Option<(int, VoteEngineError)>,
    holds: spec_fn(CheckView) -> bool,
    k: int,
)
    requires
        ({
            let pass = node.passed(tip, reads, vote_failure, holds);
            &&& pass.failure is None
            &&& reads.len() == pass.segment.len()
            &&& 0 <= k < pass.segment.len()
        }),
    ensures
        in_order(
            node.pass_view(
                node.passed(tip, reads, vote_failure, holds).segment,
                reads,
                vote_failure,
                holds,
            ),
            k,
        ),
{
    let segment = node.passed(tip, reads, vote_failure, holds).segment;
    lemma_in_order(
        node.pass_start(segment, reads),
        node.pass_view(segment, reads, vote_failure, holds),
        segment.len(),
        None,
    );
}

/// Every signature that was recorded holds.
spec fn signed(d: Derivation, ctx: PassView) -> bool {
    forall|i: int| 0 <= i < d.checks.len() ==> (ctx.holds)(#[trigger] d.checks[i])
}

proof fn lemma_inputs_signed(
    c: ComplexStep,
    ctx: PassView,
    at: BlockContext,
    vote: u32,
    inputs: Seq<TransactionInput>,
    from: int,
)
    ensures
        walk::inputs_applied(c, ctx, at, vote, inputs, from).d.checks == c.d.checks,
    decreases inputs.len() - from,
{
    if c.broken is None && 0 <= from < inputs.len() {
        lemma_inputs_signed(
            walk::input_applied(c, ctx, at, vote, inputs[from]),
            ctx,
            at,
            vote,
            inputs,
            from + 1,
        );
    }
}

proof fn lemma_outputs_signed(
    c: ComplexStep,
    ctx: PassView,
    at: BlockContext,
    outputs: Seq<TransactionOutput>,
    from: int,
)
    ensures
        walk::outputs_applied(c, ctx, at, outputs, from).d.checks == c.d.checks,
    decreases outputs.len() - from,
{
    if c.broken is None && 0 <= from < outputs.len() {
        lemma_outputs_signed(
            walk::output_applied(c, ctx, at, outputs[from]),
            ctx,
            at,
            outputs,
            from + 1,
        );
    }
}

proof fn lemma_transactions_signed(
    s: Step,
    ctx: PassView,
    at: BlockContext,
    txs: Seq<Transaction>,
    from: int,
)
    requires
        signed(s.d, ctx),
        walk::transactions_applied(s, ctx, at, txs, from).broken is None,
    ensures
        signed(walk::transactions_applied(s, ctx, at, txs, from).d, ctx),
    decreases txs.len() - from,
{
    if s.broken is None && 0 <= from < txs.len() {
        let next = walk::transaction_applied(s, ctx, at, txs[from]);
        if let TransactionBody::Complex(cx) = txs[from].body {
            let start = walk::complex_start(s.d);
            let vote = txs[from].vote;
            lemma_inputs_signed(start, ctx, at, vote, cx.inputs@, 0);
            lemma_outputs_signed(
                walk::inputs_applied(start, ctx, at, vote, cx.inputs@, 0),
                ctx,
                at,
                cx.outputs@,
                0,
            );
        }
        if next.broken is Some {
            assert(walk::transactions_applied(next, ctx, at, txs, from + 1) == next);
        }
        assert(signed(next.d, ctx));
        lemma_transactions_signed(next, ctx, at, txs, from + 1);
    }
}

proof fn lemma_walk_signed(d: Derivation, ctx: PassView, left: nat, prev_hash: Option<BlockHash>)
    requires
        signed(d, ctx),
        walk::segment_derived(d, ctx, left, prev_hash).1 is None,
    ensures
        signed(walk::segment_derived(d, ctx, left, prev_hash).0, ctx),
    decreases left,
{
    if left > 0 {
        let block = ctx.reads[left - 1]->0;
        let idx = ctx.marked[left - 1];
        let at = BlockContext { sequence: block.sequence, idx };
        let checked = walk::header_checked(d, ctx, block, idx, prev_hash).0;
        let start = Step { d: checked, fees: 0, broken: None };
        assert(signed(checked, ctx));
        if block.payload_type == PAYLOAD_TYPE_TRANSACTION {
            if let BlockPayload::Transactions(txs) = block.payload {
                lemma_transactions_signed(start, ctx, at, txs@, 0);
            }
        }
        let next = walk::block_derived(
            d,
            ctx,
            block,
            idx,
            ctx.marked.len() - left,
            prev_hash,
        ).0;
        assert(signed(next, ctx));
        lemma_walk_signed(next, ctx, (left - 1) as nat, Some(block.hash));
    }
}

/// A candidate passes only if every signature that it was asked for holds.
pub proof fn passing_candidates_are_signed(
    node: NodeView,
    tip: u32,
    reads: Seq<Option<ChainBlock>>,
    vote_failure: Option<(int, VoteEngineError)>,
    holds: spec_fn(CheckView) -> bool,
)
    requires
        node.passed(tip, reads, vote_failure, holds).failure is None,
    ensures
        ({
            let checks = node.passed(tip, reads, vote_failure, holds).checks;
            forall|i: int| 0 <= i < checks.len() ==> holds(#[trigger] checks[i])
        }),
{
    let segment = node.passed(tip, reads, vote_failure, holds).segment;
    lemma_walk_signed(
        node.pass_start(segment, reads),
        node.pass_view(segment, reads, vote_failure, holds),
        segment.len(),
        None,
    );
}

} // verus!
