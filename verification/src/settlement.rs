//! Verifying the signatures of a candidate after the walk gives what verifying
//! each one during the walk would have given.

use vstd::prelude::*;

use crate::api::NodeView;
use crate::block_data::{
    BlockPayload, ChainBlock, Transaction, TransactionBody, TransactionInput, TransactionOutput,
};
use crate::blocks::BlockEntry;
use crate::derivation as walk;
use crate::derivation::{
    BlockContext, CheckView, ComplexStep, Derivation, PassView, ProcessingError, Step,
    VoteEngineError,
};
use crate::hash::BlockHash;
use crate::processing;

verus! {

/// The candidate walked as if every signature held.
pub open spec fn optimistic(ctx: PassView) -> PassView {
    PassView { holds: walk::all_hold(), ..ctx }
}

/// `after` starts with `before`.
pub open spec fn extends(before: Seq<CheckView>, after: Seq<CheckView>) -> bool {
    &&& before.len() <= after.len()
    &&& forall|i: int| 0 <= i < before.len() ==> #[trigger] after[i] == before[i]
}

/// Where the first signature from `from` on that does not hold stands.
pub open spec fn refuted_from(
    checks: Seq<CheckView>,
    holds: spec_fn(CheckView) -> bool,
    from: int,
) -> Option<int>
    decreases checks.len() - from,
{
    if from < 0 || from >= checks.len() {
        None
    } else if !holds(checks[from]) {
        Some(from)
    } else {
        refuted_from(checks, holds, from + 1)
    }
}

proof fn lemma_refuted_split(
    before: Seq<CheckView>,
    after: Seq<CheckView>,
    holds: spec_fn(CheckView) -> bool,
    from: int,
)
    requires
        extends(before, after),
        0 <= from <= before.len(),
    ensures
        refuted_from(after, holds, from) == match refuted_from(before, holds, from) {
            Some(at) => Some(at),
            None => refuted_from(after, holds, before.len() as int),
        },
        refuted_from(before, holds, from) matches Some(at) ==> from <= at < before.len(),
    decreases before.len() - from,
{
    if from < before.len() && holds(before[from]) {
        lemma_refuted_split(before, after, holds, from + 1);
    }
}

/// A step taken as if every signature held, and the same step with signatures
/// verified on the way: they agree, unless a signature recorded in the step does
/// not hold, which then breaks the block at `idx`.
pub open spec fn steps_agree(
    before: Seq<CheckView>,
    o: Step,
    h: Step,
    holds: spec_fn(CheckView) -> bool,
    idx: u32,
) -> bool {
    &&& extends(before, o.d.checks)
    &&& match refuted_from(o.d.checks, holds, before.len() as int) {
        None => h == o,
        Some(at) => h.broken == Some(o.d.checks[at].reason) && o.d.checks[at].block_idx == idx,
    }
}

proof fn lemma_output_spent(
    s: Seq<BlockEntry>,
    ctx: PassView,
    sequence: u32,
    tr_hash: BlockHash,
    output_index: u8,
    from: int,
)
    ensures
        walk::output_spent(s, ctx, sequence, tr_hash, output_index, from) == walk::output_spent(
            s,
            optimistic(ctx),
            sequence,
            tr_hash,
            output_index,
            from,
        ),
    decreases ctx.marked.len() - from,
{
    if 0 <= from < ctx.marked.len() {
        lemma_output_spent(s, ctx, sequence, tr_hash, output_index, from + 1);
    }
}

proof fn lemma_inputs(
    c: ComplexStep,
    ctx: PassView,
    at: BlockContext,
    vote: u32,
    inputs: Seq<TransactionInput>,
    from: int,
)
    ensures
        walk::inputs_applied(c, ctx, at, vote, inputs, from) == walk::inputs_applied(
            c,
            optimistic(ctx),
            at,
            vote,
            inputs,
            from,
        ),
        walk::inputs_applied(c, ctx, at, vote, inputs, from).d.checks == c.d.checks,
    decreases inputs.len() - from,
{
    if c.broken is None && 0 <= from < inputs.len() {
        if let TransactionInput::Utxo { tr_hash, output_index } = inputs[from] {
            lemma_output_spent(c.d.blocks, ctx, at.sequence, tr_hash, output_index, 0);
        }
        lemma_inputs(
            walk::input_applied(c, ctx, at, vote, inputs[from]),
            ctx,
            at,
            vote,
            inputs,
            from + 1,
        );
    }
}

proof fn lemma_outputs(
    c: ComplexStep,
    ctx: PassView,
    at: BlockContext,
    outputs: Seq<TransactionOutput>,
    from: int,
)
    ensures
        walk::outputs_applied(c, ctx, at, outputs, from) == walk::outputs_applied(
            c,
            optimistic(ctx),
            at,
            outputs,
            from,
        ),
        walk::outputs_applied(c, ctx, at, outputs, from).d.checks == c.d.checks,
    decreases outputs.len() - from,
{
    if c.broken is None && 0 <= from < outputs.len() {
        lemma_outputs(
            walk::output_applied(c, ctx, at, outputs[from]),
            ctx,
            at,
            outputs,
            from + 1,
        );
    }
}

proof fn lemma_transaction(s: Step, ctx: PassView, at: BlockContext, tx: Transaction)
    requires
        s.broken is None,
    ensures
        steps_agree(
            s.d.checks,
            walk::transaction_applied(s, optimistic(ctx), at, tx),
            walk::transaction_applied(s, ctx, at, tx),
            ctx.holds,
            at.idx,
        ),
{
    reveal_with_fuel(refuted_from, 3);
    match tx.body {
        TransactionBody::Complex(cx) => {
            let start = walk::complex_start(s.d);
            lemma_inputs(start, ctx, at, tx.vote, cx.inputs@, 0);
            lemma_outputs(
                walk::inputs_applied(start, ctx, at, tx.vote, cx.inputs@, 0),
                ctx,
                at,
                cx.outputs@,
                0,
            );
        },
        _ => {},
    }
}

proof fn lemma_transactions(
    s: Step,
    ctx: PassView,
    at: BlockContext,
    txs: Seq<Transaction>,
    from: int,
)
    requires
        s.broken is None,
    ensures
        steps_agree(
            s.d.checks,
            walk::transactions_applied(s, optimistic(ctx), at, txs, from),
            walk::transactions_applied(s, ctx, at, txs, from),
            ctx.holds,
            at.idx,
        ),
    decreases txs.len() - from,
{
    reveal_with_fuel(walk::transactions_applied, 2);
    if 0 <= from < txs.len() {
        lemma_transaction(s, ctx, at, txs[from]);
        let o = walk::transaction_applied(s, optimistic(ctx), at, txs[from]);
        let h = walk::transaction_applied(s, ctx, at, txs[from]);
        let all = walk::transactions_applied(o, optimistic(ctx), at, txs, from + 1);
        let start = s.d.checks.len() as int;
        if o.broken is None {
            lemma_transactions(o, ctx, at, txs, from + 1);
        }
        lemma_refuted_split(o.d.checks, all.d.checks, ctx.holds, start);
        lemma_refuted_split(s.d.checks, o.d.checks, ctx.holds, start);
        assert(refuted_from(o.d.checks, ctx.holds, o.d.checks.len() as int) is None);
    } else {
        assert(refuted_from(s.d.checks, ctx.holds, s.d.checks.len() as int) is None);
    }
}

/// The same for the walk of whole blocks.
pub open spec fn walks_agree(
    before: Seq<CheckView>,
    o: (Derivation, Option<ProcessingError>),
    h: (Derivation, Option<ProcessingError>),
    holds: spec_fn(CheckView) -> bool,
) -> bool {
    &&& extends(before, o.0.checks)
    &&& match refuted_from(o.0.checks, holds, before.len() as int) {
        None => h == o,
        Some(at) => h.1 == Some(
            ProcessingError::Invalid {
                block_idx: o.0.checks[at].block_idx,
                reason: o.0.checks[at].reason,
            },
        ),
    }
}

proof fn lemma_block(
    d: Derivation,
    ctx: PassView,
    block: ChainBlock,
    idx: u32,
    position: int,
    prev_hash: Option<BlockHash>,
)
    ensures
        walks_agree(
            d.checks,
            walk::block_derived(d, optimistic(ctx), block, idx, position, prev_hash),
            walk::block_derived(d, ctx, block, idx, position, prev_hash),
            ctx.holds,
        ),
{
    reveal_with_fuel(refuted_from, 3);
    let at = BlockContext { sequence: block.sequence, idx };
    let (checked, failure) = walk::header_checked(d, optimistic(ctx), block, idx, prev_hash);
    let (verified, refusal) = walk::header_checked(d, ctx, block, idx, prev_hash);
    let start = d.checks.len() as int;
    assert(extends(d.checks, checked.checks));
    assert(verified == checked);
    if failure is None {
        let s = Step { d: checked, fees: 0, broken: None };
        let o = walk::payload_applied(s, optimistic(ctx), at, block);
        if let BlockPayload::Transactions(txs) = block.payload {
            lemma_transactions(s, ctx, at, txs@, 0);
        }
        let h = walk::payload_applied(s, ctx, at, block);
        assert(steps_agree(checked.checks, o, h, ctx.holds, idx));
        lemma_refuted_split(checked.checks, o.d.checks, ctx.holds, start);
    }
}

proof fn lemma_segment(d: Derivation, ctx: PassView, left: nat, prev_hash: Option<BlockHash>)
    ensures
        walks_agree(
            d.checks,
            walk::segment_derived(d, optimistic(ctx), left, prev_hash),
            walk::segment_derived(d, ctx, left, prev_hash),
            ctx.holds,
        ),
    decreases left,
{
    assert(refuted_from(d.checks, ctx.holds, d.checks.len() as int) is None);
    if left > 0 && ctx.reads[left - 1] is Some {
        let block = ctx.reads[left - 1]->0;
        let idx = ctx.marked[left - 1];
        let position = ctx.marked.len() - left;
        lemma_block(d, ctx, block, idx, position, prev_hash);
        let o = walk::block_derived(d, optimistic(ctx), block, idx, position, prev_hash);
        if o.1 is None {
            lemma_segment(o.0, ctx, (left - 1) as nat, Some(block.hash));
            let all = walk::segment_derived(
                o.0,
                optimistic(ctx),
                (left - 1) as nat,
                Some(block.hash),
            );
            lemma_refuted_split(o.0.checks, all.0.checks, ctx.holds, d.checks.len() as int);
        }
    }
}

proof fn lemma_first_refuted(
    checks: Seq<CheckView>,
    holds: spec_fn(CheckView) -> bool,
    verdicts: Seq<bool>,
    from: int,
)
    requires
        verdicts.len() == checks.len(),
        forall|i: int| 0 <= i < checks.len() ==> verdicts[i] == holds(#[trigger] checks[i]),
        0 <= from,
    ensures
        processing::first_refuted(verdicts, from) == refuted_from(checks, holds, from),
    decreases checks.len() - from,
{
    if from < checks.len() {
        assert(verdicts[from] == holds(checks[from]));
        lemma_first_refuted(checks, holds, verdicts, from + 1);
    }
}

/// Whatever the signatures are worth: a pass that records them, settled with
/// their verdicts, fails exactly as the pass that verifies each one when it comes
/// to it, and where that one succeeds leaves the same node.
pub proof fn late_verification_is_faithful(
    node: NodeView,
    tip: u32,
    reads: Seq<Option<ChainBlock>>,
    vote_failure: Option<(int, VoteEngineError)>,
    holds: spec_fn(CheckView) -> bool,
    verdicts: Seq<bool>,
)
    requires
        ({
            let checks = node.passed(tip, reads, vote_failure, walk::all_hold()).checks;
            &&& verdicts.len() == checks.len()
            &&& forall|i: int| 0 <= i < checks.len() ==> verdicts[i] == holds(#[trigger] checks[i])
        }),
    ensures
        ({
            let late = node.passed(tip, reads, vote_failure, walk::all_hold());
            let early = node.passed(tip, reads, vote_failure, holds);
            let (settled, failure) = late.node.settled(
                late.segment,
                late.checks,
                late.failure,
                verdicts,
            );
            &&& failure == early.failure
            &&& early.failure is None ==> settled == early.node
        }),
{
    let late = node.passed(tip, reads, vote_failure, walk::all_hold());
    lemma_first_refuted(late.checks, holds, verdicts, 0);
    if let Ok(segment) = processing::candidate(node.blocks, tip) {
        let ctx = node.pass_view(segment, reads, vote_failure, holds);
        assert(optimistic(ctx) == node.pass_view(
            segment,
            reads,
            vote_failure,
            walk::all_hold(),
        ));
        lemma_segment(node.pass_start(segment, reads), ctx, segment.len(), None);
    }
}

} // verus!
