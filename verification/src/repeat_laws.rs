//! A pass starts clean: what an earlier pass left behind does not bear on it.

use vstd::prelude::*;

use crate::api::NodeView;
use crate::block_data::{
    BlockPayload, ChainBlock, Transaction, TransactionBody, TransactionInput,
    PAYLOAD_TYPE_BALANCE, PAYLOAD_TYPE_CHAIN_CONFIG,
};
use crate::blocks as tree;
use crate::blocks::{BlockEntry, NONE_REF};
use crate::derivation as walk;
use crate::derivation::{
    BlockContext, CheckView, ComplexStep, Derivation, PassView, Step, VoteEngineError,
};
use crate::hash::BlockHash;
use crate::processing;
use crate::retry_laws;

verus! {

/// The trees are the same but for the spent bits of the blocks in `slots`.
pub open spec fn spent_within(
    before: Seq<BlockEntry>,
    after: Seq<BlockEntry>,
    slots: Seq<u32>,
) -> bool {
    &&& processing::spending_only(before, after)
    &&& forall|i: int|
        0 <= i < before.len() && !slots.contains(i as u32) ==> #[trigger] after[i] == before[i]
}

proof fn lemma_output_within(
    first: Seq<BlockEntry>,
    s: Seq<BlockEntry>,
    ctx: PassView,
    sequence: u32,
    tr_hash: BlockHash,
    output_index: u8,
    from: int,
)
    requires
        spent_within(first, s, ctx.marked),
        first.len() <= NONE_REF,
    ensures
        spent_within(
            first,
            walk::output_spent(s, ctx, sequence, tr_hash, output_index, from).0,
            ctx.marked,
        ),
    decreases ctx.marked.len() - from,
{
    if 0 <= from < ctx.marked.len() {
        lemma_output_within(first, s, ctx, sequence, tr_hash, output_index, from + 1);
        assert(ctx.marked.contains(ctx.marked[from]));
        processing::lemma_output_spending(first, s, ctx, sequence, tr_hash, output_index, from);
    }
}

proof fn lemma_inputs_within(
    first: Seq<BlockEntry>,
    c: ComplexStep,
    ctx: PassView,
    at: BlockContext,
    vote: u32,
    inputs: Seq<TransactionInput>,
    from: int,
)
    requires
        spent_within(first, c.d.blocks, ctx.marked),
        first.len() <= NONE_REF,
    ensures
        spent_within(
            first,
            walk::inputs_applied(c, ctx, at, vote, inputs, from).d.blocks,
            ctx.marked,
        ),
    decreases inputs.len() - from,
{
    if c.broken is None && 0 <= from < inputs.len() {
        let next = walk::input_applied(c, ctx, at, vote, inputs[from]);
        if let TransactionInput::Utxo { tr_hash, output_index } = inputs[from] {
            lemma_output_within(
                first,
                c.d.blocks,
                ctx,
                at.sequence,
                tr_hash,
                output_index,
                0,
            );
        }
        lemma_inputs_within(first, next, ctx, at, vote, inputs, from + 1);
    }
}

proof fn lemma_transactions_within(
    first: Seq<BlockEntry>,
    s: Step,
    ctx: PassView,
    at: BlockContext,
    txs: Seq<Transaction>,
    from: int,
)
    requires
        spent_within(first, s.d.blocks, ctx.marked),
        first.len() <= NONE_REF,
    ensures
        spent_within(
            first,
            walk::transactions_applied(s, ctx, at, txs, from).d.blocks,
            ctx.marked,
        ),
    decreases txs.len() - from,
{
    if s.broken is None && 0 <= from < txs.len() {
        let tx = txs[from];
        let next = walk::transaction_applied(s, ctx, at, tx);
        if let TransactionBody::Complex(cx) = tx.body {
            let start = walk::complex_start(s.d);
            lemma_inputs_within(first, start, ctx, at, tx.vote, cx.inputs@, 0);
            processing::lemma_outputs_spending(
                walk::inputs_applied(start, ctx, at, tx.vote, cx.inputs@, 0),
                ctx,
                at,
                cx.outputs@,
                0,
            );
        }
        assert(spent_within(first, next.d.blocks, ctx.marked));
        lemma_transactions_within(first, next, ctx, at, txs, from + 1);
    }
}

/// Walking a candidate spends outputs of the candidate alone.
pub proof fn derivation_spends_within_the_candidate(
    first: Seq<BlockEntry>,
    d: Derivation,
    ctx: PassView,
    left: nat,
    prev_hash: Option<BlockHash>,
)
    requires
        spent_within(first, d.blocks, ctx.marked),
        first.len() <= NONE_REF,
    ensures
        spent_within(
            first,
            walk::segment_derived(d, ctx, left, prev_hash).0.blocks,
            ctx.marked,
        ),
    decreases left,
{
    if left > 0 && ctx.reads[left - 1] is Some {
        let block = ctx.reads[left - 1]->0;
        let idx = ctx.marked[left - 1];
        let at = BlockContext { sequence: block.sequence, idx };
        let checked = walk::header_checked(d, ctx, block, idx, prev_hash).0;
        if let BlockPayload::Transactions(txs) = block.payload {
            lemma_transactions_within(
                first,
                Step { d: checked, fees: 0, broken: None },
                ctx,
                at,
                txs@,
                0,
            );
        }
        let next = walk::block_derived(
            d,
            ctx,
            block,
            idx,
            ctx.marked.len() - left,
            prev_hash,
        ).0;
        assert(spent_within(first, next.blocks, ctx.marked));
        derivation_spends_within_the_candidate(
            first,
            next,
            ctx,
            (left - 1) as nat,
            Some(block.hash),
        );
    }
}

proof fn lemma_cleared_within(
    first: Seq<BlockEntry>,
    s: Seq<BlockEntry>,
    segment: Seq<u32>,
    from: int,
)
    requires
        spent_within(first, s, segment),
        first.len() <= NONE_REF,
    ensures
        spent_within(first, processing::spent_cleared(s, segment, from), segment),
    decreases segment.len() - from,
{
    if 0 <= from < segment.len() {
        let idx = segment[from];
        let next = tree::revised(s, idx, s[idx as int].unspent());
        assert(segment.contains(idx));
        assert(spent_within(first, next, segment));
        lemma_cleared_within(first, next, segment, from + 1);
    }
}

/// Two trees that differ in spent bits of `segment` alone are cleared alike.
proof fn lemma_cleared_alike(one: Seq<BlockEntry>, two: Seq<BlockEntry>, segment: Seq<u32>)
    requires
        spent_within(one, two, segment),
        one.len() <= NONE_REF,
        forall|k: int| 0 <= k < segment.len() ==> tree::present(one, #[trigger] segment[k]),
    ensures
        processing::spent_cleared(one, segment, 0) == processing::spent_cleared(two, segment, 0),
{
    let a = processing::spent_cleared(one, segment, 0);
    let b = processing::spent_cleared(two, segment, 0);
    processing::spending_keeps_blocks(one, two);
    retry_laws::lemma_cleared(one, segment, 0);
    retry_laws::lemma_cleared(two, segment, 0);
    lemma_cleared_within(one, one, segment, 0);
    lemma_cleared_within(two, two, segment, 0);
    assert forall|i: int| 0 <= i < one.len() implies #[trigger] a[i] == b[i] by {
        if segment.contains(i as u32) {
            let k = choose|k: int| 0 <= k < segment.len() && segment[k] == i as u32;
            assert(tree::present(one, segment[k]));
            assert(tree::present(two, segment[k]));
            assert(two[i].unspent() == one[i].unspent());
        } else {
            assert(two[i] == one[i]);
            assert(a[i] == one[i]);
            assert(b[i] == two[i]);
        }
    }
    assert(a =~= b);
}

proof fn lemma_same_path(
    one: Seq<BlockEntry>,
    two: Seq<BlockEntry>,
    cur: u32,
    steps: nat,
    above: Seq<u32>,
)
    requires
        processing::spending_only(one, two),
    ensures
        processing::segment_below(two, cur, steps, above) == processing::segment_below(
            one,
            cur,
            steps,
            above,
        ),
        processing::path_below(two, cur, steps, above) == processing::path_below(
            one,
            cur,
            steps,
            above,
        ),
    decreases steps,
{
    processing::spending_keeps_blocks(one, two);
    assert(tree::present(two, cur) == tree::present(one, cur));
    if tree::present(one, cur) {
        assert(two[cur as int].unspent() == one[cur as int].unspent());
        assert(two[cur as int].unspent().parent_ref == one[cur as int].unspent().parent_ref);
        if steps > 0 && one[cur as int].parent_ref != NONE_REF {
            lemma_same_path(
                one,
                two,
                one[cur as int].parent_ref,
                (steps - 1) as nat,
                above.push(cur),
            );
        }
    }
}

proof fn lemma_same_kind(
    one: Seq<BlockEntry>,
    two: Seq<BlockEntry>,
    segment: Seq<u32>,
    kind: u8,
    end: nat,
)
    requires
        processing::spending_only(one, two),
        end <= segment.len(),
        forall|k: int| 0 <= k < segment.len() ==> tree::present(one, #[trigger] segment[k]),
    ensures
        processing::last_of_kind(two, segment, kind, end) == processing::last_of_kind(
            one,
            segment,
            kind,
            end,
        ),
    decreases end,
{
    if end > 0 {
        let i = segment[end - 1] as int;
        assert(tree::present(one, segment[end - 1]));
        assert(two[i].unspent() == one[i].unspent());
        assert(two[i].unspent().flags == one[i].unspent().flags);
        lemma_same_kind(one, two, segment, kind, (end - 1) as nat);
    }
}

/// Whether the nodes differ in nothing but what a pass over the candidate that
/// ends in `tip` derives anew: what is known of the nodes, whether the vote
/// registry is empty, and the spent bits on the way down from `tip`.
pub open spec fn same_but_derived(node: NodeView, other: NodeView, tip: u32) -> bool {
    &&& other == (NodeView {
        info: other.info,
        blocks: other.blocks,
        vote_reset: other.vote_reset,
        ..node
    })
    &&& other.info.seeds.len() == node.info.seeds.len()
    &&& spent_within(node.blocks, other.blocks, processing::candidate_path(node.blocks, tip))
}

/// A pass does not resume what an earlier one left: its result and the state
/// after it are the same, whatever was derived before.
pub proof fn passes_start_clean(
    node: NodeView,
    other: NodeView,
    tip: u32,
    reads: Seq<Option<ChainBlock>>,
    vote_failure: Option<(int, VoteEngineError)>,
    holds: spec_fn(CheckView) -> bool,
)
    requires
        same_but_derived(node, other, tip),
        node.blocks.len() <= NONE_REF,
    ensures
        other.passed(tip, reads, vote_failure, holds) == node.passed(
            tip,
            reads,
            vote_failure,
            holds,
        ),
{
    let one = node.blocks;
    let two = other.blocks;
    let path = processing::candidate_path(one, tip);
    lemma_same_path(one, two, tip, one.len(), Seq::empty());
    processing::path_is_in_the_tree(one, tip);
    lemma_cleared_alike(one, two, path);
    if let Ok(segment) = processing::candidate(one, tip) {
        processing::candidate_is_in_the_tree(one, tip);
        lemma_same_kind(
            one,
            two,
            segment,
            PAYLOAD_TYPE_CHAIN_CONFIG,
            segment.len(),
        );
        lemma_same_kind(
            one,
            two,
            segment,
            PAYLOAD_TYPE_BALANCE,
            segment.len(),
        );
        let low = segment.last() as int;
        assert(tree::present(one, segment[segment.len() - 1]));
        assert(two[low].unspent() == one[low].unspent());
        assert(two[low].unspent().sequence == one[low].unspent().sequence);
        assert(other.pass_start(segment, reads) == node.pass_start(segment, reads));
        assert(other.pass_view(segment, reads, vote_failure, holds) == node.pass_view(
            segment,
            reads,
            vote_failure,
            holds,
        ));
        assert(other.preload_failure(tip, segment, reads) == node.preload_failure(
            tip,
            segment,
            reads,
        ));
    }
    assert(other.passed(tip, reads, vote_failure, holds) =~= node.passed(
        tip,
        reads,
        vote_failure,
        holds,
    ));
}

/// What a pass changes of a node is what the next pass derives anew.
proof fn lemma_passed(
    node: NodeView,
    tip: u32,
    reads: Seq<Option<ChainBlock>>,
    vote_failure: Option<(int, VoteEngineError)>,
    holds: spec_fn(CheckView) -> bool,
)
    requires
        node.blocks.len() <= NONE_REF,
    ensures
        same_but_derived(node, node.passed(tip, reads, vote_failure, holds).node, tip),
{
    let path = processing::candidate_path(node.blocks, tip);
    assert(spent_within(node.blocks, node.blocks, path));
    lemma_cleared_within(node.blocks, node.blocks, path, 0);
    processing::path_is_in_the_tree(node.blocks, tip);
    if let Ok(segment) = processing::candidate(node.blocks, tip) {
        let start = node.pass_start(segment, reads);
        let ctx = node.pass_view(segment, reads, vote_failure, holds);
        derivation_spends_within_the_candidate(node.blocks, start, ctx, segment.len(), None);
        retry_laws::lemma_walk_nodes(start, ctx, segment.len(), None);
        let d = walk::segment_derived(start, ctx, segment.len(), None).0;
        lemma_cleared_within(node.blocks, d.blocks, segment, 0);
    }
}

/// A second pass over the same candidate, with the same blocks read back, gives
/// the same result and leaves the node in the same state as the first.
pub proof fn second_pass_repeats_the_first(
    node: NodeView,
    tip: u32,
    reads: Seq<Option<ChainBlock>>,
    vote_failure: Option<(int, VoteEngineError)>,
    holds: spec_fn(CheckView) -> bool,
)
    requires
        node.blocks.len() <= NONE_REF,
    ensures
        ({
            let first = node.passed(tip, reads, vote_failure, holds);
            first.node.passed(tip, reads, vote_failure, holds) == first
        }),
{
    lemma_passed(node, tip, reads, vote_failure, holds);
    passes_start_clean(
        node,
        node.passed(tip, reads, vote_failure, holds).node,
        tip,
        reads,
        vote_failure,
        holds,
    );
}

/// So does a pass after one whose signatures were verified, whatever the verdicts
/// were.
pub proof fn pass_after_verdicts_repeats_the_first(
    node: NodeView,
    tip: u32,
    reads: Seq<Option<ChainBlock>>,
    vote_failure: Option<(int, VoteEngineError)>,
    holds: spec_fn(CheckView) -> bool,
    verdicts: Seq<bool>,
)
    requires
        node.blocks.len() <= NONE_REF,
    ensures
        ({
            let first = node.passed(tip, reads, vote_failure, holds);
            let settled = first.node.settled(
                first.segment,
                first.checks,
                first.failure,
                verdicts,
            ).0;
            settled.passed(tip, reads, vote_failure, holds) == first
        }),
{
    let first = node.passed(tip, reads, vote_failure, holds);
    let settled = first.node.settled(first.segment, first.checks, first.failure, verdicts).0;
    lemma_passed(node, tip, reads, vote_failure, holds);
    processing::path_is_in_the_tree(node.blocks, tip);
    let path = processing::candidate_path(node.blocks, tip);
    if first.segment.len() > 0 {
        assert(first.segment == path);
        lemma_cleared_within(node.blocks, first.node.blocks, path, 0);
    }
    assert(same_but_derived(node, settled, tip));
    passes_start_clean(node, settled, tip, reads, vote_failure, holds);
}

} // verus!
