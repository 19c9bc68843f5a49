//! What a failed pass leaves behind, and why what survives it passes the next
//! time.

use vstd::prelude::*;

use crate::api::NodeView;
use crate::block_data::{
    BlockPayload, ChainBlock, NodeBalance, Transaction, TransactionBody, TransactionInput,
    TransactionOutput, PAYLOAD_TYPE_BALANCE, PAYLOAD_TYPE_CHAIN_CONFIG,
};
use crate::blocks as tree;
use crate::blocks::{BlockEntry, NONE_REF};
use crate::coherence as fit;
use crate::coherence_laws as laws;
use crate::collecting_laws as collecting;
use crate::derivation as walk;
use crate::derivation::{
    BlockContext, CheckView, ComplexStep, Derivation, PassView, ProcessingError, Step,
    VoteEngineError,
};
use crate::hash::BlockHash;
use crate::node_info::InfoView;
use crate::processing;
use crate::recovery;

verus! {

// -- Two walks over the same blocks ------------------------------------------

/// The candidate without its uppermost `cut` blocks.
pub open spec fn cut_short(ctx: PassView, cut: int) -> PassView {
    PassView { marked: ctx.marked.skip(cut), reads: ctx.reads.skip(cut), ..ctx }
}

/// The two trees hold the blocks of the candidate below its uppermost `cut`, with
/// the same outputs spent; the uppermost ones stand at `bound` or higher.
spec fn mates(
    one: Seq<BlockEntry>,
    two: Seq<BlockEntry>,
    ctx: PassView,
    cut: int,
    bound: u32,
) -> bool {
    &&& forall|k: int|
        cut <= k < ctx.marked.len() ==> {
            &&& tree::present(one, #[trigger] ctx.marked[k])
            &&& tree::present(two, ctx.marked[k])
            &&& one[ctx.marked[k] as int].sequence == two[ctx.marked[k] as int].sequence
            &&& one[ctx.marked[k] as int].spent_bits == two[ctx.marked[k] as int].spent_bits
        }
    &&& forall|k: int|
        0 <= k < cut && tree::present(one, #[trigger] ctx.marked[k]) ==> one[ctx.marked[k] as int].sequence
            >= bound
}

/// The two walks stand at the same point.
spec fn twins(d1: Derivation, d2: Derivation, ctx: PassView, cut: int, bound: u32) -> bool {
    &&& d2 == (Derivation { blocks: d2.blocks, ..d1 })
    &&& mates(d1.blocks, d2.blocks, ctx, cut, bound)
}

spec fn twin_steps(s1: Step, s2: Step, ctx: PassView, cut: int, bound: u32) -> bool {
    &&& twins(s1.d, s2.d, ctx, cut, bound)
    &&& s1.fees == s2.fees
    &&& s1.broken == s2.broken
}

spec fn twin_complex(c1: ComplexStep, c2: ComplexStep, ctx: PassView, cut: int, bound: u32) -> bool {
    &&& twins(c1.d, c2.d, ctx, cut, bound)
    &&& c2 == (ComplexStep { d: c2.d, ..c1 })
}

/// The search for an output passes over the blocks that are not below the one
/// that spends it.
proof fn lemma_search_skips(
    blocks: Seq<BlockEntry>,
    ctx: PassView,
    cut: int,
    sequence: u32,
    tr_hash: BlockHash,
    output_index: u8,
    from: int,
)
    requires
        0 <= from <= cut <= ctx.marked.len(),
        forall|k: int|
            0 <= k < cut && tree::present(blocks, #[trigger] ctx.marked[k])
                ==> blocks[ctx.marked[k] as int].sequence >= sequence,
    ensures
        walk::output_spent(blocks, ctx, sequence, tr_hash, output_index, from)
            == walk::output_spent(blocks, ctx, sequence, tr_hash, output_index, cut),
    decreases cut - from,
{
    if from < cut {
        assert(tree::present(blocks, ctx.marked[from]) ==> blocks[ctx.marked[from] as int].sequence
            >= sequence);
        lemma_search_skips(blocks, ctx, cut, sequence, tr_hash, output_index, from + 1);
    }
}

proof fn lemma_output_twins(
    one: Seq<BlockEntry>,
    two: Seq<BlockEntry>,
    ctx: PassView,
    cut: int,
    bound: u32,
    sequence: u32,
    tr_hash: BlockHash,
    output_index: u8,
    from: int,
)
    requires
        0 <= cut <= from <= ctx.marked.len(),
        ctx.reads.len() == ctx.marked.len(),
        mates(one, two, ctx, cut, bound),
    ensures
        ({
            let (after1, failure1) = walk::output_spent(
                one,
                ctx,
                sequence,
                tr_hash,
                output_index,
                from,
            );
            let (after2, failure2) = walk::output_spent(
                two,
                cut_short(ctx, cut),
                sequence,
                tr_hash,
                output_index,
                from - cut,
            );
            &&& failure1 == failure2
            &&& mates(after1, after2, ctx, cut, bound)
        }),
    decreases ctx.marked.len() - from,
{
    if from < ctx.marked.len() {
        let short = cut_short(ctx, cut);
        assert(short.marked[from - cut] == ctx.marked[from]);
        assert(short.reads[from - cut] == ctx.reads[from]);
        lemma_output_twins(
            one,
            two,
            ctx,
            cut,
            bound,
            sequence,
            tr_hash,
            output_index,
            from + 1,
        );
    }
}

proof fn lemma_inputs_twins(
    c1: ComplexStep,
    c2: ComplexStep,
    ctx: PassView,
    cut: int,
    bound: u32,
    at: BlockContext,
    vote: u32,
    inputs: Seq<TransactionInput>,
    from: int,
)
    requires
        0 <= cut <= ctx.marked.len(),
        ctx.reads.len() == ctx.marked.len(),
        at.sequence <= bound,
        twin_complex(c1, c2, ctx, cut, bound),
    ensures
        twin_complex(
            walk::inputs_applied(c1, ctx, at, vote, inputs, from),
            walk::inputs_applied(c2, cut_short(ctx, cut), at, vote, inputs, from),
            ctx,
            cut,
            bound,
        ),
    decreases inputs.len() - from,
{
    if c1.broken is None && 0 <= from < inputs.len() {
        let short = cut_short(ctx, cut);
        let n1 = walk::input_applied(c1, ctx, at, vote, inputs[from]);
        let n2 = walk::input_applied(c2, short, at, vote, inputs[from]);
        if let TransactionInput::Utxo { tr_hash, output_index } = inputs[from] {
            lemma_search_skips(c1.d.blocks, ctx, cut, at.sequence, tr_hash, output_index, 0);
            lemma_output_twins(
                c1.d.blocks,
                c2.d.blocks,
                ctx,
                cut,
                bound,
                at.sequence,
                tr_hash,
                output_index,
                cut,
            );
        }
        assert(twin_complex(n1, n2, ctx, cut, bound));
        lemma_inputs_twins(n1, n2, ctx, cut, bound, at, vote, inputs, from + 1);
    }
}

proof fn lemma_outputs_twins(
    c1: ComplexStep,
    c2: ComplexStep,
    ctx: PassView,
    cut: int,
    bound: u32,
    at: BlockContext,
    outputs: Seq<TransactionOutput>,
    from: int,
)
    requires
        twin_complex(c1, c2, ctx, cut, bound),
    ensures
        twin_complex(
            walk::outputs_applied(c1, ctx, at, outputs, from),
            walk::outputs_applied(c2, cut_short(ctx, cut), at, outputs, from),
            ctx,
            cut,
            bound,
        ),
    decreases outputs.len() - from,
{
    if c1.broken is None && 0 <= from < outputs.len() {
        let n1 = walk::output_applied(c1, ctx, at, outputs[from]);
        let n2 = walk::output_applied(c2, cut_short(ctx, cut), at, outputs[from]);
        assert(twin_complex(n1, n2, ctx, cut, bound));
        lemma_outputs_twins(n1, n2, ctx, cut, bound, at, outputs, from + 1);
    }
}

proof fn lemma_transactions_twins(
    s1: Step,
    s2: Step,
    ctx: PassView,
    cut: int,
    bound: u32,
    at: BlockContext,
    txs: Seq<Transaction>,
    from: int,
)
    requires
        0 <= cut <= ctx.marked.len(),
        ctx.reads.len() == ctx.marked.len(),
        at.sequence <= bound,
        twin_steps(s1, s2, ctx, cut, bound),
    ensures
        twin_steps(
            walk::transactions_applied(s1, ctx, at, txs, from),
            walk::transactions_applied(s2, cut_short(ctx, cut), at, txs, from),
            ctx,
            cut,
            bound,
        ),
    decreases txs.len() - from,
{
    if s1.broken is None && 0 <= from < txs.len() {
        lemma_transaction_twins(s1, s2, ctx, cut, bound, at, txs[from]);
        lemma_transactions_twins(
            walk::transaction_applied(s1, ctx, at, txs[from]),
            walk::transaction_applied(s2, cut_short(ctx, cut), at, txs[from]),
            ctx,
            cut,
            bound,
            at,
            txs,
            from + 1,
        );
    }
}

proof fn lemma_transaction_twins(
    s1: Step,
    s2: Step,
    ctx: PassView,
    cut: int,
    bound: u32,
    at: BlockContext,
    tx: Transaction,
)
    requires
        0 <= cut <= ctx.marked.len(),
        ctx.reads.len() == ctx.marked.len(),
        at.sequence <= bound,
        twin_steps(s1, s2, ctx, cut, bound),
    ensures
        twin_steps(
            walk::transaction_applied(s1, ctx, at, tx),
            walk::transaction_applied(s2, cut_short(ctx, cut), at, tx),
            ctx,
            cut,
            bound,
        ),
{
    if let TransactionBody::Complex(cx) = tx.body {
        let c1 = walk::complex_start(s1.d);
        let c2 = walk::complex_start(s2.d);
        let short = cut_short(ctx, cut);
        lemma_inputs_twins(c1, c2, ctx, cut, bound, at, tx.vote, cx.inputs@, 0);
        lemma_outputs_twins(
            walk::inputs_applied(c1, ctx, at, tx.vote, cx.inputs@, 0),
            walk::inputs_applied(c2, short, at, tx.vote, cx.inputs@, 0),
            ctx,
            cut,
            bound,
            at,
            cx.outputs@,
            0,
        );
    }
}

/// One block of the walk.
proof fn lemma_block_twins(
    d1: Derivation,
    d2: Derivation,
    ctx: PassView,
    cut: int,
    bound: u32,
    block: ChainBlock,
    idx: u32,
    position: int,
    prev_hash: Option<BlockHash>,
)
    requires
        0 <= cut <= ctx.marked.len(),
        ctx.reads.len() == ctx.marked.len(),
        block.sequence <= bound,
        twins(d1, d2, ctx, cut, bound),
    ensures
        ({
            let (next1, failure1) = walk::block_derived(d1, ctx, block, idx, position, prev_hash);
            let (next2, failure2) = walk::block_derived(
                d2,
                cut_short(ctx, cut),
                block,
                idx,
                position,
                prev_hash,
            );
            &&& failure1 == failure2
            &&& twins(next1, next2, ctx, cut, bound)
        }),
{
    let short = cut_short(ctx, cut);
    let at = BlockContext { sequence: block.sequence, idx };
    let (h1, f1) = walk::header_checked(d1, ctx, block, idx, prev_hash);
    let (h2, f2) = walk::header_checked(d2, short, block, idx, prev_hash);
    assert(f1 == f2 && twins(h1, h2, ctx, cut, bound));
    let s1 = Step { d: h1, fees: 0, broken: None };
    let s2 = Step { d: h2, fees: 0, broken: None };
    if let BlockPayload::Transactions(txs) = block.payload {
        lemma_transactions_twins(s1, s2, ctx, cut, bound, at, txs@, 0);
    }
    assert(twin_steps(
        walk::payload_applied(s1, ctx, at, block),
        walk::payload_applied(s2, short, at, block),
        ctx,
        cut,
        bound,
    ));
}

/// The walk that fails at the block below which the candidate is cut has passed
/// over the blocks below that one, and the walk over those alone does so too.
proof fn lemma_walk_twins(
    d1: Derivation,
    d2: Derivation,
    ctx: PassView,
    cut: int,
    bound: u32,
    left: nat,
    prev_hash: Option<BlockHash>,
)
    requires
        0 < cut <= left <= ctx.marked.len(),
        ctx.reads.len() == ctx.marked.len(),
        ctx.marked.no_duplicates(),
        forall|k: int|
            cut <= k < ctx.reads.len() && (#[trigger] ctx.reads[k]) is Some ==> (
            ctx.reads[k]->0).sequence <= bound,
        twins(d1, d2, ctx, cut, bound),
        walk::segment_derived(d1, ctx, left, prev_hash).1 matches Some(
            ProcessingError::Invalid { block_idx, reason },
        ) && block_idx == ctx.marked[cut - 1],
    ensures
        walk::segment_derived(d2, cut_short(ctx, cut), (left - cut) as nat, prev_hash).1 is None,
    decreases left,
{
    if left > cut {
        let i = left - 1;
        let short = cut_short(ctx, cut);
        assert(short.marked[i - cut] == ctx.marked[i]);
        assert(short.reads[i - cut] == ctx.reads[i]);
        assert(ctx.marked[i] != ctx.marked[cut - 1]);
        let block = ctx.reads[i]->0;
        lemma_block_twins(
            d1,
            d2,
            ctx,
            cut,
            bound,
            block,
            ctx.marked[i],
            ctx.marked.len() - left,
            prev_hash,
        );
        lemma_walk_twins(
            walk::block_derived(
                d1,
                ctx,
                block,
                ctx.marked[i],
                ctx.marked.len() - left,
                prev_hash,
            ).0,
            walk::block_derived(
                d2,
                short,
                block,
                ctx.marked[i],
                ctx.marked.len() - left,
                prev_hash,
            ).0,
            ctx,
            cut,
            bound,
            i as nat,
            Some(block.hash),
        );
    }
}

// -- What a failed pass leaves -----------------------------------------------

/// Clearing spent bits clears those of every block it is asked to.
pub(crate) proof fn lemma_cleared(s: Seq<BlockEntry>, segment: Seq<u32>, from: int)
    requires
        0 <= from,
    ensures
        ({
            let after = processing::spent_cleared(s, segment, from);
            &&& after.len() == s.len()
            &&& forall|i: int|
                0 <= i < s.len() ==> #[trigger] after[i] == s[i] || after[i] == s[i].unspent()
            &&& forall|k: int|
                from <= k < segment.len() && tree::present(s, #[trigger] segment[k])
                    ==> after[segment[k] as int] == s[segment[k] as int].unspent()
        }),
    decreases segment.len() - from,
{
    if from < segment.len() {
        let idx = segment[from];
        let next = tree::revised(s, idx, s[idx as int].unspent());
        lemma_cleared(next, segment, from + 1);
        let after = processing::spent_cleared(s, segment, from);
        assert forall|i: int| 0 <= i < s.len() implies #[trigger] after[i] == s[i] || after[i]
            == s[i].unspent() by {
            assert(after[i] == next[i] || after[i] == next[i].unspent());
        }
        assert forall|k: int|
            from <= k < segment.len() && tree::present(
                s,
                #[trigger] segment[k],
            ) implies after[segment[k] as int] == s[segment[k] as int].unspent() by {
            let i = segment[k] as int;
            assert(tree::present(next, segment[k]));
            if k == from {
                assert(after[i] == next[i] || after[i] == next[i].unspent());
            }
        }
    }
}

/// A pass that fails, for whatever reason, leaves no output spent of any block on
/// the way down from its tip.
pub proof fn failed_pass_leaves_nothing_spent(
    node: NodeView,
    tip: u32,
    reads: Seq<Option<ChainBlock>>,
    vote_failure: Option<(int, VoteEngineError)>,
    verdicts: Seq<bool>,
)
    ensures
        ({
            let pass = node.passed(tip, reads, vote_failure, walk::all_hold());
            let (after, outcome) = pass.node.settled(
                pass.segment,
                pass.checks,
                pass.failure,
                verdicts,
            );
            let path = processing::candidate_path(node.blocks, tip);
            outcome is Some ==> forall|k: int|
                0 <= k < path.len() ==> after.blocks[#[trigger] path[k] as int]
                    == node.blocks[path[k] as int].unspent()
        }),
{
    let pass = node.passed(tip, reads, vote_failure, walk::all_hold());
    processing::path_is_in_the_tree(node.blocks, tip);
    if processing::candidate(node.blocks, tip) is Err {
        lemma_cleared(node.blocks, processing::candidate_path(node.blocks, tip), 0);
    }
    if let Ok(segment) = processing::candidate(node.blocks, tip) {
        let (after, outcome) = pass.node.settled(
            pass.segment,
            pass.checks,
            pass.failure,
            verdicts,
        );
        let start = node.pass_start(segment, reads);
        let ctx = node.pass_view(segment, reads, vote_failure, walk::all_hold());
        let d = walk::segment_derived(start, ctx, segment.len(), None).0;
        processing::candidate_is_in_the_tree(node.blocks, tip);
        processing::clearing_only_spends(node.blocks, node.blocks, segment, 0);
        processing::derivation_only_spends(node.blocks, start, ctx, segment.len(), None);
        processing::pass_only_spends(node, tip, reads, vote_failure, walk::all_hold());
        processing::spending_keeps_blocks(node.blocks, pass.node.blocks);
        processing::spending_keeps_blocks(node.blocks, d.blocks);
        lemma_cleared(node.blocks, segment, 0);
        lemma_cleared(d.blocks, segment, 0);
        lemma_cleared(pass.node.blocks, segment, 0);
        if outcome is Some {
            assert forall|k: int| 0 <= k < segment.len() implies after.blocks[
                #[trigger] segment[k] as int
            ] == node.blocks[segment[k] as int].unspent() by {
                let i = segment[k] as int;
                assert(tree::present(node.blocks, segment[k]));
                assert(tree::present(d.blocks, segment[k]));
                assert(tree::present(pass.node.blocks, segment[k]));
                assert(d.blocks[i].unspent() == node.blocks[i].unspent());
                assert(pass.node.blocks[i].unspent() == node.blocks[i].unspent());
            }
        }
    }
}

// -- The retry ---------------------------------------------------------------

/// Where the lowest block of a kind stands does not change when the candidate is
/// cut above it; cut below it, there is none left.
proof fn lemma_last_of_kind(
    one: Seq<BlockEntry>,
    two: Seq<BlockEntry>,
    segment: Seq<u32>,
    cut: int,
    kind: u8,
    end: nat,
)
    requires
        0 <= cut <= end <= segment.len(),
        forall|k: int|
            cut <= k < segment.len() ==> one[#[trigger] segment[k] as int].kind()
                == two[segment[k] as int].kind(),
    ensures
        processing::last_of_kind(two, segment.skip(cut), kind, (end - cut) as nat) == match (
        processing::last_of_kind(one, segment, kind, end)) {
            Some(at) => if at >= cut {
                Some(at - cut)
            } else {
                None
            },
            None => None,
        },
    decreases end,
{
    if end > cut {
        assert(segment.skip(cut)[end - 1 - cut] == segment[end - 1]);
        assert(one[segment[end - 1] as int].kind() == two[segment[end - 1] as int].kind());
        lemma_last_of_kind(one, two, segment, cut, kind, (end - 1) as nat);
    } else {
        lemma_last_in_range(one, segment, kind, end);
    }
}

proof fn lemma_last_in_range(s: Seq<BlockEntry>, segment: Seq<u32>, kind: u8, end: nat)
    ensures
        processing::last_of_kind(s, segment, kind, end) matches Some(at) ==> 0 <= at < end,
    decreases end,
{
    if end > 0 {
        lemma_last_in_range(s, segment, kind, (end - 1) as nat);
    }
}

/// A whole segment is the candidate of its uppermost block.
proof fn lemma_whole_is_candidate(
    s: Seq<BlockEntry>,
    segment: Seq<u32>,
    from: int,
    steps: nat,
    above: Seq<u32>,
)
    requires
        0 <= from < segment.len(),
        steps >= segment.len() - from,
        above == segment.take(from),
        forall|k: int| from <= k < segment.len() ==> tree::present(s, #[trigger] segment[k]),
        forall|k: int|
            from <= k < segment.len() - 1 ==> s[#[trigger] segment[k] as int].parent_ref != NONE_REF
                && s[segment[k] as int].parent_ref == segment[k + 1],
        s[segment.last() as int].parent_ref == NONE_REF,
    ensures
        processing::segment_below(s, segment[from], steps, above) == Ok::<
            Seq<u32>,
            ProcessingError,
        >(segment),
    decreases segment.len() - from,
{
    assert(tree::present(s, segment[from]));
    assert(above.push(segment[from]) =~= segment.take(from + 1));
    if from < segment.len() - 1 {
        lemma_whole_is_candidate(
            s,
            segment,
            from + 1,
            (steps - 1) as nat,
            above.push(segment[from]),
        );
    } else {
        assert(segment.take(from + 1) =~= segment);
    }
}

proof fn lemma_entries_nodes(
    info: InfoView,
    entries: Seq<NodeBalance>,
    idx: u32,
    from: int,
)
    ensures
        walk::entries_seeded(info, entries, idx, from).seeds.len() == info.seeds.len(),
    decreases entries.len() - from,
{
    if 0 <= from < entries.len() {
        lemma_entries_nodes(
            info.with_node(
                entries[from].owner,
                entries[from].public_key@,
                entries[from].balance,
                idx,
            ),
            entries,
            idx,
            from + 1,
        );
    }
}

proof fn lemma_inputs_nodes(
    c: ComplexStep,
    ctx: PassView,
    at: BlockContext,
    vote: u32,
    inputs: Seq<TransactionInput>,
    from: int,
)
    ensures
        walk::inputs_applied(c, ctx, at, vote, inputs, from).d.info.seeds.len()
            == c.d.info.seeds.len(),
    decreases inputs.len() - from,
{
    if c.broken is None && 0 <= from < inputs.len() {
        lemma_inputs_nodes(
            walk::input_applied(c, ctx, at, vote, inputs[from]),
            ctx,
            at,
            vote,
            inputs,
            from + 1,
        );
    }
}

proof fn lemma_outputs_nodes(
    c: ComplexStep,
    ctx: PassView,
    at: BlockContext,
    outputs: Seq<TransactionOutput>,
    from: int,
)
    ensures
        walk::outputs_applied(c, ctx, at, outputs, from).d.info.seeds.len()
            == c.d.info.seeds.len(),
    decreases outputs.len() - from,
{
    if c.broken is None && 0 <= from < outputs.len() {
        lemma_outputs_nodes(
            walk::output_applied(c, ctx, at, outputs[from]),
            ctx,
            at,
            outputs,
            from + 1,
        );
    }
}

proof fn lemma_transactions_nodes(
    s: Step,
    ctx: PassView,
    at: BlockContext,
    txs: Seq<Transaction>,
    from: int,
)
    ensures
        walk::transactions_applied(s, ctx, at, txs, from).d.info.seeds.len()
            == s.d.info.seeds.len(),
    decreases txs.len() - from,
{
    if s.broken is None && 0 <= from < txs.len() {
        let next = walk::transaction_applied(s, ctx, at, txs[from]);
        if let TransactionBody::Complex(cx) = txs[from].body {
            let start = walk::complex_start(s.d);
            let vote = txs[from].vote;
            lemma_inputs_nodes(start, ctx, at, vote, cx.inputs@, 0);
            lemma_outputs_nodes(
                walk::inputs_applied(start, ctx, at, vote, cx.inputs@, 0),
                ctx,
                at,
                cx.outputs@,
                0,
            );
        }
        assert(next.d.info.seeds.len() == s.d.info.seeds.len());
        lemma_transactions_nodes(next, ctx, at, txs, from + 1);
    }
}

/// The walk knows of as many node ids as it started with.
pub(crate) proof fn lemma_walk_nodes(d: Derivation, ctx: PassView, left: nat, prev_hash: Option<BlockHash>)
    ensures
        walk::segment_derived(d, ctx, left, prev_hash).0.info.seeds.len() == d.info.seeds.len(),
    decreases left,
{
    if left > 0 && ctx.reads[left - 1] is Some {
        let block = ctx.reads[left - 1]->0;
        let idx = ctx.marked[left - 1];
        let at = BlockContext { sequence: block.sequence, idx };
        let checked = walk::header_checked(d, ctx, block, idx, prev_hash).0;
        let start = Step { d: checked, fees: 0, broken: None };
        match block.payload {
            BlockPayload::Transactions(txs) => {
                lemma_transactions_nodes(start, ctx, at, txs@, 0);
            },
            BlockPayload::Balances(payload) => {
                let counted = if payload.max_node_id > checked.info.max_known_node_id {
                    checked.info.with_watermark(payload.max_node_id)
                } else {
                    checked.info
                };
                lemma_entries_nodes(counted, payload.entries@, idx, 0);
            },
            _ => {},
        }
        let next = walk::block_derived(
            d,
            ctx,
            block,
            idx,
            ctx.marked.len() - left,
            prev_hash,
        ).0;
        assert(next.info.seeds.len() == d.info.seeds.len());
        lemma_walk_nodes(next, ctx, (left - 1) as nat, Some(block.hash));
    }
}

/// What was read back stands at the sequences that the tree has recorded.
pub open spec fn reads_match(
    s: Seq<BlockEntry>,
    segment: Seq<u32>,
    reads: Seq<Option<ChainBlock>>,
) -> bool {
    &&& reads.len() == segment.len()
    &&& forall|k: int|
        0 <= k < segment.len() && (#[trigger] reads[k]) is Some ==> (reads[k]->0).sequence
            == s[segment[k] as int].sequence
}

/// Whether the lowest block of the kind, if the candidate has one, stands below
/// its uppermost `cut` blocks.
pub open spec fn lowest_survives(
    s: Seq<BlockEntry>,
    segment: Seq<u32>,
    kind: u8,
    cut: int,
) -> bool {
    processing::last_of_kind(s, segment, kind, segment.len()) matches Some(at) ==> at >= cut
}

/// The blocks of a candidate are distinct, and stand one below the other.
proof fn lemma_segment_shape(s: Seq<BlockEntry>, prev: Seq<BlockHash>, active_head: u32, tip: u32)
    requires
        fit::linked(s, prev),
        fit::marked(s, active_head),
        tree::present(s, tip),
    ensures
        processing::candidate(s, tip) matches Ok(segment) && {
            &&& collecting::whole(s, segment, 0)
            &&& segment.no_duplicates()
        },
{
    fit::lemma_below_bound(s, s[tip as int].sequence as int);
    collecting::lemma_whole(s, prev, active_head, tip, s.len(), Seq::empty());
    let segment = processing::candidate(s, tip)->Ok_0;
    assert forall|i: int, j: int|
        0 <= i < segment.len() && 0 <= j < segment.len() && i != j implies segment[i]
        != segment[j] by {
        assert(s[segment[i] as int].sequence != s[segment[j] as int].sequence);
    }
}

/// Deleting a block of the candidate leaves those below it as they were.
proof fn lemma_below_survive(
    s: Seq<BlockEntry>,
    spent: Seq<BlockEntry>,
    after: Seq<BlockEntry>,
    prev: Seq<BlockHash>,
    segment: Seq<u32>,
    at: int,
    k: int,
)
    requires
        processing::spending_only(s, spent),
        fit::linked(spent, prev),
        collecting::whole(s, segment, 0),
        0 <= at < k < segment.len(),
        recovery::exactly_without(spent, after, segment[at]),
    ensures
        tree::present(s, segment[k]),
        tree::present(after, segment[k]),
        tree::same_block(s[segment[k] as int], after[segment[k] as int]),
        after[segment[k] as int].parent_ref == s[segment[k] as int].parent_ref,
        s[segment[k] as int].sequence < s[segment[at] as int].sequence,
{
    let target = segment[at];
    let idx = segment[k];
    processing::spending_keeps_blocks(s, spent);
    assert(tree::present(s, idx));
    assert(tree::present(s, target));
    assert(tree::present(spent, idx));
    assert(spent[idx as int].unspent() == s[idx as int].unspent());
    assert(spent[target as int].unspent() == s[target as int].unspent());
    if tree::descends(spent, idx, target, spent.len()) {
        fit::lemma_descends_lower(spent, prev, idx, target, spent.len());
    }
    assert(tree::present(after, idx));
}

/// What is left below the deleted block.
spec fn survivors(
    s: Seq<BlockEntry>,
    after: Seq<BlockEntry>,
    segment: Seq<u32>,
    at: int,
) -> bool {
    &&& forall|k: int|
        at < k < segment.len() ==> {
            &&& tree::present(s, #[trigger] segment[k])
            &&& tree::present(after, segment[k])
            &&& tree::same_block(s[segment[k] as int], after[segment[k] as int])
            &&& s[segment[k] as int].sequence < s[segment[at] as int].sequence
        }
    &&& forall|k: int|
        0 <= k <= at ==> s[#[trigger] segment[k] as int].sequence
            >= s[segment[at] as int].sequence
}

/// After a recovery, the blocks below the deleted one are still in the tree, and
/// they are the candidate of the uppermost of them.
proof fn lemma_survivors(
    s: Seq<BlockEntry>,
    spent: Seq<BlockEntry>,
    after: Seq<BlockEntry>,
    prev: Seq<BlockHash>,
    segment: Seq<u32>,
    at: int,
)
    requires
        s.len() <= NONE_REF,
        processing::spending_only(s, spent),
        fit::linked(spent, prev),
        collecting::whole(s, segment, 0),
        segment.no_duplicates(),
        0 <= at < segment.len() - 1,
        recovery::exactly_without(spent, after, segment[at]),
    ensures
        survivors(s, after, segment, at),
        processing::candidate(after, segment[at + 1]) == Ok::<Seq<u32>, ProcessingError>(
            segment.skip(at + 1),
        ),
{
    let cut = at + 1;
    assert forall|k: int| at < k < segment.len() implies {
        &&& tree::present(s, #[trigger] segment[k])
        &&& tree::present(after, segment[k])
        &&& tree::same_block(s[segment[k] as int], after[segment[k] as int])
        &&& after[segment[k] as int].parent_ref == s[segment[k] as int].parent_ref
        &&& s[segment[k] as int].sequence < s[segment[at] as int].sequence
    } by {
        lemma_below_survive(s, spent, after, prev, segment, at, k);
    }
    let rest = segment.skip(cut);
    assert forall|k: int| 0 <= k < rest.len() implies tree::present(
        after,
        #[trigger] rest[k],
    ) by {
        assert(rest[k] == segment[cut + k]);
    }
    assert forall|k: int| 0 <= k < rest.len() - 1 implies after[
        #[trigger] rest[k] as int
    ].parent_ref != NONE_REF && after[rest[k] as int].parent_ref == rest[k + 1] by {
        assert(rest[k] == segment[cut + k]);
        assert(rest[k + 1] == segment[cut + k + 1]);
        assert(tree::present(s, segment[cut + k + 1]));
    }
    assert(rest.last() == segment.last());
    assert(after[segment[segment.len() - 1] as int].parent_ref == NONE_REF);
    lemma_distinct_fit(s, segment);
    assert(Seq::<u32>::empty() =~= rest.take(0));
    lemma_whole_is_candidate(after, rest, 0, after.len(), Seq::empty());
}

/// A candidate has no more blocks than the tree has slots.
proof fn lemma_distinct_fit(s: Seq<BlockEntry>, segment: Seq<u32>)
    requires
        segment.no_duplicates(),
        forall|k: int| 0 <= k < segment.len() ==> tree::present(s, #[trigger] segment[k]),
    ensures
        segment.len() <= s.len(),
{
    let slots = Seq::new(segment.len(), |k: int| segment[k] as int);
    assert(slots.no_duplicates()) by {
        assert forall|i: int, j: int| 0 <= i < slots.len() && 0 <= j < slots.len() && i
            != j implies slots[i] != slots[j] by {
            assert(segment[i] != segment[j]);
        }
    }
    slots.unique_seq_to_set();
    vstd::set_lib::lemma_int_range(0, s.len() as int);
    assert(slots.to_set().subset_of(vstd::set_lib::set_int_range(0, s.len() as int))) by {
        assert forall|i: int| slots.to_set().contains(i) implies vstd::set_lib::set_int_range(
            0,
            s.len() as int,
        ).contains(i) by {
            let k = choose|k: int| 0 <= k < slots.len() && slots[k] == i;
            assert(tree::present(s, segment[k]));
        }
    }
    vstd::set_lib::lemma_len_subset(
        slots.to_set(),
        vstd::set_lib::set_int_range(0, s.len() as int),
    );
}

/// The candidate that is left is walked under the same conditions.
proof fn lemma_same_view(
    node: NodeView,
    after: NodeView,
    segment: Seq<u32>,
    reads: Seq<Option<ChainBlock>>,
    vote_failure: Option<(int, VoteEngineError)>,
    holds: spec_fn(CheckView) -> bool,
    at: int,
)
    requires
        0 <= at < segment.len() - 1,
        reads.len() == segment.len(),
        survivors(node.blocks, after.blocks, segment, at),
        after.config == node.config,
        after.anchor_key == node.anchor_key,
        after.registration_size == node.registration_size,
        after.info.seeds.len() == node.info.seeds.len(),
        lowest_survives(node.blocks, segment, PAYLOAD_TYPE_CHAIN_CONFIG, at + 1),
        node.genesis_anchored(segment) || lowest_survives(
            node.blocks,
            segment,
            PAYLOAD_TYPE_BALANCE,
            at + 1,
        ),
    ensures
        ({
            let rest = segment.skip(at + 1);
            let rest_reads = reads.skip(at + 1);
            &&& after.pass_view(rest, rest_reads, vote_failure, holds) == cut_short(
                node.pass_view(segment, reads, vote_failure, holds),
                at + 1,
            )
            &&& after.floored_info(rest, rest_reads) == node.floored_info(segment, reads)
            &&& forall|tip: u32, below: u32|
                #[trigger] node.preload_failure(tip, segment, reads) is None ==> #[trigger]
                    after.preload_failure(below, rest, rest_reads) is None
        }),
{
    let cut = at + 1;
    let rest = segment.skip(cut);
    assert forall|k: int| cut <= k < segment.len() implies node.blocks[
        #[trigger] segment[k] as int
    ].kind() == after.blocks[segment[k] as int].kind() by {
        assert(tree::present(node.blocks, segment[k]));
    }
    lemma_last_of_kind(
        node.blocks,
        after.blocks,
        segment,
        cut,
        PAYLOAD_TYPE_BALANCE,
        segment.len(),
    );
    lemma_last_of_kind(
        node.blocks,
        after.blocks,
        segment,
        cut,
        PAYLOAD_TYPE_CHAIN_CONFIG,
        segment.len(),
    );
    lemma_last_in_range(node.blocks, segment, PAYLOAD_TYPE_BALANCE, segment.len());
    lemma_last_in_range(node.blocks, segment, PAYLOAD_TYPE_CHAIN_CONFIG, segment.len());
    assert(rest.last() == segment.last());
    assert(tree::present(node.blocks, segment[segment.len() - 1]));
    assert(after.genesis_anchored(rest) == node.genesis_anchored(segment));
}

/// Both walks start with the outputs of the surviving blocks unspent.
proof fn lemma_same_start(
    s: Seq<BlockEntry>,
    after: Seq<BlockEntry>,
    ctx: PassView,
    at: int,
)
    requires
        0 <= at < ctx.marked.len() - 1,
        survivors(s, after, ctx.marked, at),
        forall|k: int| 0 <= k < ctx.marked.len() ==> tree::present(s, #[trigger] ctx.marked[k]),
    ensures
        mates(
            processing::spent_cleared(s, ctx.marked, 0),
            processing::spent_cleared(after, ctx.marked.skip(at + 1), 0),
            ctx,
            at + 1,
            s[ctx.marked[at] as int].sequence,
        ),
{
    let segment = ctx.marked;
    let cut = at + 1;
    let rest = segment.skip(cut);
    let one = processing::spent_cleared(s, segment, 0);
    let two = processing::spent_cleared(after, rest, 0);
    lemma_cleared(s, segment, 0);
    lemma_cleared(after, rest, 0);
    assert forall|k: int| cut <= k < segment.len() implies {
        &&& tree::present(one, #[trigger] segment[k])
        &&& tree::present(two, segment[k])
        &&& one[segment[k] as int].sequence == two[segment[k] as int].sequence
        &&& one[segment[k] as int].spent_bits == two[segment[k] as int].spent_bits
    } by {
        assert(tree::present(s, segment[k]));
        assert(rest[k - cut] == segment[k]);
        assert(tree::present(after, rest[k - cut]));
    }
    assert forall|k: int| 0 <= k < cut && tree::present(one, #[trigger] segment[k]) implies one[
    segment[k] as int].sequence >= s[segment[at] as int].sequence by {
        assert(tree::present(s, segment[k]));
    }
}

/// Where a pass condemns a block, the blocks below it pass the next time: the
/// recovery leaves them in the tree as the candidate of the uppermost of them,
/// and the pass over that candidate succeeds. This is so as long as the recovery
/// takes away neither the configuration that the node holds nor the candidate's
/// lowest configuration block, and the candidate either starts at the first
/// block of the chain or keeps its lowest balance block, from which the number
/// of nodes is known.
pub proof fn surviving_blocks_pass_again(
    node: NodeView,
    prev: Seq<BlockHash>,
    tip: u32,
    reads: Seq<Option<ChainBlock>>,
    vote_failure: Option<(int, VoteEngineError)>,
    holds: spec_fn(CheckView) -> bool,
    at: int,
)
    requires
        laws::coherent_node(node, prev),
        tree::present(node.blocks, tip),
        ({
            let pass = node.passed(tip, reads, vote_failure, holds);
            let segment = pass.segment;
            &&& processing::candidate(node.blocks, tip) is Ok
            &&& reads_match(node.blocks, segment, reads)
            &&& node.preload_failure(tip, segment, reads) is None
            &&& 0 <= at < segment.len() - 1
            &&& pass.failure matches Some(error) && error is Invalid && error->block_idx
                == segment[at] && pass.node.recovered(error, tip).config == node.config
            &&& lowest_survives(node.blocks, segment, PAYLOAD_TYPE_CHAIN_CONFIG, at + 1)
            &&& node.genesis_anchored(segment) || lowest_survives(
                node.blocks,
                segment,
                PAYLOAD_TYPE_BALANCE,
                at + 1,
            )
        }),
    ensures
        ({
            let pass = node.passed(tip, reads, vote_failure, holds);
            let after = pass.node.recovered(pass.failure->0, tip);
            let rest = pass.segment.skip(at + 1);
            &&& processing::candidate(after.blocks, rest[0]) == Ok::<Seq<u32>, ProcessingError>(
                rest,
            )
            &&& after.passed(rest[0], reads.skip(at + 1), vote_failure, holds).failure is None
        }),
{
    let pass = node.passed(tip, reads, vote_failure, holds);
    let segment = pass.segment;
    let error = pass.failure->0;
    let after = pass.node.recovered(error, tip);
    let cut = at + 1;
    let rest = segment.skip(cut);
    let ctx = node.pass_view(segment, reads, vote_failure, holds);
    let d1 = node.pass_start(segment, reads);
    let d2 = after.pass_start(rest, reads.skip(cut));
    let bound = node.blocks[segment[at] as int].sequence;
    assert(fit::linked(pass.node.blocks, prev)) by {
        laws::pass_keeps_coherence(node, prev, tip, reads, vote_failure, holds);
    }
    processing::pass_only_spends(node, tip, reads, vote_failure, holds);
    lemma_segment_shape(node.blocks, prev, node.active_head, tip);
    recovery::recovery_is_exact(pass.node, error, tip);
    lemma_survivors(node.blocks, pass.node.blocks, after.blocks, prev, segment, at);
    lemma_walk_nodes(d1, ctx, segment.len(), None);
    lemma_same_view(node, after, segment, reads, vote_failure, holds, at);
    lemma_same_start(node.blocks, after.blocks, ctx, at);
    assert(rest[0] == segment[cut]);
    assert forall|k: int| cut <= k < reads.len() && (#[trigger] reads[k]) is Some implies (
    reads[k]->0).sequence <= bound by {
        assert(tree::present(node.blocks, segment[k]));
    }
    lemma_walk_twins(d1, d2, ctx, cut, bound, segment.len(), None);
}

} // verus!
