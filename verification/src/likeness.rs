//! Trees that differ in branch counts alone are walked alike.

use vstd::prelude::*;

use crate::acquisition;
use crate::block_data::{
    BlockPayload, ChainBlock, Transaction, TransactionBody, TransactionInput, TransactionOutput,
};
use crate::blocks as tree;
use crate::blocks::{BlockEntry, NONE_REF};
use crate::chain_heads as tips;
use crate::derivation as walk;
use crate::derivation::{BlockContext, ComplexStep, Derivation, PassView, Step};
use crate::hash::BlockHash;
use crate::processing;
use crate::recovery;
use crate::spent_bits;
use crate::staged_validation::BlockStatus;

verus! {

/// Whether two slots hold the same block, but for its branch count, or none.
pub open spec fn same_entry(a: BlockEntry, b: BlockEntry) -> bool {
    &&& a.occupied() == b.occupied()
    &&& a.occupied() ==> b == (BlockEntry { head_ref_count: b.head_ref_count, ..a })
}

/// Whether two trees differ in branch counts alone.
pub open spec fn akin(a: Seq<BlockEntry>, b: Seq<BlockEntry>) -> bool {
    &&& a.len() == b.len()
    &&& forall|i: int|
        #![trigger a[i]]
        #![trigger b[i]]
        0 <= i < a.len() ==> same_entry(a[i], b[i])
}

pub(crate) proof fn lemma_counts_only(a: Seq<BlockEntry>, b: Seq<BlockEntry>)
    requires
        tips::counts_only(a, b),
    ensures
        akin(a, b),
{
    assert forall|i: int|
        #![trigger a[i]]
        #![trigger b[i]]
        0 <= i < a.len() implies same_entry(a[i], b[i]) by {
        let x = a[i];
        let y = b[i];
        assert(y.with_count(0) == x.with_count(0));
        assert(y == (BlockEntry { head_ref_count: y.head_ref_count, ..y.with_count(0) }));
        assert(x.with_count(0) == (BlockEntry { head_ref_count: 0, ..x }));
    }
}

/// Likeness goes both ways and carries on.
pub(crate) proof fn lemma_akin(a: Seq<BlockEntry>, b: Seq<BlockEntry>)
    requires
        akin(a, b),
    ensures
        akin(b, a),
        forall|c: Seq<BlockEntry>| #[trigger] akin(b, c) ==> akin(a, c),
        forall|idx: u32| #[trigger] tree::present(a, idx) == tree::present(b, idx),
{
    assert forall|c: Seq<BlockEntry>| #[trigger] akin(b, c) implies akin(a, c) by {
        assert forall|i: int|
            #![trigger a[i]]
            #![trigger c[i]]
            0 <= i < a.len() implies same_entry(a[i], c[i]) by {
            assert(same_entry(a[i], b[i]));
            assert(same_entry(b[i], c[i]));
        }
    }
    assert forall|idx: u32| #[trigger] tree::present(a, idx) == tree::present(b, idx) by {
        if idx < a.len() {
            assert(same_entry(a[idx as int], b[idx as int]));
        }
    }
}

// -- Ways through the tree ---------------------------------------------------

pub(crate) proof fn lemma_ways(
    a: Seq<BlockEntry>,
    b: Seq<BlockEntry>,
    cur: u32,
    steps: nat,
    above: Seq<u32>,
)
    requires
        akin(a, b),
    ensures
        processing::segment_below(a, cur, steps, above) == processing::segment_below(
            b,
            cur,
            steps,
            above,
        ),
        processing::path_below(a, cur, steps, above) == processing::path_below(
            b,
            cur,
            steps,
            above,
        ),
    decreases steps,
{
    if cur < a.len() {
        assert(same_entry(a[cur as int], b[cur as int]));
        if steps > 0 && a[cur as int].parent_ref != NONE_REF {
            lemma_ways(a, b, a[cur as int].parent_ref, (steps - 1) as nat, above.push(cur));
        }
    }
}

pub(crate) proof fn lemma_scan(
    a: Seq<BlockEntry>,
    b: Seq<BlockEntry>,
    cur: u32,
    probe: u32,
    steps: nat,
    first: u32,
    seen: bool,
)
    requires
        akin(a, b),
    ensures
        recovery::config_scan(a, cur, probe, steps, first, seen) == recovery::config_scan(
            b,
            cur,
            probe,
            steps,
            first,
            seen,
        ),
    decreases steps,
{
    if steps > 0 && cur < a.len() {
        assert(same_entry(a[cur as int], b[cur as int]));
        let below = a[cur as int].parent_ref;
        let passed = seen || cur == probe;
        lemma_scan(a, b, below, probe, (steps - 1) as nat, cur, passed);
        lemma_scan(a, b, below, probe, (steps - 1) as nat, first, passed);
    }
}

pub(crate) proof fn lemma_oversized(
    a: Seq<BlockEntry>,
    b: Seq<BlockEntry>,
    cur: u32,
    limit: u16,
    steps: nat,
    offender: Option<u32>,
)
    requires
        akin(a, b),
    ensures
        recovery::oversized(a, cur, limit, steps, offender) == recovery::oversized(
            b,
            cur,
            limit,
            steps,
            offender,
        ),
    decreases steps,
{
    if steps > 0 && cur < a.len() {
        assert(same_entry(a[cur as int], b[cur as int]));
        lemma_oversized(a, b, a[cur as int].parent_ref, limit, (steps - 1) as nat, Some(cur));
        lemma_oversized(a, b, a[cur as int].parent_ref, limit, (steps - 1) as nat, offender);
    }
}

pub(crate) proof fn lemma_kind(
    a: Seq<BlockEntry>,
    b: Seq<BlockEntry>,
    segment: Seq<u32>,
    kind: u8,
    end: nat,
)
    requires
        akin(a, b),
        end <= segment.len(),
        forall|k: int| 0 <= k < segment.len() ==> tree::present(a, #[trigger] segment[k]),
    ensures
        processing::last_of_kind(a, segment, kind, end) == processing::last_of_kind(
            b,
            segment,
            kind,
            end,
        ),
    decreases end,
{
    if end > 0 {
        let idx = segment[end - 1];
        assert(tree::present(a, idx));
        assert(same_entry(a[idx as int], b[idx as int]));
        lemma_kind(a, b, segment, kind, (end - 1) as nat);
    }
}

pub(crate) proof fn lemma_descends(
    a: Seq<BlockEntry>,
    b: Seq<BlockEntry>,
    idx: u32,
    target: u32,
    steps: nat,
)
    requires
        akin(a, b),
    ensures
        tree::descends(a, idx, target, steps) == tree::descends(b, idx, target, steps),
    decreases steps,
{
    if steps > 0 && idx < a.len() {
        assert(same_entry(a[idx as int], b[idx as int]));
        lemma_descends(a, b, a[idx as int].parent_ref, target, (steps - 1) as nat);
    }
}

proof fn lemma_subtree_slots(a: Seq<BlockEntry>, b: Seq<BlockEntry>, target: u32, end: nat)
    requires
        akin(a, b),
    ensures
        tree::subtree_slots(a, target, end) == tree::subtree_slots(b, target, end),
    decreases end,
{
    if end > 0 {
        lemma_descends(a, b, (end - 1) as u32, target, a.len());
        lemma_subtree_slots(a, b, target, (end - 1) as nat);
    }
}

/// The same blocks stand on a block, and the trees without them are alike.
pub(crate) proof fn lemma_subtree(a: Seq<BlockEntry>, b: Seq<BlockEntry>, target: u32)
    requires
        akin(a, b),
    ensures
        tree::subtree(a, target) == tree::subtree(b, target),
        akin(tree::without_subtree(a, target), tree::without_subtree(b, target)),
{
    lemma_subtree_slots(a, b, target, a.len());
    let x = tree::without_subtree(a, target);
    let y = tree::without_subtree(b, target);
    assert forall|i: int|
        #![trigger x[i]]
        #![trigger y[i]]
        0 <= i < x.len() implies same_entry(x[i], y[i]) by {
        lemma_descends(a, b, i as u32, target, a.len());
        assert(same_entry(a[i], b[i]));
    }
}

pub(crate) proof fn lemma_childless(a: Seq<BlockEntry>, b: Seq<BlockEntry>, idx: u32)
    requires
        akin(a, b),
    ensures
        tree::childless(a, idx) == tree::childless(b, idx),
{
    assert forall|i: int| 0 <= i < a.len() && a[i].occupied() implies #[trigger] a[i].parent_ref
        == b[i].parent_ref && b[i].occupied() by {
        assert(same_entry(a[i], b[i]));
    }
    assert forall|i: int| 0 <= i < b.len() && b[i].occupied() implies #[trigger] b[i].parent_ref
        == a[i].parent_ref && a[i].occupied() by {
        assert(same_entry(a[i], b[i]));
    }
}

proof fn lemma_anchor_of(a: Seq<BlockEntry>, b: Seq<BlockEntry>, cur: u32, last: u32, steps: nat)
    requires
        akin(a, b),
    ensures
        tips::anchor_of(a, cur, last, steps) == tips::anchor_of(b, cur, last, steps),
    decreases steps,
{
    if steps > 0 && cur < a.len() {
        assert(same_entry(a[cur as int], b[cur as int]));
        lemma_anchor_of(a, b, a[cur as int].parent_ref, cur, (steps - 1) as nat);
    }
}

/// A branch ends at the same block.
pub(crate) proof fn lemma_anchor(a: Seq<BlockEntry>, b: Seq<BlockEntry>, tip: u32)
    requires
        akin(a, b),
    ensures
        tips::tip_anchor(a, tip) == tips::tip_anchor(b, tip),
{
    lemma_anchor_of(a, b, tip, tip, a.len());
}

// -- Changes of the tree -----------------------------------------------------

pub(crate) proof fn lemma_cleared(a: Seq<BlockEntry>, b: Seq<BlockEntry>, segment: Seq<u32>, from: int)
    requires
        akin(a, b),
    ensures
        akin(
            processing::spent_cleared(a, segment, from),
            processing::spent_cleared(b, segment, from),
        ),
    decreases segment.len() - from,
{
    if 0 <= from < segment.len() {
        let idx = segment[from];
        let x = tree::revised(a, idx, a[idx as int].unspent());
        let y = tree::revised(b, idx, b[idx as int].unspent());
        lemma_akin(a, b);
        assert(tree::present(a, idx) == tree::present(b, idx));
        assert(akin(x, y)) by {
            assert forall|i: int|
                #![trigger x[i]]
                #![trigger y[i]]
                0 <= i < x.len() implies same_entry(x[i], y[i]) by {
                assert(same_entry(a[i], b[i]));
            }
        }
        lemma_cleared(x, y, segment, from + 1);
    }
}

pub(crate) proof fn lemma_all_unspent(a: Seq<BlockEntry>, b: Seq<BlockEntry>)
    requires
        akin(a, b),
    ensures
        akin(acquisition::all_unspent(a), acquisition::all_unspent(b)),
{
    let x = acquisition::all_unspent(a);
    let y = acquisition::all_unspent(b);
    assert forall|i: int|
        #![trigger x[i]]
        #![trigger y[i]]
        0 <= i < x.len() implies same_entry(x[i], y[i]) by {
        assert(same_entry(a[i], b[i]));
    }
}

pub(crate) proof fn lemma_promoted(a: Seq<BlockEntry>, b: Seq<BlockEntry>, cur: u32, steps: nat)
    requires
        akin(a, b),
    ensures
        akin(recovery::promoted(a, cur, steps), recovery::promoted(b, cur, steps)),
    decreases steps,
{
    if steps > 0 && cur < a.len() {
        assert(same_entry(a[cur as int], b[cur as int]));
        let x = a.update(cur as int, a[cur as int].with_stage(BlockStatus::Active).with_active(true));
        let y = b.update(cur as int, b[cur as int].with_stage(BlockStatus::Active).with_active(true));
        assert(akin(x, y)) by {
            assert forall|i: int|
                #![trigger x[i]]
                #![trigger y[i]]
                0 <= i < x.len() implies same_entry(x[i], y[i]) by {
                assert(same_entry(a[i], b[i]));
            }
        }
        lemma_promoted(x, y, a[cur as int].parent_ref, (steps - 1) as nat);
    }
}

proof fn lemma_genesis_slot(a: Seq<BlockEntry>, b: Seq<BlockEntry>, from: int)
    requires
        akin(a, b),
    ensures
        recovery::genesis_slot(a, from) == recovery::genesis_slot(b, from),
    decreases a.len() - from,
{
    if 0 <= from < a.len() {
        assert(same_entry(a[from], b[from]));
        lemma_genesis_slot(a, b, from + 1);
    }
}

pub(crate) proof fn lemma_marking(a: Seq<BlockEntry>, b: Seq<BlockEntry>)
    requires
        akin(a, b),
        a.len() <= NONE_REF,
    ensures
        recovery::genesis_slot(recovery::unmarked(a), 0) == recovery::genesis_slot(
            recovery::unmarked(b),
            0,
        ),
        akin(recovery::marking_restored(a), recovery::marking_restored(b)),
{
    let u = recovery::unmarked(a);
    let v = recovery::unmarked(b);
    assert(akin(u, v)) by {
        assert forall|i: int|
            #![trigger u[i]]
            #![trigger v[i]]
            0 <= i < u.len() implies same_entry(u[i], v[i]) by {
            assert(same_entry(a[i], b[i]));
        }
    }
    lemma_genesis_slot(u, v, 0);
    recovery::genesis_slot_is_first(u, 0);
    let x = recovery::marking_restored(a);
    let y = recovery::marking_restored(b);
    assert forall|i: int|
        #![trigger x[i]]
        #![trigger y[i]]
        0 <= i < x.len() implies same_entry(x[i], y[i]) by {
        assert(same_entry(u[i], v[i]));
    }
}

// -- Walks over a candidate --------------------------------------------------

/// Whether two walks stand at the same point.
pub open spec fn same_walk(a: Derivation, b: Derivation) -> bool {
    &&& b == (Derivation { blocks: b.blocks, ..a })
    &&& akin(a.blocks, b.blocks)
}

spec fn same_step(a: Step, b: Step) -> bool {
    &&& b == (Step { d: b.d, ..a })
    &&& same_walk(a.d, b.d)
}

spec fn same_complex(a: ComplexStep, b: ComplexStep) -> bool {
    &&& b == (ComplexStep { d: b.d, ..a })
    &&& same_walk(a.d, b.d)
}

proof fn lemma_output(
    a: Seq<BlockEntry>,
    b: Seq<BlockEntry>,
    ctx: PassView,
    sequence: u32,
    tr_hash: BlockHash,
    output_index: u8,
    from: int,
)
    requires
        akin(a, b),
    ensures
        walk::output_spent(a, ctx, sequence, tr_hash, output_index, from).1 == walk::output_spent(
            b,
            ctx,
            sequence,
            tr_hash,
            output_index,
            from,
        ).1,
        akin(
            walk::output_spent(a, ctx, sequence, tr_hash, output_index, from).0,
            walk::output_spent(b, ctx, sequence, tr_hash, output_index, from).0,
        ),
    decreases ctx.marked.len() - from,
{
    if 0 <= from < ctx.marked.len() {
        let idx = ctx.marked[from];
        lemma_output(a, b, ctx, sequence, tr_hash, output_index, from + 1);
        if idx < a.len() {
            assert(same_entry(a[idx as int], b[idx as int]));
        }
        assert(tree::present(a, idx) == tree::present(b, idx));
        if ctx.reads[from] is Some && spent_bits::utxo_bit(
            ctx.reads[from]->0,
            tr_hash,
            output_index,
        ) is Some && tree::present(a, idx) {
            let bit = spent_bits::utxo_bit(ctx.reads[from]->0, tr_hash, output_index)->0;
            let x = tree::revised(a, idx, a[idx as int].with_spent(bit, true));
            let y = tree::revised(b, idx, b[idx as int].with_spent(bit, true));
            assert(akin(x, y)) by {
                assert forall|i: int|
                    #![trigger x[i]]
                    #![trigger y[i]]
                    0 <= i < x.len() implies same_entry(x[i], y[i]) by {
                    assert(same_entry(a[i], b[i]));
                }
            }
        }
    }
}

proof fn lemma_inputs(
    a: ComplexStep,
    b: ComplexStep,
    ctx: PassView,
    at: BlockContext,
    vote: u32,
    inputs: Seq<TransactionInput>,
    from: int,
)
    requires
        same_complex(a, b),
    ensures
        same_complex(
            walk::inputs_applied(a, ctx, at, vote, inputs, from),
            walk::inputs_applied(b, ctx, at, vote, inputs, from),
        ),
    decreases inputs.len() - from,
{
    if a.broken is None && 0 <= from < inputs.len() {
        let x = walk::input_applied(a, ctx, at, vote, inputs[from]);
        let y = walk::input_applied(b, ctx, at, vote, inputs[from]);
        if let TransactionInput::Utxo { tr_hash, output_index } = inputs[from] {
            lemma_output(a.d.blocks, b.d.blocks, ctx, at.sequence, tr_hash, output_index, 0);
        }
        assert(same_complex(x, y));
        lemma_inputs(x, y, ctx, at, vote, inputs, from + 1);
    }
}

proof fn lemma_outputs(
    a: ComplexStep,
    b: ComplexStep,
    ctx: PassView,
    at: BlockContext,
    outputs: Seq<TransactionOutput>,
    from: int,
)
    requires
        same_complex(a, b),
    ensures
        same_complex(
            walk::outputs_applied(a, ctx, at, outputs, from),
            walk::outputs_applied(b, ctx, at, outputs, from),
        ),
    decreases outputs.len() - from,
{
    if a.broken is None && 0 <= from < outputs.len() {
        let x = walk::output_applied(a, ctx, at, outputs[from]);
        let y = walk::output_applied(b, ctx, at, outputs[from]);
        assert(same_complex(x, y));
        lemma_outputs(x, y, ctx, at, outputs, from + 1);
    }
}

proof fn lemma_transaction(a: Step, b: Step, ctx: PassView, at: BlockContext, tx: Transaction)
    requires
        same_step(a, b),
    ensures
        same_step(
            walk::transaction_applied(a, ctx, at, tx),
            walk::transaction_applied(b, ctx, at, tx),
        ),
{
    if let TransactionBody::Complex(cx) = tx.body {
        let x = walk::complex_start(a.d);
        let y = walk::complex_start(b.d);
        lemma_inputs(x, y, ctx, at, tx.vote, cx.inputs@, 0);
        lemma_outputs(
            walk::inputs_applied(x, ctx, at, tx.vote, cx.inputs@, 0),
            walk::inputs_applied(y, ctx, at, tx.vote, cx.inputs@, 0),
            ctx,
            at,
            cx.outputs@,
            0,
        );
    }
}

proof fn lemma_transactions(
    a: Step,
    b: Step,
    ctx: PassView,
    at: BlockContext,
    txs: Seq<Transaction>,
    from: int,
)
    requires
        same_step(a, b),
    ensures
        same_step(
            walk::transactions_applied(a, ctx, at, txs, from),
            walk::transactions_applied(b, ctx, at, txs, from),
        ),
    decreases txs.len() - from,
{
    if a.broken is None && 0 <= from < txs.len() {
        lemma_transaction(a, b, ctx, at, txs[from]);
        lemma_transactions(
            walk::transaction_applied(a, ctx, at, txs[from]),
            walk::transaction_applied(b, ctx, at, txs[from]),
            ctx,
            at,
            txs,
            from + 1,
        );
    }
}

proof fn lemma_block(
    a: Derivation,
    b: Derivation,
    ctx: PassView,
    block: ChainBlock,
    idx: u32,
    position: int,
    prev_hash: Option<BlockHash>,
)
    requires
        same_walk(a, b),
    ensures
        ({
            let (x, failure) = walk::block_derived(a, ctx, block, idx, position, prev_hash);
            let (y, other) = walk::block_derived(b, ctx, block, idx, position, prev_hash);
            failure == other && same_walk(x, y)
        }),
{
    let at = BlockContext { sequence: block.sequence, idx };
    let (h, f) = walk::header_checked(a, ctx, block, idx, prev_hash);
    let (k, g) = walk::header_checked(b, ctx, block, idx, prev_hash);
    assert(f == g && same_walk(h, k));
    let s = Step { d: h, fees: 0, broken: None };
    let r = Step { d: k, fees: 0, broken: None };
    if let BlockPayload::Transactions(txs) = block.payload {
        lemma_transactions(s, r, ctx, at, txs@, 0);
    }
    assert(same_step(
        walk::payload_applied(s, ctx, at, block),
        walk::payload_applied(r, ctx, at, block),
    ));
}

/// A walk over a candidate finds the same.
pub(crate) proof fn lemma_walk(
    a: Derivation,
    b: Derivation,
    ctx: PassView,
    left: nat,
    prev_hash: Option<BlockHash>,
)
    requires
        same_walk(a, b),
    ensures
        walk::segment_derived(a, ctx, left, prev_hash).1 == walk::segment_derived(
            b,
            ctx,
            left,
            prev_hash,
        ).1,
        same_walk(
            walk::segment_derived(a, ctx, left, prev_hash).0,
            walk::segment_derived(b, ctx, left, prev_hash).0,
        ),
    decreases left,
{
    if left > 0 && ctx.reads[left - 1] is Some {
        let i = left - 1;
        let block = ctx.reads[i]->0;
        lemma_block(a, b, ctx, block, ctx.marked[i], ctx.marked.len() - left, prev_hash);
        lemma_walk(
            walk::block_derived(
                a,
                ctx,
                block,
                ctx.marked[i],
                ctx.marked.len() - left,
                prev_hash,
            ).0,
            walk::block_derived(
                b,
                ctx,
                block,
                ctx.marked[i],
                ctx.marked.len() - left,
                prev_hash,
            ).0,
            ctx,
            i as nat,
            Some(block.hash),
        );
    }
}

} // verus!
