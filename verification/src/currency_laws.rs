//! Above the founding of a chain, a block brings no more currency into the
//! balances than it mines.

use vstd::prelude::*;

use crate::block_data::{
    BlockPayload, ChainBlock, NodeTransfer, Registration, Transaction, TransactionBody,
    TransactionInput, TransactionOutput, PAYLOAD_TYPE_BALANCE, PAYLOAD_TYPE_TRANSACTION,
};
use crate::blocks::NONE_REF;
use crate::derivation as walk;
use crate::derivation::{BlockContext, ComplexStep, Derivation, PassView, Step};
use crate::hash::BlockHash;
use crate::node_info;
use crate::node_info::InfoView;

verus! {

/// What the node with this id holds.
pub open spec fn held(info: InfoView, id: int) -> u64 {
    if info.seeds[id] != NONE_REF {
        info.balances[id]
    } else {
        0
    }
}

/// What the nodes with an id below `end` hold together.
pub open spec fn supply_below(info: InfoView, end: nat) -> nat
    decreases end,
{
    if end == 0 {
        0
    } else {
        supply_below(info, (end - 1) as nat) + held(info, end - 1) as nat
    }
}

/// The sum of all balances.
pub open spec fn supply(info: InfoView) -> nat {
    supply_below(info, info.seeds.len())
}

/// Every node has a balance.
pub open spec fn sized(info: InfoView) -> bool {
    info.balances.len() == info.seeds.len()
}

/// Whether the transaction takes what it pays from balances alone.
pub open spec fn from_balances(tx: Transaction) -> bool {
    match tx.body {
        TransactionBody::Complex(cx) => {
            &&& cx.inputs@.len() > 0
            &&& forall|i: int|
                0 <= i < cx.inputs@.len() ==> (#[trigger] cx.inputs@[i]) is Balance
        },
        _ => true,
    }
}

/// Whether the transaction is a transfer to a node of the chain.
pub open spec fn transfers_within(info: InfoView, tx: Transaction) -> bool {
    tx.body matches TransactionBody::NodeTransfer(nt) && info.seeded(nt.receiver)
}

/// Whether every transaction of the block takes what it pays from balances alone.
pub open spec fn pays_from_balances(block: ChainBlock) -> bool {
    match block.payload {
        BlockPayload::Transactions(txs) => forall|i: int|
            0 <= i < txs@.len() ==> from_balances(#[trigger] txs@[i]),
        _ => true,
    }
}

// -- One balance -------------------------------------------------------------

proof fn lemma_one_changed(a: InfoView, b: InfoView, id: int, end: nat)
    requires
        forall|i: int| 0 <= i < end && i != id ==> #[trigger] held(a, i) == held(b, i),
    ensures
        supply_below(b, end) - supply_below(a, end) == if 0 <= id < end {
            held(b, id) - held(a, id)
        } else {
            0
        },
    decreases end,
{
    if end > 0 {
        lemma_one_changed(a, b, id, (end - 1) as nat);
        if id != end - 1 {
            assert(held(a, end - 1) == held(b, end - 1));
        }
    }
}

proof fn lemma_held(info: InfoView, id: int, end: nat)
    requires
        0 <= id < end,
    ensures
        held(info, id) <= supply_below(info, end),
    decreases end,
{
    if id < end - 1 {
        lemma_held(info, id, (end - 1) as nat);
    }
}

proof fn lemma_debited(info: InfoView, id: u32, amount: u64)
    requires
        sized(info),
        info.seeded(id),
        info.balance(id) >= amount,
    ensures
        sized(info.debited(id, amount)),
        supply(info.debited(id, amount)) == supply(info) - amount,
        amount <= info.balance(id) <= supply(info),
        info.debited(id, amount).seeds == info.seeds,
{
    let after = info.debited(id, amount);
    lemma_held(info, id as int, info.seeds.len());
    assert forall|i: int| 0 <= i < info.seeds.len() && i != id implies #[trigger] held(info, i)
        == held(after, i) by {}
    lemma_one_changed(info, after, id as int, info.seeds.len());
}

proof fn lemma_credited(info: InfoView, id: u32, amount: u64)
    requires
        sized(info),
    ensures
        sized(walk::credited_if_seeded(info, id, amount)),
        supply(walk::credited_if_seeded(info, id, amount)) <= supply(info) + amount,
        info.seeded(id) && info.balance(id) + amount <= u64::MAX ==> supply(
            walk::credited_if_seeded(info, id, amount),
        ) == supply(info) + amount,
        walk::credited_if_seeded(info, id, amount).seeds == info.seeds,
{
    if info.seeded(id) {
        let after = info.credited(id, amount);
        assert forall|i: int| 0 <= i < info.seeds.len() && i != id implies #[trigger] held(info, i)
            == held(after, i) by {}
        lemma_one_changed(info, after, id as int, info.seeds.len());
    }
}

proof fn lemma_introduced(info: InfoView, id: u32, key: Seq<u8>, idx: u32)
    requires
        sized(info),
    ensures
        sized(info.with_node(id, key, 0, idx)),
        supply(info.with_node(id, key, 0, idx)) <= supply(info),
{
    let after = info.with_node(id, key, 0, idx);
    if id < info.seeds.len() {
        assert forall|i: int| 0 <= i < info.seeds.len() && i != id implies #[trigger] held(info, i)
            == held(after, i) by {}
        lemma_one_changed(info, after, id as int, info.seeds.len());
    }
}

proof fn lemma_same_supply(a: InfoView, b: InfoView)
    requires
        a.seeds == b.seeds,
        a.balances == b.balances,
    ensures
        supply(a) == supply(b),
        sized(a) == sized(b),
{
    assert forall|i: int| 0 <= i < a.seeds.len() && i != -1 implies #[trigger] held(a, i) == held(
        b,
        i,
    ) by {}
    lemma_one_changed(a, b, -1, a.seeds.len());
}

// -- One transaction ---------------------------------------------------------

/// What the balances hold together and what the block has collected so far.
pub open spec fn in_hand(s: Step) -> nat {
    supply(s.d.info) + s.fees as nat
}

proof fn lemma_transfer(s: Step, ctx: PassView, at: BlockContext, tx: Transaction, nt: NodeTransfer)
    requires
        ctx.genesis_anchored,
        at.sequence != 0,
        sized(s.d.info),
        in_hand(s) < u64::MAX,
        walk::transfer_applied(s, ctx, at, tx, nt).broken is None,
    ensures
        ({
            let after = walk::transfer_applied(s, ctx, at, tx, nt);
            &&& sized(after.d.info)
            &&& in_hand(after) <= in_hand(s)
            &&& s.d.info.seeded(nt.receiver) ==> in_hand(after) == in_hand(s)
        }),
{
    let info = s.d.info;
    let debit = node_info::saturating_sum(nt.amount, nt.fee as u64);
    lemma_debited(info, nt.initializer, debit);
    let paid = info.debited(nt.initializer, debit);
    lemma_credited(paid, nt.receiver, nt.amount);
    assert(debit == nt.amount + nt.fee);
    if info.seeded(nt.receiver) {
        lemma_held(paid, nt.receiver as int, paid.seeds.len());
        assert(paid.balance(nt.receiver) + nt.amount <= u64::MAX);
    }
}

proof fn lemma_registration(
    s: Step,
    ctx: PassView,
    at: BlockContext,
    tx: Transaction,
    reg: Registration,
)
    requires
        ctx.genesis_anchored,
        at.sequence != 0,
        sized(s.d.info),
        in_hand(s) < u64::MAX,
        walk::registration_applied(s, ctx, at, tx, reg).broken is None,
    ensures
        ({
            let after = walk::registration_applied(s, ctx, at, tx, reg);
            sized(after.d.info) && in_hand(after) <= in_hand(s)
        }),
{
    let info = s.d.info;
    let debit = node_info::saturating_sum(reg.registration_price, reg.fee);
    lemma_debited(info, reg.initializer, debit);
    assert(debit == reg.registration_price + reg.fee);
    let paid = info.debited(reg.initializer, debit);
    let counted = if reg.new_node_id < paid.seeds.len() && reg.new_node_id
        > paid.max_known_node_id {
        paid.with_watermark(reg.new_node_id)
    } else {
        paid
    };
    lemma_same_supply(paid, counted);
    lemma_introduced(counted, reg.new_node_id, reg.new_public_key@, at.idx);
}

proof fn lemma_inputs(
    c: ComplexStep,
    ctx: PassView,
    at: BlockContext,
    vote: u32,
    inputs: Seq<TransactionInput>,
    from: int,
    first: nat,
)
    requires
        ctx.genesis_anchored,
        at.sequence != 0,
        sized(c.d.info),
        supply(c.d.info) + c.in_sum <= first,
        !c.has_utxo_input,
        forall|i: int| 0 <= i < inputs.len() ==> (#[trigger] inputs[i]) is Balance,
        walk::inputs_applied(c, ctx, at, vote, inputs, from).broken is None,
    ensures
        ({
            let after = walk::inputs_applied(c, ctx, at, vote, inputs, from);
            &&& sized(after.d.info)
            &&& supply(after.d.info) + after.in_sum <= first
            &&& !after.has_utxo_input
            &&& after.out_sum == c.out_sum
        }),
    decreases inputs.len() - from,
{
    if c.broken is None && 0 <= from < inputs.len() {
        let next = walk::input_applied(c, ctx, at, vote, inputs[from]);
        assert(inputs[from] is Balance);
        if next.broken is None {
            if let TransactionInput::Balance { anchor_sequence, initializer, amount } =
                inputs[from] {
                lemma_debited(c.d.info, initializer, amount);
            }
            lemma_inputs(next, ctx, at, vote, inputs, from + 1, first);
        }
    }
}

proof fn lemma_outputs(
    c: ComplexStep,
    ctx: PassView,
    at: BlockContext,
    outputs: Seq<TransactionOutput>,
    from: int,
    first: nat,
)
    requires
        sized(c.d.info),
        c.out_sum == u64::MAX || supply(c.d.info) <= first + c.out_sum,
    ensures
        ({
            let after = walk::outputs_applied(c, ctx, at, outputs, from);
            &&& sized(after.d.info)
            &&& after.out_sum == u64::MAX || supply(after.d.info) <= first + after.out_sum
            &&& after.in_sum == c.in_sum
            &&& after.has_utxo_input == c.has_utxo_input
        }),
    decreases outputs.len() - from,
{
    if c.broken is None && 0 <= from < outputs.len() {
        let next = walk::output_applied(c, ctx, at, outputs[from]);
        if let TransactionOutput::Balance { receiver, amount } = outputs[from] {
            lemma_credited(c.d.info, receiver, amount);
        }
        lemma_outputs(next, ctx, at, outputs, from + 1, first);
    }
}

/// A transaction brings nothing into the balances that it does not take from
/// them.
proof fn lemma_transaction(s: Step, ctx: PassView, at: BlockContext, tx: Transaction)
    requires
        ctx.genesis_anchored,
        at.sequence != 0,
        sized(s.d.info),
        in_hand(s) < u64::MAX,
        from_balances(tx),
        walk::transaction_applied(s, ctx, at, tx).broken is None,
    ensures
        ({
            let after = walk::transaction_applied(s, ctx, at, tx);
            sized(after.d.info) && in_hand(after) <= in_hand(s)
        }),
{
    match tx.body {
        TransactionBody::NodeTransfer(nt) => {
            lemma_transfer(s, ctx, at, tx, nt);
        },
        TransactionBody::Registration(reg) => {
            lemma_registration(s, ctx, at, tx, reg);
        },
        TransactionBody::Complex(cx) => {
            let start = walk::complex_start(s.d);
            let spent = walk::inputs_applied(start, ctx, at, tx.vote, cx.inputs@, 0);
            if spent.broken is None {
                lemma_inputs(start, ctx, at, tx.vote, cx.inputs@, 0, supply(s.d.info));
                lemma_outputs(spent, ctx, at, cx.outputs@, 0, supply(spent.d.info));
            }
        },
        TransactionBody::Unknown => {},
    }
}

proof fn lemma_transactions(
    s: Step,
    ctx: PassView,
    at: BlockContext,
    txs: Seq<Transaction>,
    from: int,
)
    requires
        ctx.genesis_anchored,
        at.sequence != 0,
        sized(s.d.info),
        in_hand(s) < u64::MAX,
        forall|i: int| 0 <= i < txs.len() ==> from_balances(#[trigger] txs[i]),
        walk::transactions_applied(s, ctx, at, txs, from).broken is None,
    ensures
        ({
            let after = walk::transactions_applied(s, ctx, at, txs, from);
            sized(after.d.info) && in_hand(after) <= in_hand(s)
        }),
    decreases txs.len() - from,
{
    if s.broken is None && 0 <= from < txs.len() {
        let next = walk::transaction_applied(s, ctx, at, txs[from]);
        assert(from_balances(txs[from]));
        if next.broken is None {
            lemma_transaction(s, ctx, at, txs[from]);
            lemma_transactions(next, ctx, at, txs, from + 1);
        }
    }
}

/// A transfer between two nodes of the chain moves the currency: what the sender
/// loses, the receiver and the collected fees gain.
pub proof fn transfers_move_the_currency(
    s: Step,
    ctx: PassView,
    at: BlockContext,
    tx: Transaction,
    nt: NodeTransfer,
)
    requires
        ctx.genesis_anchored,
        at.sequence != 0,
        sized(s.d.info),
        in_hand(s) < u64::MAX,
        tx.body == TransactionBody::NodeTransfer(nt),
        s.d.info.seeded(nt.receiver),
        walk::transaction_applied(s, ctx, at, tx).broken is None,
    ensures
        in_hand(walk::transaction_applied(s, ctx, at, tx)) == in_hand(s),
{
    lemma_transfer(s, ctx, at, tx, nt);
}

/// In a chain that starts at its first block, a later block that passes brings at
/// most what it mines into the balances, unless it carries balances itself or
/// pays from outputs.
pub proof fn blocks_create_at_most_what_they_mine(
    d: Derivation,
    ctx: PassView,
    block: ChainBlock,
    idx: u32,
    position: int,
    prev_hash: Option<BlockHash>,
)
    requires
        ctx.genesis_anchored,
        block.sequence != 0,
        block.payload_type != PAYLOAD_TYPE_BALANCE,
        pays_from_balances(block),
        sized(d.info),
        supply(d.info) < u64::MAX,
        walk::block_derived(d, ctx, block, idx, position, prev_hash).1 is None,
    ensures
        ({
            let after = walk::block_derived(d, ctx, block, idx, position, prev_hash).0;
            &&& sized(after.info)
            &&& supply(after.info) <= supply(d.info) + block.mined_amount
        }),
{
    let at = BlockContext { sequence: block.sequence, idx };
    let checked = walk::header_checked(d, ctx, block, idx, prev_hash).0;
    let start = Step { d: checked, fees: 0, broken: None };
    let paid = walk::payload_applied(start, ctx, at, block);
    assert(checked.info == d.info);
    if let BlockPayload::Transactions(txs) = block.payload {
        if paid.broken is None && block.payload_type
            == PAYLOAD_TYPE_TRANSACTION {
            lemma_transactions(start, ctx, at, txs@, 0);
        }
    }
    assert(in_hand(paid) <= supply(d.info));
    let reward = node_info::saturating_sum(block.mined_amount as u64, paid.fees);
    lemma_credited(paid.d.info, block.creator, reward);
}

proof fn lemma_transfers(
    s: Step,
    ctx: PassView,
    at: BlockContext,
    txs: Seq<Transaction>,
    from: int,
)
    requires
        ctx.genesis_anchored,
        at.sequence != 0,
        sized(s.d.info),
        in_hand(s) < u64::MAX,
        forall|i: int| 0 <= i < txs.len() ==> transfers_within(s.d.info, #[trigger] txs[i]),
        walk::transactions_applied(s, ctx, at, txs, from).broken is None,
    ensures
        ({
            let after = walk::transactions_applied(s, ctx, at, txs, from);
            &&& sized(after.d.info)
            &&& in_hand(after) == in_hand(s)
            &&& after.d.info.seeds == s.d.info.seeds
        }),
    decreases txs.len() - from,
{
    if s.broken is None && 0 <= from < txs.len() {
        let next = walk::transaction_applied(s, ctx, at, txs[from]);
        assert(transfers_within(s.d.info, txs[from]));
        if next.broken is None {
            if let TransactionBody::NodeTransfer(nt) = txs[from].body {
                lemma_transfer(s, ctx, at, txs[from], nt);
            }
            assert(next.d.info.seeds == s.d.info.seeds);
            assert forall|i: int| 0 <= i < txs.len() implies transfers_within(
                next.d.info,
                #[trigger] txs[i],
            ) by {
                assert(transfers_within(s.d.info, txs[i]));
            }
            lemma_transfers(next, ctx, at, txs, from + 1);
        }
    }
}

/// A block of transfers between the nodes of the chain, made by one of them,
/// brings exactly what it mines into the balances.
pub proof fn blocks_of_transfers_create_what_they_mine(
    d: Derivation,
    ctx: PassView,
    block: ChainBlock,
    txs: Vec<Transaction>,
    idx: u32,
    position: int,
    prev_hash: Option<BlockHash>,
)
    requires
        ctx.genesis_anchored,
        block.sequence > 1,
        block.payload_type == PAYLOAD_TYPE_TRANSACTION,
        block.payload == BlockPayload::Transactions(txs),
        forall|i: int| 0 <= i < txs@.len() ==> transfers_within(d.info, #[trigger] txs@[i]),
        d.info.seeded(block.creator),
        sized(d.info),
        supply(d.info) + block.mined_amount < u64::MAX,
        walk::block_derived(d, ctx, block, idx, position, prev_hash).1 is None,
    ensures
        supply(walk::block_derived(d, ctx, block, idx, position, prev_hash).0.info) == supply(
            d.info,
        ) + block.mined_amount,
{
    let at = BlockContext { sequence: block.sequence, idx };
    let checked = walk::header_checked(d, ctx, block, idx, prev_hash).0;
    let start = Step { d: checked, fees: 0, broken: None };
    let paid = walk::payload_applied(start, ctx, at, block);
    lemma_transfers(start, ctx, at, txs@, 0);
    let reward = node_info::saturating_sum(block.mined_amount as u64, paid.fees);
    lemma_held(paid.d.info, block.creator as int, paid.d.info.seeds.len());
    lemma_credited(paid.d.info, block.creator, reward);
}

/// What the blocks below `end` mine together.
pub open spec fn mined_below(reads: Seq<Option<ChainBlock>>, end: nat) -> nat
    decreases end,
{
    if end == 0 {
        0
    } else {
        mined_below(reads, (end - 1) as nat) + match reads[end - 1] {
            Some(block) => block.mined_amount as nat,
            None => 0,
        }
    }
}

/// So the uppermost blocks of such a chain together bring at most what they mine
/// into the balances.
pub proof fn chains_create_at_most_what_they_mine(
    d: Derivation,
    ctx: PassView,
    left: nat,
    prev_hash: Option<BlockHash>,
)
    requires
        ctx.genesis_anchored,
        left <= ctx.reads.len(),
        forall|i: int|
            0 <= i < left && (#[trigger] ctx.reads[i]) is Some ==> {
                let block = ctx.reads[i]->0;
                &&& block.sequence != 0
                &&& block.payload_type != PAYLOAD_TYPE_BALANCE
                &&& pays_from_balances(block)
            },
        sized(d.info),
        supply(d.info) + mined_below(ctx.reads, left) < u64::MAX,
        walk::segment_derived(d, ctx, left, prev_hash).1 is None,
    ensures
        supply(walk::segment_derived(d, ctx, left, prev_hash).0.info) <= supply(d.info)
            + mined_below(ctx.reads, left),
    decreases left,
{
    if left > 0 {
        let i = left - 1;
        let block = ctx.reads[i]->0;
        assert(ctx.reads[i] is Some);
        blocks_create_at_most_what_they_mine(
            d,
            ctx,
            block,
            ctx.marked[i],
            ctx.marked.len() - left,
            prev_hash,
        );
        let next = walk::block_derived(
            d,
            ctx,
            block,
            ctx.marked[i],
            ctx.marked.len() - left,
            prev_hash,
        ).0;
        chains_create_at_most_what_they_mine(next, ctx, i as nat, Some(block.hash));
    }
}

} // verus!
