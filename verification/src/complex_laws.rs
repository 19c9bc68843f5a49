//! What a complex transaction takes from balances and gives to them, and when it
//! may.

use vstd::prelude::*;

use crate::block_data::{
    ComplexTransaction, Transaction, TransactionBody, TransactionInput, TransactionOutput,
};
use crate::derivation as walk;
use crate::derivation::{BlockContext, ComplexStep, PassView, Step, ValidationReason};
use crate::node_info::InfoView;
use crate::payment_laws as payment;
use crate::roster_laws as roster;

verus! {

/// What the first `end` inputs take from the balance of the node.
pub open spec fn taken(inputs: Seq<TransactionInput>, end: nat, id: u32) -> nat
    decreases end,
{
    if end == 0 {
        0
    } else {
        taken(inputs, (end - 1) as nat, id) + match inputs[end - 1] {
            TransactionInput::Balance { anchor_sequence, initializer, amount } => if initializer
                == id {
                amount as nat
            } else {
                0
            },
            TransactionInput::Utxo { tr_hash, output_index } => 0,
        }
    }
}

/// What the first `end` inputs take from balances altogether.
pub open spec fn total_in(inputs: Seq<TransactionInput>, end: nat) -> nat
    decreases end,
{
    if end == 0 {
        0
    } else {
        total_in(inputs, (end - 1) as nat) + match inputs[end - 1] {
            TransactionInput::Balance { anchor_sequence, initializer, amount } => amount as nat,
            TransactionInput::Utxo { tr_hash, output_index } => 0,
        }
    }
}

/// What the first `end` outputs add to the balance of the node.
pub open spec fn given(outputs: Seq<TransactionOutput>, end: nat, id: u32) -> nat
    decreases end,
{
    if end == 0 {
        0
    } else {
        given(outputs, (end - 1) as nat, id) + match outputs[end - 1] {
            TransactionOutput::Balance { receiver, amount } => if receiver == id {
                amount as nat
            } else {
                0
            },
            TransactionOutput::Utxo { amount } => 0,
        }
    }
}

/// What the first `end` outputs add to balances altogether.
pub open spec fn total_out(outputs: Seq<TransactionOutput>, end: nat) -> nat
    decreases end,
{
    if end == 0 {
        0
    } else {
        total_out(outputs, (end - 1) as nat) + match outputs[end - 1] {
            TransactionOutput::Balance { receiver, amount } => amount as nat,
            TransactionOutput::Utxo { amount } => 0,
        }
    }
}

/// Whether one of the first `end` inputs names an output.
pub open spec fn names_an_output(inputs: Seq<TransactionInput>, end: int) -> bool {
    exists|i: int| 0 <= i < end && (#[trigger] inputs[i]) is Utxo
}

/// Whether an input that takes from a balance may.
pub open spec fn input_allowed(
    info: InfoView,
    ctx: PassView,
    at: BlockContext,
    vote: u32,
    input: TransactionInput,
) -> bool {
    input matches TransactionInput::Balance { anchor_sequence, initializer, amount }
        ==> at.sequence != 0 ==> payment::may_act(info, ctx, initializer) && (roster::known(
        info,
        initializer,
    ) ==> payment::votes_for_a_node(info, vote))
}

/// The balances after the first `from` inputs.
spec fn after_inputs(
    info: InfoView,
    c: ComplexStep,
    at: BlockContext,
    inputs: Seq<TransactionInput>,
    from: int,
) -> bool {
    &&& c.d.info == (InfoView { balances: c.d.info.balances, ..info })
    &&& c.d.info.balances.len() == info.balances.len()
    &&& forall|id: u32|
        id < info.seeds.len() ==> #[trigger] c.d.info.balances[id as int] == info.balances[id as int]
            - if roster::known(info, id) && at.sequence != 0 {
            taken(inputs, from as nat, id) as int
        } else {
            0
        }
    &&& c.in_sum == roster::capped(total_in(inputs, from as nat) as int)
    &&& c.out_sum == 0
    &&& c.has_utxo_input == names_an_output(inputs, from)
}

proof fn lemma_names(inputs: Seq<TransactionInput>, from: int)
    requires
        0 <= from < inputs.len(),
    ensures
        names_an_output(inputs, from + 1) == (names_an_output(inputs, from) || inputs[from] is Utxo),
{
    if names_an_output(inputs, from) {
        let i = choose|i: int| 0 <= i < from && (#[trigger] inputs[i]) is Utxo;
        assert(inputs[i] is Utxo);
    }
    if inputs[from] is Utxo {
        assert(names_an_output(inputs, from + 1));
    }
}

proof fn lemma_input(
    info: InfoView,
    c: ComplexStep,
    ctx: PassView,
    at: BlockContext,
    vote: u32,
    inputs: Seq<TransactionInput>,
    from: int,
)
    requires
        roster::sound(info),
        c.broken is None,
        0 <= from < inputs.len(),
        after_inputs(info, c, at, inputs, from),
    ensures
        ({
            let next = walk::input_applied(c, ctx, at, vote, inputs[from]);
            &&& next.broken is None ==> {
                &&& after_inputs(info, next, at, inputs, from + 1)
                &&& input_allowed(info, ctx, at, vote, inputs[from])
            }
            &&& inputs[from] is Balance ==> next.d.blocks == c.d.blocks
            &&& inputs[from] is Balance && input_allowed(info, ctx, at, vote, inputs[from]) && (
            at.sequence != 0 && roster::known(info, inputs[from]->initializer) ==> taken(
                inputs,
                (from + 1) as nat,
                inputs[from]->initializer,
            ) <= info.balances[inputs[from]->initializer as int]) ==> next.broken is None
        }),
{
    let next = walk::input_applied(c, ctx, at, vote, inputs[from]);
    lemma_names(inputs, from);
    if let TransactionInput::Balance { anchor_sequence, initializer, amount } = inputs[from] {
        assert(c.d.info.seeded(initializer) == roster::known(info, initializer));
        if initializer < info.seeds.len() {
            assert(c.d.info.balances[initializer as int] == info.balances[initializer as int] - if roster::known(
                info,
                initializer,
            ) && at.sequence != 0 {
                taken(inputs, from as nat, initializer) as int
            } else {
                0
            });
        }
        if next.broken is None {
            assert forall|id: u32| id < info.seeds.len() implies #[trigger] next.d.info.balances[id as int]
                == info.balances[id as int] - if roster::known(info, id) && at.sequence != 0 {
                taken(inputs, (from + 1) as nat, id) as int
            } else {
                0
            } by {
                assert(c.d.info.balances[id as int] == info.balances[id as int] - if roster::known(
                    info,
                    id,
                ) && at.sequence != 0 {
                    taken(inputs, from as nat, id) as int
                } else {
                    0
                });
            }
        }
    } else {
        assert forall|id: u32| id < info.seeds.len() implies #[trigger] next.d.info.balances[id as int]
            == info.balances[id as int] - if roster::known(info, id) && at.sequence != 0 {
            taken(inputs, (from + 1) as nat, id) as int
        } else {
            0
        } by {
            assert(c.d.info.balances[id as int] == info.balances[id as int] - if roster::known(
                info,
                id,
            ) && at.sequence != 0 {
                taken(inputs, from as nat, id) as int
            } else {
                0
            });
        }
    }
}

proof fn lemma_taken_grows(inputs: Seq<TransactionInput>, a: nat, b: nat, id: u32)
    requires
        a <= b,
    ensures
        taken(inputs, a, id) <= taken(inputs, b, id),
    decreases b,
{
    if a < b {
        lemma_taken_grows(inputs, a, (b - 1) as nat, id);
    }
}

proof fn lemma_inputs(
    info: InfoView,
    c: ComplexStep,
    ctx: PassView,
    at: BlockContext,
    vote: u32,
    inputs: Seq<TransactionInput>,
    from: int,
)
    requires
        roster::sound(info),
        c.broken is None,
        0 <= from <= inputs.len(),
        after_inputs(info, c, at, inputs, from),
        walk::inputs_applied(c, ctx, at, vote, inputs, from).broken is None,
    ensures
        after_inputs(
            info,
            walk::inputs_applied(c, ctx, at, vote, inputs, from),
            at,
            inputs,
            inputs.len() as int,
        ),
        forall|i: int|
            from <= i < inputs.len() ==> input_allowed(info, ctx, at, vote, #[trigger] inputs[i]),
    decreases inputs.len() - from,
{
    if from < inputs.len() {
        let next = walk::input_applied(c, ctx, at, vote, inputs[from]);
        lemma_input(info, c, ctx, at, vote, inputs, from);
        if next.broken is Some {
            assert(walk::inputs_applied(next, ctx, at, vote, inputs, from + 1) == next);
        }
        lemma_inputs(info, next, ctx, at, vote, inputs, from + 1);
    }
}

proof fn lemma_inputs_pass(
    info: InfoView,
    c: ComplexStep,
    ctx: PassView,
    at: BlockContext,
    vote: u32,
    inputs: Seq<TransactionInput>,
    from: int,
)
    requires
        roster::sound(info),
        c.broken is None,
        0 <= from <= inputs.len(),
        after_inputs(info, c, at, inputs, from),
        forall|i: int| 0 <= i < inputs.len() ==> (#[trigger] inputs[i]) is Balance,
        forall|i: int|
            0 <= i < inputs.len() ==> input_allowed(info, ctx, at, vote, #[trigger] inputs[i]),
        at.sequence != 0 ==> forall|id: u32| #[trigger]
            roster::known(info, id) ==> taken(inputs, inputs.len(), id)
                <= info.balances[id as int],
    ensures
        walk::inputs_applied(c, ctx, at, vote, inputs, from).broken is None,
    decreases inputs.len() - from,
{
    if from < inputs.len() {
        let next = walk::input_applied(c, ctx, at, vote, inputs[from]);
        assert(inputs[from] is Balance);
        assert(input_allowed(info, ctx, at, vote, inputs[from]));
        if let TransactionInput::Balance { anchor_sequence, initializer, amount } = inputs[from] {
            lemma_taken_grows(inputs, (from + 1) as nat, inputs.len(), initializer);
            if at.sequence != 0 && roster::known(info, initializer) {
                assert(taken(inputs, inputs.len(), initializer)
                    <= info.balances[initializer as int]);
            }
        }
        lemma_input(info, c, ctx, at, vote, inputs, from);
        lemma_inputs_pass(info, next, ctx, at, vote, inputs, from + 1);
    }
}

/// The balances after the first `from` outputs.
spec fn after_outputs(
    first: ComplexStep,
    c: ComplexStep,
    outputs: Seq<TransactionOutput>,
    from: int,
) -> bool {
    let info = first.d.info;
    &&& c.d.info == (InfoView { balances: c.d.info.balances, ..info })
    &&& c.d.info.balances.len() == info.balances.len()
    &&& forall|id: u32|
        id < info.seeds.len() ==> #[trigger] c.d.info.balances[id as int] == if roster::known(info, id) {
            roster::capped(info.balances[id as int] + given(outputs, from as nat, id))
        } else {
            info.balances[id as int] as int
        }
    &&& c.out_sum == roster::capped(total_out(outputs, from as nat) as int)
    &&& c.in_sum == first.in_sum
    &&& c.has_utxo_input == first.has_utxo_input
    &&& c.d.blocks == first.d.blocks
    &&& c.d.checks == first.d.checks
    &&& c.d.saw_balance == first.d.saw_balance
}

/// Whether the node that the output names exists.
pub open spec fn output_allowed(
    info: InfoView,
    ctx: PassView,
    at: BlockContext,
    output: TransactionOutput,
) -> bool {
    output matches TransactionOutput::Balance { receiver, amount } ==> at.sequence != 0
        ==> payment::may_receive(info, ctx, receiver)
}

proof fn lemma_outputs(
    first: ComplexStep,
    c: ComplexStep,
    ctx: PassView,
    at: BlockContext,
    outputs: Seq<TransactionOutput>,
    from: int,
)
    requires
        roster::sound(first.d.info),
        c.broken is None,
        0 <= from <= outputs.len(),
        after_outputs(first, c, outputs, from),
    ensures
        ({
            let after = walk::outputs_applied(c, ctx, at, outputs, from);
            &&& after.broken is None ==> after_outputs(first, after, outputs, outputs.len() as int)
            &&& (after.broken is None) == (forall|i: int|
                from <= i < outputs.len() ==> output_allowed(
                    first.d.info,
                    ctx,
                    at,
                    #[trigger] outputs[i],
                ))
        }),
    decreases outputs.len() - from,
{
    if from < outputs.len() {
        let info = first.d.info;
        let next = walk::output_applied(c, ctx, at, outputs[from]);
        if let TransactionOutput::Balance { receiver, amount } = outputs[from] {
            assert(c.d.info.seeded(receiver) == roster::known(info, receiver));
        }
        assert((next.broken is None) == output_allowed(info, ctx, at, outputs[from]));
        if next.broken is None {
            assert forall|id: u32| id < info.seeds.len() implies #[trigger] next.d.info.balances[id as int]
                == if roster::known(info, id) {
                roster::capped(info.balances[id as int] + given(outputs, (from + 1) as nat, id))
            } else {
                info.balances[id as int] as int
            } by {
                assert(c.d.info.balances[id as int] == if roster::known(info, id) {
                    roster::capped(info.balances[id as int] + given(outputs, from as nat, id))
                } else {
                    info.balances[id as int] as int
                });
            }
            lemma_outputs(first, next, ctx, at, outputs, from + 1);
        } else {
            assert(walk::outputs_applied(next, ctx, at, outputs, from + 1) == next);
            assert(!output_allowed(info, ctx, at, outputs[from]));
        }
    }
}

/// A complex transaction that passes takes from each known node what its inputs
/// say, gives to each known node what its outputs say, and leaves the difference
/// to the block as its fee. One that names no output creates no more than it
/// takes. Each of its inputs and outputs was allowed.
pub proof fn complex_transactions_move_what_they_say(
    s: Step,
    ctx: PassView,
    at: BlockContext,
    tx: Transaction,
    cx: ComplexTransaction,
    id: u32,
    i: int,
)
    requires
        roster::sound(s.d.info),
        s.broken is None,
        tx.body == TransactionBody::Complex(cx),
        walk::transaction_applied(s, ctx, at, tx).broken is None,
    ensures
        ({
            let info = s.d.info;
            let after = walk::transaction_applied(s, ctx, at, tx);
            let inputs = cx.inputs@;
            let outputs = cx.outputs@;
            let all_in = roster::capped(total_in(inputs, inputs.len()) as int);
            let all_out = roster::capped(total_out(outputs, outputs.len()) as int);
            &&& after.d.info.seeds == info.seeds
            &&& after.d.info.keys == info.keys
            &&& after.d.info.max_known_node_id == info.max_known_node_id
            &&& roster::sound(after.d.info)
            &&& id < info.seeds.len() && !roster::known(info, id) ==> after.d.info.balances[id as int]
                == info.balances[id as int]
            &&& roster::known(info, id) ==> {
                let paid = if at.sequence != 0 {
                    taken(inputs, inputs.len(), id) as int
                } else {
                    0
                };
                &&& paid <= info.balances[id as int]
                &&& after.d.info.balances[id as int] == roster::capped(
                    info.balances[id as int] - paid + given(outputs, outputs.len(), id),
                )
            }
            &&& after.fees == roster::capped(
                s.fees + if all_in >= all_out {
                    all_in - all_out
                } else {
                    0
                },
            )
            &&& inputs.len() > 0 && !names_an_output(inputs, inputs.len() as int) ==> all_out
                <= all_in
            &&& 0 <= i < inputs.len() ==> input_allowed(info, ctx, at, tx.vote, inputs[i])
            &&& 0 <= i < outputs.len() ==> output_allowed(info, ctx, at, outputs[i])
        }),
{
    let info = s.d.info;
    let start = walk::complex_start(s.d);
    let spent = walk::inputs_applied(start, ctx, at, tx.vote, cx.inputs@, 0);
    let paid = walk::outputs_applied(spent, ctx, at, cx.outputs@, 0);
    if spent.broken is Some {
        assert(paid == spent);
    }
    assert(after_inputs(info, start, at, cx.inputs@, 0));
    lemma_inputs(info, start, ctx, at, tx.vote, cx.inputs@, 0);
    assert forall|k: u32| k < info.seeds.len() implies #[trigger] spent.d.info.balances[k as int]
        == if roster::known(spent.d.info, k) {
        roster::capped(spent.d.info.balances[k as int] + given(cx.outputs@, 0, k))
    } else {
        spent.d.info.balances[k as int] as int
    } by {}
    assert(after_outputs(spent, spent, cx.outputs@, 0));
    lemma_outputs(spent, spent, ctx, at, cx.outputs@, 0);
    if id < info.seeds.len() {
        assert(spent.d.info.balances[id as int] >= 0);
        assert(paid.d.info.balances[id as int] >= 0);
    }
    if 0 <= i < cx.inputs@.len() {
        assert(input_allowed(info, ctx, at, tx.vote, cx.inputs@[i]));
    }
    if 0 <= i < cx.outputs@.len() {
        assert(output_allowed(spent.d.info, ctx, at, cx.outputs@[i]));
    }
}

/// A complex transaction that takes from balances alone passes if each of its
/// inputs and outputs is allowed, no known node pays more than it holds, and it
/// gives no more than it takes.
pub proof fn covered_complex_transactions_pass(
    s: Step,
    ctx: PassView,
    at: BlockContext,
    tx: Transaction,
    cx: ComplexTransaction,
)
    requires
        roster::sound(s.d.info),
        s.broken is None,
        tx.body == TransactionBody::Complex(cx),
        forall|i: int| 0 <= i < cx.inputs@.len() ==> (#[trigger] cx.inputs@[i]) is Balance,
        forall|i: int|
            0 <= i < cx.inputs@.len() ==> input_allowed(
                s.d.info,
                ctx,
                at,
                tx.vote,
                #[trigger] cx.inputs@[i],
            ),
        forall|i: int|
            0 <= i < cx.outputs@.len() ==> output_allowed(
                s.d.info,
                ctx,
                at,
                #[trigger] cx.outputs@[i],
            ),
        at.sequence != 0 ==> forall|id: u32| #[trigger]
            roster::known(s.d.info, id) ==> taken(cx.inputs@, cx.inputs@.len(), id)
                <= s.d.info.balances[id as int],
        total_out(cx.outputs@, cx.outputs@.len()) <= total_in(cx.inputs@, cx.inputs@.len()),
    ensures
        walk::transaction_applied(s, ctx, at, tx).broken is None,
{
    let info = s.d.info;
    let start = walk::complex_start(s.d);
    let spent = walk::inputs_applied(start, ctx, at, tx.vote, cx.inputs@, 0);
    assert(after_inputs(info, start, at, cx.inputs@, 0));
    lemma_inputs_pass(info, start, ctx, at, tx.vote, cx.inputs@, 0);
    lemma_inputs(info, start, ctx, at, tx.vote, cx.inputs@, 0);
    assert forall|k: u32| k < info.seeds.len() implies #[trigger] spent.d.info.balances[k as int]
        == if roster::known(spent.d.info, k) {
        roster::capped(spent.d.info.balances[k as int] + given(cx.outputs@, 0, k))
    } else {
        spent.d.info.balances[k as int] as int
    } by {}
    assert(after_outputs(spent, spent, cx.outputs@, 0));
    lemma_outputs(spent, spent, ctx, at, cx.outputs@, 0);
    assert forall|i: int| 0 <= i < cx.outputs@.len() implies output_allowed(
        spent.d.info,
        ctx,
        at,
        #[trigger] cx.outputs@[i],
    ) by {
        assert(output_allowed(info, ctx, at, cx.outputs@[i]));
    }
}

// -- Input by input, output by output ------------------------------------------

/// Whether `steps` are the states of taking the inputs one after the other, from
/// the first on, as far as none is refused.
pub open spec fn inputs_in_turn(
    steps: Seq<ComplexStep>,
    ctx: PassView,
    at: BlockContext,
    vote: u32,
    inputs: Seq<TransactionInput>,
) -> bool {
    &&& steps.len() == inputs.len() + 1
    &&& forall|k: int|
        0 <= k < inputs.len() ==> steps[k + 1] == if steps[k].broken is None {
            walk::input_applied(steps[k], ctx, at, vote, #[trigger] inputs[k])
        } else {
            steps[k]
        }
}

/// Whether `steps` are the states of giving the outputs one after the other, from
/// the first on, as far as none is refused.
pub open spec fn outputs_in_turn(
    steps: Seq<ComplexStep>,
    ctx: PassView,
    at: BlockContext,
    outputs: Seq<TransactionOutput>,
) -> bool {
    &&& steps.len() == outputs.len() + 1
    &&& forall|k: int|
        0 <= k < outputs.len() ==> steps[k + 1] == if steps[k].broken is None {
            walk::output_applied(steps[k], ctx, at, #[trigger] outputs[k])
        } else {
            steps[k]
        }
}

proof fn lemma_inputs_in_turn(
    c: ComplexStep,
    ctx: PassView,
    at: BlockContext,
    vote: u32,
    inputs: Seq<TransactionInput>,
    end: nat,
) -> (steps: Seq<ComplexStep>)
    requires
        end <= inputs.len(),
    ensures
        inputs_in_turn(steps, ctx, at, vote, inputs.take(end as int)),
        steps[0] == c,
        walk::inputs_applied(c, ctx, at, vote, inputs, 0) == walk::inputs_applied(
            steps.last(),
            ctx,
            at,
            vote,
            inputs,
            end as int,
        ),
    decreases end,
{
    if end == 0 {
        seq![c]
    } else {
        let fewer = lemma_inputs_in_turn(c, ctx, at, vote, inputs, (end - 1) as nat);
        let last = fewer.last();
        let next = if last.broken is None {
            walk::input_applied(last, ctx, at, vote, inputs[end - 1])
        } else {
            last
        };
        let steps = fewer.push(next);
        let part = inputs.take(end as int);
        assert forall|k: int| 0 <= k < part.len() implies steps[k + 1] == if steps[k].broken
            is None {
            walk::input_applied(steps[k], ctx, at, vote, #[trigger] part[k])
        } else {
            steps[k]
        } by {
            if k < end - 1 {
                assert(inputs.take(end - 1)[k] == part[k]);
            }
        }
        steps
    }
}

proof fn lemma_outputs_in_turn(
    c: ComplexStep,
    ctx: PassView,
    at: BlockContext,
    outputs: Seq<TransactionOutput>,
    end: nat,
) -> (steps: Seq<ComplexStep>)
    requires
        end <= outputs.len(),
    ensures
        outputs_in_turn(steps, ctx, at, outputs.take(end as int)),
        steps[0] == c,
        walk::outputs_applied(c, ctx, at, outputs, 0) == walk::outputs_applied(
            steps.last(),
            ctx,
            at,
            outputs,
            end as int,
        ),
    decreases end,
{
    if end == 0 {
        seq![c]
    } else {
        let fewer = lemma_outputs_in_turn(c, ctx, at, outputs, (end - 1) as nat);
        let last = fewer.last();
        let next = if last.broken is None {
            walk::output_applied(last, ctx, at, outputs[end - 1])
        } else {
            last
        };
        let steps = fewer.push(next);
        let part = outputs.take(end as int);
        assert forall|k: int| 0 <= k < part.len() implies steps[k + 1] == if steps[k].broken
            is None {
            walk::output_applied(steps[k], ctx, at, #[trigger] part[k])
        } else {
            steps[k]
        } by {
            if k < end - 1 {
                assert(outputs.take(end - 1)[k] == part[k]);
            }
        }
        steps
    }
}

/// A complex transaction takes every input in turn, and then gives every output in
/// turn. It is refused for the first of them that is refused; if none is, then
/// exactly if it takes from balances alone and gives more than it takes.
pub proof fn complex_transactions_go_part_by_part(
    s: Step,
    ctx: PassView,
    at: BlockContext,
    tx: Transaction,
    cx: ComplexTransaction,
) -> (parts: (Seq<ComplexStep>, Seq<ComplexStep>))
    requires
        roster::sound(s.d.info),
        s.broken is None,
        tx.body == TransactionBody::Complex(cx),
    ensures
        ({
            let (ins, outs) = parts;
            let after = walk::transaction_applied(s, ctx, at, tx);
            let all_in = roster::capped(total_in(cx.inputs@, cx.inputs@.len()) as int);
            let all_out = roster::capped(total_out(cx.outputs@, cx.outputs@.len()) as int);
            &&& inputs_in_turn(ins, ctx, at, tx.vote, cx.inputs@)
            &&& outputs_in_turn(outs, ctx, at, cx.outputs@)
            &&& ins[0].d == s.d
            &&& ins[0].broken is None
            &&& outs[0] == ins.last()
            &&& after.d == outs.last().d
            &&& outs.last().broken is Some ==> after.broken == outs.last().broken
            &&& outs.last().broken is None ==> after.broken == if cx.inputs@.len() > 0
                && !names_an_output(cx.inputs@, cx.inputs@.len() as int) && all_out > all_in {
                Some(ValidationReason::InsufficientTransactionInputs)
            } else {
                None
            }
        }),
{
    let start = walk::complex_start(s.d);
    let ins = lemma_inputs_in_turn(start, ctx, at, tx.vote, cx.inputs@, cx.inputs@.len());
    let spent = walk::inputs_applied(start, ctx, at, tx.vote, cx.inputs@, 0);
    assert(cx.inputs@.take(cx.inputs@.len() as int) =~= cx.inputs@);
    assert(spent == ins.last());
    let outs = lemma_outputs_in_turn(spent, ctx, at, cx.outputs@, cx.outputs@.len());
    let paid = walk::outputs_applied(spent, ctx, at, cx.outputs@, 0);
    assert(cx.outputs@.take(cx.outputs@.len() as int) =~= cx.outputs@);
    assert(paid == outs.last());
    if spent.broken is Some {
        assert(paid == spent);
    } else {
        assert(after_inputs(s.d.info, start, at, cx.inputs@, 0));
        lemma_inputs(s.d.info, start, ctx, at, tx.vote, cx.inputs@, 0);
        assert forall|k: u32| k < s.d.info.seeds.len() implies #[trigger] spent.d.info.balances[k as int]
            == if roster::known(spent.d.info, k) {
            roster::capped(spent.d.info.balances[k as int] + given(cx.outputs@, 0, k))
        } else {
            spent.d.info.balances[k as int] as int
        } by {}
        assert(after_outputs(spent, spent, cx.outputs@, 0));
        lemma_outputs(spent, spent, ctx, at, cx.outputs@, 0);
    }
    (ins, outs)
}

} // verus!
