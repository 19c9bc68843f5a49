//! What a candidate chain says, block by block.
//!
//! Walking a candidate from its lowest block upward, each block is validated
//! against the state that the blocks below it derive, and then adds its own
//! effects to that state. A candidate that starts at the first block of the
//! chain is re-derived in full, so everything in it must be accounted for; one
//! that starts later trusts what happened before it, and its checks begin for a
//! node once a balance block or a registration has introduced that node.
//!
//! Signatures are not verified here. Each one that has to hold is recorded as a
//! [`SignatureCheck`], in the order in which they matter, together with what it
//! means if it does not hold; the walk goes on as if it did.

use vstd::prelude::*;

use crate::block_data::{
    BalancePayload, BlockPayload, ChainBlock, ComplexTransaction, NodeBalance, NodeTransfer,
    Registration, Transaction, TransactionBody, TransactionInput, TransactionOutput, HEADER_SIZE,
    PAYLOAD_TYPE_BALANCE, PAYLOAD_TYPE_CHAIN_CONFIG, PAYLOAD_TYPE_TRANSACTION, SIGNATURE_SIZE,
};
use crate::blocks as tree;
use crate::blocks::{BlockEntry, BlockTable};
use crate::hash::{bytes_eq, hash_eq, BlockHash};
use crate::ledger_laws;
use crate::node_info;
use crate::node_info::{
    add_saturating, subtract_saturating, InfoView, NodeInfoState, PublicKey,
};
use crate::spent_bits;
use crate::spent_bits::resolve_utxo_bit;

verus! {

/// Why the vote engine refused a block.
#[derive(Debug, Clone, Copy, PartialEq, Eq, Structural)]
pub enum VoteEngineError {
    /// The chain's vote parameters are not known.
    NotParameterized,
    /// An accumulated vote left its range.
    AccumulatedVoteOverflow,
    /// Any other refusal.
    Refused,
}

/// Why a candidate chain was not accepted.
#[derive(Debug, Clone, Copy, PartialEq, Eq, Structural)]
pub enum ProcessingError {
    /// The candidate is longer than the tree has room for: its links are
    /// corrupt.
    MarkOverflow,
    /// A link of the candidate leads to an empty slot.
    MissingBlock,
    /// A block could not be read back.
    StorageRead,
    /// The vote engine refused a block.
    Vote(VoteEngineError),
    /// The block breaks a rule; it is the lowest one that does.
    Invalid { block_idx: u32, reason: ValidationReason },
}

/// Which rule a block breaks.
#[derive(Debug, Clone, Copy, PartialEq, Eq, Structural)]
pub enum ValidationReason {
    /// It is larger than the locked configuration allows.
    BlockTooLarge,
    /// Its payload does not read as what its type says.
    MalformedPayload,
    /// It does not follow the block below it.
    PreviousHashMismatch,
    /// It is not signed by its creator.
    CreatorSignatureInvalid,
    /// A transaction is not signed by its initializer.
    TransactionSignatureInvalid,
    /// A node spends more than it has.
    InsufficientBalance,
    /// A registration does not take the next free node id.
    RegistrationWatermark,
    /// A vote names a node that does not exist.
    VoteTargetUnknown,
    /// A transaction names a node that does not exist.
    NodeIdOutOfRange,
    /// A spent output is not in an earlier block of the candidate.
    UtxoUnresolvable,
    /// An output is spent twice.
    UtxoAlreadySpent,
    /// It carries another chain configuration than the node holds.
    ChainConfigMismatch,
    /// The candidate carries no chain configuration.
    MissingChainConfigBlock,
    /// A later balance block disagrees on the number of nodes.
    BalanceMaxNodeIdMismatch,
    /// A node acts before the chain has introduced it.
    UnseededActor,
    /// A registration reuses a public key.
    DuplicatePublicKey,
    /// A transaction creates more than it spends.
    InsufficientTransactionInputs,
}

/// A signature that has to hold, and what it means for a block if it does not.
#[derive(Debug, Clone)]
pub struct SignatureCheck {
    /// Slot of the block that breaks a rule if the signature does not hold.
    pub block_idx: u32,
    pub reason: ValidationReason,
    pub message: Vec<u8>,
    pub signature: Vec<u8>,
    pub public_key: PublicKey,
}

/// A signature that has to hold.
#[verifier::ext_equal]
pub ghost struct CheckView {
    pub block_idx: u32,
    pub reason: ValidationReason,
    pub message: Seq<u8>,
    pub signature: Seq<u8>,
    pub public_key: Seq<u8>,
}

impl View for SignatureCheck {
    type V = CheckView;

    open spec fn view(&self) -> CheckView {
        CheckView {
            block_idx: self.block_idx,
            reason: self.reason,
            message: self.message@,
            signature: self.signature@,
            public_key: self.public_key@,
        }
    }
}

/// The recorded signatures, each by its view.
pub open spec fn check_views(checks: Seq<SignatureCheck>) -> Seq<CheckView> {
    Seq::new(checks.len(), |i: int| checks[i]@)
}

/// What the walk knows of the candidate as a whole.
pub ghost struct PassView {
    /// The slots of the candidate, its tip first.
    pub marked: Seq<u32>,
    /// What each of them read back as.
    pub reads: Seq<Option<ChainBlock>>,
    /// It starts at the first block of the chain.
    pub genesis_anchored: bool,
    /// The highest node id is known from the start of the candidate.
    pub roster_bounded: bool,
    pub size_limit: u16,
    /// The configuration content the node holds.
    pub held: Option<Seq<u8>>,
    /// The public key of node #0.
    pub anchor_key: Seq<u8>,
    /// Bytes of a registration, the longest transaction with a signature of its
    /// own.
    pub registration_size: usize,
    /// The block (counted from the lowest) that the vote engine refuses.
    pub vote_failure: Option<(int, VoteEngineError)>,
    /// Which signatures hold.
    pub holds: spec_fn(CheckView) -> bool,
}

/// The state that the walk derives.
#[verifier::ext_equal]
pub ghost struct Derivation {
    pub info: InfoView,
    pub blocks: Seq<BlockEntry>,
    /// A balance block was seen.
    pub saw_balance: bool,
    /// The signatures that had to hold so far.
    pub checks: Seq<CheckView>,
}

/// The state after a step, the fees collected in the block so far, and the rule
/// that was broken, if one was.
#[verifier::ext_equal]
pub ghost struct Step {
    pub d: Derivation,
    pub fees: u64,
    pub broken: Option<ValidationReason>,
}

/// The block that is being walked.
pub ghost struct BlockContext {
    pub sequence: u32,
    pub idx: u32,
}

impl Derivation {
    pub open spec fn with_info(self, info: InfoView) -> Derivation {
        Derivation { info, ..self }
    }

    pub open spec fn recorded(self, check: CheckView) -> Derivation {
        Derivation { checks: self.checks.push(check), ..self }
    }
}

/// `bytes` with the positions from `from` up to `to` set to zero.
pub open spec fn blanked(bytes: Seq<u8>, from: int, to: int) -> Seq<u8> {
    Seq::new(
        bytes.len(),
        |i: int|
            if from <= i < to {
                0u8
            } else {
                bytes[i]
            },
    )
}

/// Whether the node id can name a node.
pub open spec fn in_range(info: InfoView, node_id: u32) -> bool {
    node_id <= info.max_known_node_id
}

/// Whether the vote names a node; a vote for node #0 always does.
pub open spec fn vote_target_known(info: InfoView, vote: u32) -> bool {
    vote == 0 || vote <= info.max_known_node_id
}

// -- Signatures --------------------------------------------------------------

/// The key of a block's creator: node #0's is known from the start, another
/// one once the candidate has introduced it.
pub open spec fn creator_key(ctx: PassView, info: InfoView, creator: u32) -> Option<Seq<u8>> {
    if creator == 0 {
        Some(ctx.anchor_key)
    } else {
        info.key(creator)
    }
}

/// The creator signs the whole block with the signature field blank.
pub open spec fn creator_check(block: ChainBlock, idx: u32, key: Seq<u8>) -> CheckView {
    CheckView {
        block_idx: idx,
        reason: ValidationReason::CreatorSignatureInvalid,
        message: blanked(block.bytes@, HEADER_SIZE - SIGNATURE_SIZE, HEADER_SIZE as int),
        signature: block.bytes@.subrange(HEADER_SIZE - SIGNATURE_SIZE, HEADER_SIZE as int),
        public_key: key,
    }
}

/// The initializer signs the whole transaction with the signature field, its
/// last bytes, blank. Nothing can be checked without a key, nor of a transaction
/// that is too short for a signature or longer than a registration.
pub open spec fn transaction_check(
    info: InfoView,
    ctx: PassView,
    tx: Transaction,
    signer: u32,
    idx: u32,
) -> Option<CheckView> {
    let len = tx.bytes@.len() as int;
    if info.key(signer) is None || !(SIGNATURE_SIZE <= len <= ctx.registration_size) {
        None
    } else {
        Some(
            CheckView {
                block_idx: idx,
                reason: ValidationReason::TransactionSignatureInvalid,
                message: blanked(tx.bytes@, len - SIGNATURE_SIZE, len),
                signature: tx.bytes@.subrange(len - SIGNATURE_SIZE, len),
                public_key: info.key(signer)->0,
            },
        )
    }
}

/// The vote and the signature of a transaction whose initializer is known.
pub open spec fn actor_checked(
    d: Derivation,
    ctx: PassView,
    at: BlockContext,
    tx: Transaction,
    signer: u32,
) -> (Derivation, Option<ValidationReason>) {
    if !vote_target_known(d.info, tx.vote) {
        (d, Some(ValidationReason::VoteTargetUnknown))
    } else {
        match transaction_check(d.info, ctx, tx, signer, at.idx) {
            None => (d, Some(ValidationReason::TransactionSignatureInvalid)),
            Some(check) => (
                d.recorded(check),
                if (ctx.holds)(check) {
                    None
                } else {
                    Some(ValidationReason::TransactionSignatureInvalid)
                },
            ),
        }
    }
}

// -- Transactions ------------------------------------------------------------

/// The rule that an acting node breaks by not being known, or by not existing.
pub open spec fn actor_failure(
    info: InfoView,
    ctx: PassView,
    at: BlockContext,
    node_id: u32,
) -> Option<ValidationReason> {
    if ctx.genesis_anchored && at.sequence != 0 && !info.seeded(node_id) {
        Some(ValidationReason::UnseededActor)
    } else if ctx.roster_bounded && at.sequence != 0 && !in_range(info, node_id) {
        Some(ValidationReason::NodeIdOutOfRange)
    } else {
        None
    }
}

/// The rule that a named node breaks by not existing.
pub open spec fn receiver_failure(
    info: InfoView,
    ctx: PassView,
    at: BlockContext,
    node_id: u32,
) -> Option<ValidationReason> {
    if ctx.roster_bounded && at.sequence != 0 && !in_range(info, node_id) {
        Some(ValidationReason::NodeIdOutOfRange)
    } else {
        None
    }
}

/// A credit that reaches only a node that is known.
pub open spec fn credited_if_seeded(info: InfoView, node_id: u32, amount: u64) -> InfoView {
    if info.seeded(node_id) {
        info.credited(node_id, amount)
    } else {
        info
    }
}

/// A transfer. In the first block it creates the currency; everywhere else it
/// moves what the initializer has.
pub open spec fn transfer_applied(
    s: Step,
    ctx: PassView,
    at: BlockContext,
    tx: Transaction,
    nt: NodeTransfer,
) -> Step {
    let d = s.d;
    let init = nt.initializer;
    let debit = node_info::saturating_sum(nt.amount, nt.fee as u64);
    let fees = node_info::saturating_sum(s.fees, nt.fee as u64);
    if actor_failure(d.info, ctx, at, init) is Some {
        Step { broken: actor_failure(d.info, ctx, at, init), ..s }
    } else if receiver_failure(d.info, ctx, at, nt.receiver) is Some {
        Step { broken: receiver_failure(d.info, ctx, at, nt.receiver), ..s }
    } else if at.sequence == 0 || !d.info.seeded(init) {
        Step {
            d: d.with_info(credited_if_seeded(d.info, nt.receiver, nt.amount)),
            fees,
            broken: None,
        }
    } else {
        let (checked, failure) = actor_checked(d, ctx, at, tx, init);
        if failure is Some {
            Step { d: checked, broken: failure, ..s }
        } else if d.info.balance(init) < debit {
            Step { d: checked, broken: Some(ValidationReason::InsufficientBalance), ..s }
        } else {
            Step {
                d: checked.with_info(
                    credited_if_seeded(d.info.debited(init, debit), nt.receiver, nt.amount),
                ),
                fees,
                broken: None,
            }
        }
    }
}

/// The node id after `id`.
pub open spec fn next_node_id(id: u32) -> u32 {
    if id == u32::MAX {
        0
    } else {
        (id + 1) as u32
    }
}

/// What a registration costs its initializer.
pub open spec fn registration_charged(
    s: Step,
    ctx: PassView,
    at: BlockContext,
    tx: Transaction,
    reg: Registration,
) -> Step {
    let d = s.d;
    let debit = node_info::saturating_sum(reg.registration_price, reg.fee);
    let (checked, failure) = actor_checked(d, ctx, at, tx, reg.initializer);
    if failure is Some {
        Step { d: checked, broken: failure, ..s }
    } else if d.info.balance(reg.initializer) < debit {
        Step { d: checked, broken: Some(ValidationReason::InsufficientBalance), ..s }
    } else {
        Step {
            d: checked.with_info(d.info.debited(reg.initializer, debit)),
            fees: node_info::saturating_sum(s.fees, reg.fee),
            broken: None,
        }
    }
}

/// The new node enters the roster.
pub open spec fn node_enrolled(s: Step, at: BlockContext, reg: Registration) -> Step {
    let d = s.d;
    if d.info.key_taken(reg.new_public_key@) {
        Step { broken: Some(ValidationReason::DuplicatePublicKey), ..s }
    } else {
        let counted = if at.sequence != 0 && reg.new_node_id < d.info.seeds.len()
            && reg.new_node_id > d.info.max_known_node_id {
            d.info.with_watermark(reg.new_node_id)
        } else {
            d.info
        };
        Step {
            d: d.with_info(
                counted.with_node(reg.new_node_id, reg.new_public_key@, 0, at.idx),
            ),
            ..s
        }
    }
}

/// A registration. In the first block it introduces node #0 at no cost.
pub open spec fn registration_applied(
    s: Step,
    ctx: PassView,
    at: BlockContext,
    tx: Transaction,
    reg: Registration,
) -> Step {
    let d = s.d;
    if actor_failure(d.info, ctx, at, reg.initializer) is Some {
        Step { broken: actor_failure(d.info, ctx, at, reg.initializer), ..s }
    } else if at.sequence != 0 && (ctx.genesis_anchored || d.saw_balance) && reg.new_node_id
        != next_node_id(d.info.max_known_node_id) {
        Step { broken: Some(ValidationReason::RegistrationWatermark), ..s }
    } else {
        let charged = if at.sequence != 0 && d.info.seeded(reg.initializer) {
            registration_charged(s, ctx, at, tx, reg)
        } else {
            s
        };
        if charged.broken is Some {
            charged
        } else {
            node_enrolled(charged, at, reg)
        }
    }
}

/// Spending a referenced output: the blocks of the candidate from `from` on
/// (tip first) that lie below the spending block are searched for it. The first
/// one that holds it decides.
pub open spec fn output_spent(
    blocks: Seq<BlockEntry>,
    ctx: PassView,
    sequence: u32,
    tr_hash: BlockHash,
    output_index: u8,
    from: int,
) -> (Seq<BlockEntry>, Option<ValidationReason>)
    decreases ctx.marked.len() - from,
{
    if from < 0 || from >= ctx.marked.len() {
        (blocks, Some(ValidationReason::UtxoUnresolvable))
    } else {
        let idx = ctx.marked[from];
        if !tree::present(blocks, idx) || blocks[idx as int].sequence >= sequence
            || ctx.reads[from] is None || spent_bits::utxo_bit(
            ctx.reads[from]->0,
            tr_hash,
            output_index,
        ) is None {
            output_spent(blocks, ctx, sequence, tr_hash, output_index, from + 1)
        } else {
            let bit = spent_bits::utxo_bit(ctx.reads[from]->0, tr_hash, output_index)->0;
            if blocks[idx as int].spent(bit) {
                (blocks, Some(ValidationReason::UtxoAlreadySpent))
            } else {
                (
                    tree::revised(blocks, idx, blocks[idx as int].with_spent(bit, true)),
                    None,
                )
            }
        }
    }
}

/// The state while a complex transaction is applied, with the amounts that its
/// balance inputs and outputs move.
#[verifier::ext_equal]
pub ghost struct ComplexStep {
    pub d: Derivation,
    pub in_sum: u64,
    pub out_sum: u64,
    pub has_utxo_input: bool,
    pub broken: Option<ValidationReason>,
}

/// The state before any input is applied.
pub open spec fn complex_start(d: Derivation) -> ComplexStep {
    ComplexStep { d, in_sum: 0, out_sum: 0, has_utxo_input: false, broken: None }
}

/// One input.
pub open spec fn input_applied(
    c: ComplexStep,
    ctx: PassView,
    at: BlockContext,
    vote: u32,
    input: TransactionInput,
) -> ComplexStep {
    let d = c.d;
    match input {
        TransactionInput::Balance { anchor_sequence, initializer, amount } => {
            let in_sum = node_info::saturating_sum(c.in_sum, amount);
            if actor_failure(d.info, ctx, at, initializer) is Some {
                ComplexStep { broken: actor_failure(d.info, ctx, at, initializer), ..c }
            } else if at.sequence == 0 || !d.info.seeded(initializer) {
                ComplexStep { in_sum, ..c }
            } else if !vote_target_known(d.info, vote) {
                ComplexStep { broken: Some(ValidationReason::VoteTargetUnknown), ..c }
            } else if d.info.balance(initializer) < amount {
                ComplexStep { broken: Some(ValidationReason::InsufficientBalance), ..c }
            } else {
                ComplexStep { d: d.with_info(d.info.debited(initializer, amount)), in_sum, ..c }
            }
        },
        TransactionInput::Utxo { tr_hash, output_index } => {
            let (blocks, failure) = output_spent(
                d.blocks,
                ctx,
                at.sequence,
                tr_hash,
                output_index,
                0,
            );
            ComplexStep {
                d: Derivation { blocks, ..d },
                has_utxo_input: true,
                broken: failure,
                ..c
            }
        },
    }
}

/// The inputs from `from` on.
pub open spec fn inputs_applied(
    c: ComplexStep,
    ctx: PassView,
    at: BlockContext,
    vote: u32,
    inputs: Seq<TransactionInput>,
    from: int,
) -> ComplexStep
    decreases inputs.len() - from,
{
    if c.broken is Some || from < 0 || from >= inputs.len() {
        c
    } else {
        inputs_applied(
            input_applied(c, ctx, at, vote, inputs[from]),
            ctx,
            at,
            vote,
            inputs,
            from + 1,
        )
    }
}

/// One output. A spendable output moves no balance.
pub open spec fn output_applied(
    c: ComplexStep,
    ctx: PassView,
    at: BlockContext,
    output: TransactionOutput,
) -> ComplexStep {
    match output {
        TransactionOutput::Balance { receiver, amount } => if receiver_failure(
            c.d.info,
            ctx,
            at,
            receiver,
        ) is Some {
            ComplexStep { broken: receiver_failure(c.d.info, ctx, at, receiver), ..c }
        } else {
            ComplexStep {
                d: c.d.with_info(credited_if_seeded(c.d.info, receiver, amount)),
                out_sum: node_info::saturating_sum(c.out_sum, amount),
                ..c
            }
        },
        TransactionOutput::Utxo { amount } => c,
    }
}

/// The outputs from `from` on.
pub open spec fn outputs_applied(
    c: ComplexStep,
    ctx: PassView,
    at: BlockContext,
    outputs: Seq<TransactionOutput>,
    from: int,
) -> ComplexStep
    decreases outputs.len() - from,
{
    if c.broken is Some || from < 0 || from >= outputs.len() {
        c
    } else {
        outputs_applied(output_applied(c, ctx, at, outputs[from]), ctx, at, outputs, from + 1)
    }
}

/// A complex transaction. One that spends balances alone may not create more
/// than it spends; what it does not pass on is the fee.
pub open spec fn complex_applied(
    s: Step,
    ctx: PassView,
    at: BlockContext,
    tx: Transaction,
    cx: ComplexTransaction,
) -> Step {
    let spent = inputs_applied(complex_start(s.d), ctx, at, tx.vote, cx.inputs@, 0);
    let paid = outputs_applied(spent, ctx, at, cx.outputs@, 0);
    if paid.broken is Some {
        Step { d: paid.d, broken: paid.broken, ..s }
    } else if !paid.has_utxo_input && cx.inputs@.len() > 0 && paid.out_sum > paid.in_sum {
        Step {
            d: paid.d,
            broken: Some(ValidationReason::InsufficientTransactionInputs),
            ..s
        }
    } else {
        Step {
            d: paid.d,
            fees: node_info::saturating_sum(
                s.fees,
                node_info::saturating_difference(paid.in_sum, paid.out_sum),
            ),
            broken: None,
        }
    }
}

/// One transaction.
pub open spec fn transaction_applied(
    s: Step,
    ctx: PassView,
    at: BlockContext,
    tx: Transaction,
) -> Step {
    match tx.body {
        TransactionBody::NodeTransfer(nt) => transfer_applied(s, ctx, at, tx, nt),
        TransactionBody::Registration(reg) => registration_applied(s, ctx, at, tx, reg),
        TransactionBody::Complex(cx) => complex_applied(s, ctx, at, tx, cx),
        TransactionBody::Unknown => Step {
            broken: Some(ValidationReason::MalformedPayload),
            ..s
        },
    }
}

/// The transactions from `from` on.
pub open spec fn transactions_applied(
    s: Step,
    ctx: PassView,
    at: BlockContext,
    txs: Seq<Transaction>,
    from: int,
) -> Step
    decreases txs.len() - from,
{
    if s.broken is Some || from < 0 || from >= txs.len() {
        s
    } else {
        transactions_applied(transaction_applied(s, ctx, at, txs[from]), ctx, at, txs, from + 1)
    }
}

// -- Blocks ------------------------------------------------------------------

/// The entries of a balance block from `from` on.
pub open spec fn entries_seeded(
    info: InfoView,
    entries: Seq<NodeBalance>,
    idx: u32,
    from: int,
) -> InfoView
    decreases entries.len() - from,
{
    if from < 0 || from >= entries.len() {
        info
    } else {
        entries_seeded(
            info.with_node(
                entries[from].owner,
                entries[from].public_key@,
                entries[from].balance,
                idx,
            ),
            entries,
            idx,
            from + 1,
        )
    }
}

/// A balance block. The first one says how many nodes there are; later ones
/// must agree.
pub open spec fn balances_applied(s: Step, at: BlockContext, payload: BalancePayload) -> Step {
    let d = s.d;
    if d.saw_balance && payload.max_node_id != d.info.max_known_node_id {
        Step { broken: Some(ValidationReason::BalanceMaxNodeIdMismatch), ..s }
    } else {
        let counted = if payload.max_node_id > d.info.max_known_node_id {
            d.info.with_watermark(payload.max_node_id)
        } else {
            d.info
        };
        Step {
            d: Derivation {
                info: entries_seeded(counted, payload.entries@, at.idx, 0),
                saw_balance: true,
                ..d
            },
            ..s
        }
    }
}

/// The payload of a block.
pub open spec fn payload_applied(s: Step, ctx: PassView, at: BlockContext, block: ChainBlock) -> Step {
    if block.payload_type == PAYLOAD_TYPE_BALANCE {
        match block.payload {
            BlockPayload::Balances(payload) => balances_applied(s, at, payload),
            _ => Step { broken: Some(ValidationReason::MalformedPayload), ..s },
        }
    } else if block.payload_type == PAYLOAD_TYPE_TRANSACTION {
        match block.payload {
            BlockPayload::Transactions(txs) => transactions_applied(s, ctx, at, txs@, 0),
            _ => Step { broken: Some(ValidationReason::MalformedPayload), ..s },
        }
    } else if block.payload_type == PAYLOAD_TYPE_CHAIN_CONFIG {
        if ctx.held is Some && block.config_content() != ctx.held {
            Step { broken: Some(ValidationReason::ChainConfigMismatch), ..s }
        } else {
            s
        }
    } else {
        s
    }
}

/// The rules for the block as a whole: its size, what it follows, and its
/// creator's signature.
pub open spec fn header_checked(
    d: Derivation,
    ctx: PassView,
    block: ChainBlock,
    idx: u32,
    prev_hash: Option<BlockHash>,
) -> (Derivation, Option<ValidationReason>) {
    if block.bytes@.len() > ctx.size_limit {
        (d, Some(ValidationReason::BlockTooLarge))
    } else if prev_hash is Some && block.previous_hash != prev_hash->0 {
        (d, Some(ValidationReason::PreviousHashMismatch))
    } else {
        match creator_key(ctx, d.info, block.creator) {
            None => (
                d,
                if ctx.genesis_anchored && block.sequence != 0 {
                    Some(ValidationReason::UnseededActor)
                } else {
                    None
                },
            ),
            Some(key) => {
                let check = creator_check(block, idx, key);
                (
                    d.recorded(check),
                    if (ctx.holds)(check) {
                        None
                    } else {
                        Some(ValidationReason::CreatorSignatureInvalid)
                    },
                )
            },
        }
    }
}

/// The reward of the creator, if it is known; the two founding blocks carry
/// none.
pub open spec fn creator_rewarded(info: InfoView, block: ChainBlock, fees: u64) -> InfoView {
    if block.sequence != 0 && block.sequence != 1 && info.seeded(block.creator) {
        info.credited(
            block.creator,
            node_info::saturating_sum(block.mined_amount as u64, fees),
        )
    } else {
        info
    }
}

/// One block of the candidate; `position` counts from the lowest one.
pub open spec fn block_derived(
    d: Derivation,
    ctx: PassView,
    block: ChainBlock,
    idx: u32,
    position: int,
    prev_hash: Option<BlockHash>,
) -> (Derivation, Option<ProcessingError>) {
    let at = BlockContext { sequence: block.sequence, idx };
    let (checked, failure) = header_checked(d, ctx, block, idx, prev_hash);
    if failure is Some {
        (checked, Some(ProcessingError::Invalid { block_idx: idx, reason: failure->0 }))
    } else {
        let s = payload_applied(Step { d: checked, fees: 0, broken: None }, ctx, at, block);
        if s.broken is Some {
            (s.d, Some(ProcessingError::Invalid { block_idx: idx, reason: s.broken->0 }))
        } else if ctx.vote_failure is Some && (ctx.vote_failure->0).0 == position {
            (s.d, Some(ProcessingError::Vote((ctx.vote_failure->0).1)))
        } else {
            (s.d.with_info(creator_rewarded(s.d.info, block, s.fees)), None)
        }
    }
}

/// The candidate walked upward, `left` of its blocks still to come: the next one
/// is `marked[left - 1]`.
pub open spec fn segment_derived(
    d: Derivation,
    ctx: PassView,
    left: nat,
    prev_hash: Option<BlockHash>,
) -> (Derivation, Option<ProcessingError>)
    decreases left,
{
    if left == 0 {
        (d, None)
    } else {
        let i = left - 1;
        match ctx.reads[i] {
            None => (d, Some(ProcessingError::StorageRead)),
            Some(block) => {
                let (next, failure) = block_derived(
                    d,
                    ctx,
                    block,
                    ctx.marked[i],
                    ctx.marked.len() - left,
                    prev_hash,
                );
                if failure is Some {
                    (next, failure)
                } else {
                    segment_derived(next, ctx, i as nat, Some(block.hash))
                }
            },
        }
    }
}

// -- The walk ----------------------------------------------------------------

/// The assumption under which a candidate is walked before any signature is
/// verified.
pub open spec fn all_hold() -> spec_fn(CheckView) -> bool {
    |check: CheckView| true
}

/// What the walk knows of the candidate as a whole.
pub struct PassContext<'a> {
    pub marked: &'a Vec<u32>,
    pub reads: &'a Vec<Option<ChainBlock>>,
    pub genesis_anchored: bool,
    pub roster_bounded: bool,
    pub size_limit: u16,
    pub held: Option<&'a [u8]>,
    pub anchor_key: PublicKey,
    pub registration_size: usize,
    pub vote_failure: Option<(usize, VoteEngineError)>,
}

impl<'a> View for PassContext<'a> {
    type V = PassView;

    open spec fn view(&self) -> PassView {
        PassView {
            marked: self.marked@,
            reads: self.reads@,
            genesis_anchored: self.genesis_anchored,
            roster_bounded: self.roster_bounded,
            size_limit: self.size_limit,
            held: match self.held {
                Some(content) => Some(content@),
                None => None,
            },
            anchor_key: self.anchor_key@,
            registration_size: self.registration_size,
            vote_failure: match self.vote_failure {
                Some((position, error)) => Some((position as int, error)),
                None => None,
            },
            holds: all_hold(),
        }
    }
}

/// Every block that could be read is well formed.
pub open spec fn reads_wf(reads: Seq<Option<ChainBlock>>) -> bool {
    forall|i: int| 0 <= i < reads.len() && #[trigger] reads[i] is Some ==> (reads[i]->0).wf()
}

impl<'a> PassContext<'a> {
    /// Every slot of the candidate has its read, and every block is well formed.
    pub open spec fn wf(self) -> bool {
        &&& self.marked@.len() == self.reads@.len()
        &&& reads_wf(self.reads@)
    }
}

/// The state that the walk derives, and the signatures it rests on.
pub struct WorkingSet<const MAX_NODES: usize, const MAX_BLOCKS: usize> {
    pub info: NodeInfoState<MAX_NODES>,
    pub blocks: BlockTable<MAX_BLOCKS>,
    pub saw_balance: bool,
    pub checks: Vec<SignatureCheck>,
}

impl<const MAX_NODES: usize, const MAX_BLOCKS: usize> View for WorkingSet<MAX_NODES, MAX_BLOCKS> {
    type V = Derivation;

    open spec fn view(&self) -> Derivation {
        Derivation {
            info: self.info@,
            blocks: self.blocks.blocks@,
            saw_balance: self.saw_balance,
            checks: check_views(self.checks@),
        }
    }
}

/// Whether a step that left `d` and returned `result` did what `step` says.
pub open spec fn step_taken(step: Step, d: Derivation, result: Result<u64, ValidationReason>) -> bool {
    &&& step.d == d
    &&& match result {
        Ok(fees) => step.broken is None && step.fees == fees,
        Err(reason) => step.broken == Some(reason),
    }
}

/// The bytes from `from` up to `to`.
fn byte_range(bytes: &Vec<u8>, from: usize, to: usize) -> (range: Vec<u8>)
    requires
        from <= to <= bytes@.len(),
    ensures
        range@ == bytes@.subrange(from as int, to as int),
{
    let mut range: Vec<u8> = Vec::new();
    let mut i: usize = from;
    while i < to
        invariant
            from <= i <= to <= bytes@.len(),
            range@ == bytes@.subrange(from as int, i as int),
        decreases to - i,
    {
        range.push(bytes[i]);
        i = i + 1;
        assert(range@ =~= bytes@.subrange(from as int, i as int));
    }
    range
}

/// The bytes with those from `from` up to `to` set to zero.
fn blank_range(bytes: &Vec<u8>, from: usize, to: usize) -> (result: Vec<u8>)
    ensures
        result@ == blanked(bytes@, from as int, to as int),
{
    let mut result: Vec<u8> = Vec::new();
    let mut i: usize = 0;
    while i < bytes.len()
        invariant
            i <= bytes@.len(),
            result@ =~= blanked(bytes@, from as int, to as int).subrange(0, i as int),
        decreases bytes@.len() - i,
    {
        if from <= i && i < to {
            result.push(0u8);
        } else {
            result.push(bytes[i]);
        }
        i = i + 1;
    }
    result
}

impl<const MAX_NODES: usize, const MAX_BLOCKS: usize> WorkingSet<MAX_NODES, MAX_BLOCKS> {
    /// Both tables have their sizes.
    pub open spec fn wf(self) -> bool {
        self.info.wf() && self.blocks.wf()
    }

    fn record(&mut self, check: SignatureCheck)
        requires
            old(self).wf(),
        ensures
            final(self).wf(),
            final(self)@ == old(self)@.recorded(check@),
    {
        let ghost before = self@;
        self.checks.push(check);
        assert(self@.checks =~= before.checks.push(check@));
    }

    /// Whether the vote names a node.
    fn check_vote_target(&self, vote: u32) -> (known: bool)
        ensures
            known == vote_target_known(self@.info, vote),
    {
        vote == 0 || vote <= self.info.max_known_node_id()
    }

    /// Whether the node id can name a node.
    fn check_node_id_in_range(&self, node_id: u32) -> (inside: bool)
        ensures
            inside == in_range(self@.info, node_id),
    {
        node_id <= self.info.max_known_node_id()
    }

    /// The block's creator must have signed it, once its key is known. Whether
    /// the key is known is returned.
    fn verify_block_creator_signature(&mut self, ctx: &PassContext, block: &ChainBlock, idx: u32) -> (
        known: bool)
        requires
            old(self).wf(),
            block.wf(),
        ensures
            final(self).wf(),
            match creator_key(ctx@, old(self)@.info, block.creator) {
                Some(key) => known && final(self)@ == old(self)@.recorded(
                    creator_check(*block, idx, key),
                ),
                None => !known && final(self)@ == old(self)@,
            },
    {
        let key: PublicKey = if block.creator == 0 {
            ctx.anchor_key
        } else {
            match self.info.public_key_of(block.creator) {
                Some(key) => *key,
                None => {
                    return false;
                },
            }
        };
        let offset: usize = HEADER_SIZE - SIGNATURE_SIZE;
        let check = SignatureCheck {
            block_idx: idx,
            reason: ValidationReason::CreatorSignatureInvalid,
            message: blank_range(&block.bytes, offset, HEADER_SIZE),
            signature: byte_range(&block.bytes, offset, HEADER_SIZE),
            public_key: key,
        };
        assert(check@ =~= creator_check(*block, idx, key@));
        self.record(check);
        true
    }

    /// The initializer must have signed the transaction. Whether there is
    /// anything to check is returned: a transaction without a known key, too
    /// short to carry a signature, or longer than a registration does not hold.
    fn verify_tx_signature(&mut self, ctx: &PassContext, tx: &Transaction, signer: u32, idx: u32) -> (
        checkable: bool)
        requires
            old(self).wf(),
        ensures
            final(self).wf(),
            match transaction_check(old(self)@.info, ctx@, *tx, signer, idx) {
                Some(check) => checkable && final(self)@ == old(self)@.recorded(check),
                None => !checkable && final(self)@ == old(self)@,
            },
    {
        let key: PublicKey = match self.info.public_key_of(signer) {
            Some(key) => *key,
            None => {
                return false;
            },
        };
        let len: usize = tx.bytes.len();
        if len < SIGNATURE_SIZE || len > ctx.registration_size {
            return false;
        }
        let offset: usize = len - SIGNATURE_SIZE;
        let check = SignatureCheck {
            block_idx: idx,
            reason: ValidationReason::TransactionSignatureInvalid,
            message: blank_range(&tx.bytes, offset, len),
            signature: byte_range(&tx.bytes, offset, len),
            public_key: key,
        };
        assert(check@ =~= transaction_check(self@.info, ctx@, *tx, signer, idx)->0);
        self.record(check);
        true
    }

    /// The vote and the signature of a transaction whose initializer is known.
    fn check_actor(&mut self, tx: &Transaction, signer: u32, ctx: &PassContext, sequence: u32, idx: u32) -> (
        broken: Option<ValidationReason>)
        requires
            old(self).wf(),
        ensures
            final(self).wf(),
            (final(self)@, broken) == actor_checked(
                old(self)@,
                ctx@,
                (BlockContext { sequence, idx }),
                *tx,
                signer,
            ),
    {
        if !self.check_vote_target(tx.vote) {
            return Some(ValidationReason::VoteTargetUnknown);
        }
        if !self.verify_tx_signature(ctx, tx, signer, idx) {
            return Some(ValidationReason::TransactionSignatureInvalid);
        }
        None
    }

    fn actor_failure(&self, ctx: &PassContext, sequence: u32, idx: u32, node_id: u32) -> (broken: Option<
        ValidationReason,
    >)
        requires
            self.wf(),
        ensures
            broken == actor_failure(self@.info, ctx@, (BlockContext { sequence, idx }), node_id),
    {
        if ctx.genesis_anchored && sequence != 0 && !self.info.is_seeded(node_id) {
            Some(ValidationReason::UnseededActor)
        } else if ctx.roster_bounded && sequence != 0 && !self.check_node_id_in_range(node_id) {
            Some(ValidationReason::NodeIdOutOfRange)
        } else {
            None
        }
    }

    fn receiver_failure(&self, ctx: &PassContext, sequence: u32, idx: u32, node_id: u32) -> (
        broken: Option<ValidationReason>)
        requires
            self.wf(),
        ensures
            broken == receiver_failure(
                self@.info,
                ctx@,
                (BlockContext { sequence, idx }),
                node_id,
            ),
    {
        if ctx.roster_bounded && sequence != 0 && !self.check_node_id_in_range(node_id) {
            Some(ValidationReason::NodeIdOutOfRange)
        } else {
            None
        }
    }

    fn credit_if_seeded(&mut self, node_id: u32, amount: u64)
        requires
            old(self).wf(),
        ensures
            final(self).wf(),
            final(self)@ == old(self)@.with_info(
                credited_if_seeded(old(self)@.info, node_id, amount),
            ),
    {
        if self.info.is_seeded(node_id) {
            self.info.credit(node_id, amount);
        }
    }

    /// Applies a transfer; the fees collected in the block so far come in and go
    /// out.
    fn apply_transfer(
        &mut self,
        ctx: &PassContext,
        sequence: u32,
        idx: u32,
        tx: &Transaction,
        nt: &NodeTransfer,
        fees: u64,
    ) -> (result: Result<u64, ValidationReason>)
        requires
            old(self).wf(),
        ensures
            final(self).wf(),
            step_taken(
                transfer_applied(
                    (Step { d: old(self)@, fees, broken: None }),
                    ctx@,
                    (BlockContext { sequence, idx }),
                    *tx,
                    *nt,
                ),
                final(self)@,
                result,
            ),
    {
        let init: u32 = nt.initializer;
        if let Some(reason) = self.actor_failure(ctx, sequence, idx, init) {
            return Err(reason);
        }
        if let Some(reason) = self.receiver_failure(ctx, sequence, idx, nt.receiver) {
            return Err(reason);
        }
        let fee: u64 = nt.fee as u64;
        if sequence == 0 || !self.info.is_seeded(init) {
            self.credit_if_seeded(nt.receiver, nt.amount);
            return Ok(add_saturating(fees, fee));
        }
        if let Some(reason) = self.check_actor(tx, init, ctx, sequence, idx) {
            return Err(reason);
        }
        let debit: u64 = add_saturating(nt.amount, fee);
        if self.info.balance_of(init) < debit {
            return Err(ValidationReason::InsufficientBalance);
        }
        self.info.debit(init, debit);
        self.credit_if_seeded(nt.receiver, nt.amount);
        Ok(add_saturating(fees, fee))
    }

    /// Charges a registration to its initializer.
    fn charge_registration(
        &mut self,
        ctx: &PassContext,
        sequence: u32,
        idx: u32,
        tx: &Transaction,
        reg: &Registration,
        fees: u64,
    ) -> (result: Result<u64, ValidationReason>)
        requires
            old(self).wf(),
        ensures
            final(self).wf(),
            step_taken(
                registration_charged(
                    (Step { d: old(self)@, fees, broken: None }),
                    ctx@,
                    (BlockContext { sequence, idx }),
                    *tx,
                    *reg,
                ),
                final(self)@,
                result,
            ),
    {
        if let Some(reason) = self.check_actor(tx, reg.initializer, ctx, sequence, idx) {
            return Err(reason);
        }
        let debit: u64 = add_saturating(reg.registration_price, reg.fee);
        if self.info.balance_of(reg.initializer) < debit {
            return Err(ValidationReason::InsufficientBalance);
        }
        self.info.debit(reg.initializer, debit);
        Ok(add_saturating(fees, reg.fee))
    }

    /// Applies a registration.
    fn apply_registration(
        &mut self,
        ctx: &PassContext,
        sequence: u32,
        idx: u32,
        tx: &Transaction,
        reg: &Registration,
        fees: u64,
    ) -> (result: Result<u64, ValidationReason>)
        requires
            old(self).wf(),
        ensures
            final(self).wf(),
            step_taken(
                registration_applied(
                    (Step { d: old(self)@, fees, broken: None }),
                    ctx@,
                    (BlockContext { sequence, idx }),
                    *tx,
                    *reg,
                ),
                final(self)@,
                result,
            ),
    {
        if let Some(reason) = self.actor_failure(ctx, sequence, idx, reg.initializer) {
            return Err(reason);
        }
        let watermark: u32 = self.info.max_known_node_id();
        let expected: u32 = if watermark == u32::MAX {
            0
        } else {
            watermark + 1
        };
        if sequence != 0 && (ctx.genesis_anchored || self.saw_balance) && reg.new_node_id
            != expected {
            return Err(ValidationReason::RegistrationWatermark);
        }
        let mut collected: u64 = fees;
        if sequence != 0 && self.info.is_seeded(reg.initializer) {
            match self.charge_registration(ctx, sequence, idx, tx, reg, fees) {
                Ok(total) => {
                    collected = total;
                },
                Err(reason) => {
                    return Err(reason);
                },
            }
        }
        if self.info.key_is_registered(reg.new_public_key.as_slice()) {
            return Err(ValidationReason::DuplicatePublicKey);
        }
        if sequence != 0 && (reg.new_node_id as usize) < MAX_NODES && reg.new_node_id
            > self.info.max_known_node_id() {
            self.info.set_max_known_node_id(reg.new_node_id);
        }
        self.info.register_node(reg.new_node_id, reg.new_public_key.as_slice(), idx);
        Ok(collected)
    }

    /// Spends a referenced output. Only a block below the spending one can hold
    /// it; the blocks of the candidate are searched from the tip downward. One
    /// bit is set, so that the output cannot be spent again; a refusal changes
    /// nothing.
    pub fn resolve_and_spend_utxo(
        &mut self,
        ctx: &PassContext,
        sequence: u32,
        tr_hash: &BlockHash,
        output_index: u8,
    ) -> (result: Result<(), ValidationReason>)
        requires
            old(self).wf(),
            ctx.wf(),
        ensures
            final(self).wf(),
            ({
                let (blocks, failure) = output_spent(
                    old(self)@.blocks,
                    ctx@,
                    sequence,
                    *tr_hash,
                    output_index,
                    0,
                );
                &&& final(self)@ == (Derivation { blocks, ..old(self)@ })
                &&& match failure {
                    Some(reason) => result == Err::<(), ValidationReason>(reason),
                    None => result is Ok,
                }
            }),
            result is Err ==> final(self)@ == old(self)@,
            result is Ok ==> {
                &&& exists|k: int| #[trigger]
                    ledger_laws::first_holder(
                        old(self)@.blocks,
                        ctx@,
                        sequence,
                        *tr_hash,
                        output_index,
                        0,
                        k,
                    ) && ledger_laws::one_bit_set(
                        old(self)@.blocks,
                        final(self)@.blocks,
                        ctx@.marked[k],
                        spent_bits::utxo_bit(ctx@.reads[k]->0, *tr_hash, output_index)->0,
                    )
                &&& output_spent(
                    final(self)@.blocks,
                    ctx@,
                    sequence,
                    *tr_hash,
                    output_index,
                    0,
                ) == (final(self)@.blocks, Some(ValidationReason::UtxoAlreadySpent))
            },
            result == Err::<(), ValidationReason>(ValidationReason::UtxoUnresolvable) <==> (forall|
                k: int,
            | !#[trigger]
                ledger_laws::holds_output(
                    old(self)@.blocks,
                    ctx@,
                    k,
                    0,
                    sequence,
                    *tr_hash,
                    output_index,
                )),
    {
        let ghost before = self@;
        proof {
            let view = ctx@;
            ledger_laws::spending_sets_one_bit(
                before.blocks,
                view,
                sequence,
                *tr_hash,
                output_index,
                0,
            );
            if output_spent(before.blocks, view, sequence, *tr_hash, output_index, 0).1 is None {
                ledger_laws::second_spend_is_refused(
                    before.blocks,
                    view,
                    sequence,
                    *tr_hash,
                    output_index,
                );
            }
        }
        self.spend_first_found(ctx, sequence, tr_hash, output_index)
    }

    fn spend_first_found(
        &mut self,
        ctx: &PassContext,
        sequence: u32,
        tr_hash: &BlockHash,
        output_index: u8,
    ) -> (result: Result<(), ValidationReason>)
        requires
            old(self).wf(),
            ctx.wf(),
        ensures
            final(self).wf(),
            ({
                let (blocks, failure) = output_spent(
                    old(self)@.blocks,
                    ctx@,
                    sequence,
                    *tr_hash,
                    output_index,
                    0,
                );
                &&& final(self)@ == (Derivation { blocks, ..old(self)@ })
                &&& match failure {
                    Some(reason) => result == Err::<(), ValidationReason>(reason),
                    None => result is Ok,
                }
            }),
    {
        let ghost before = self@;
        let mut i: usize = 0;
        while i < ctx.marked.len()
            invariant
                self.wf(),
                ctx.wf(),
                before == old(self)@,
                self@ == before,
                i <= ctx.marked@.len(),
                output_spent(before.blocks, ctx@, sequence, *tr_hash, output_index, 0)
                    == output_spent(
                    before.blocks,
                    ctx@,
                    sequence,
                    *tr_hash,
                    output_index,
                    i as int,
                ),
            decreases ctx.marked@.len() - i,
        {
            let idx: u32 = ctx.marked[i];
            let below: bool = match self.blocks.get(idx) {
                Some(entry) => entry.sequence() < sequence,
                None => false,
            };
            if below {
                if let Some(block) = &ctx.reads[i] {
                    assert(ctx.reads@[i as int] is Some);
                    assert(block.wf());
                    if let Some(bit) = resolve_utxo_bit(block, tr_hash, output_index) {
                        let spent: bool = match self.blocks.spent_bit(idx, bit) {
                            Some(spent) => spent,
                            None => true,
                        };
                        if spent {
                            return Err(ValidationReason::UtxoAlreadySpent);
                        }
                        let _ = self.blocks.set_spent_bit(idx, bit, true);
                        return Ok(());
                    }
                }
            }
            i = i + 1;
        }
        Err(ValidationReason::UtxoUnresolvable)
    }

    /// Applies the inputs of a complex transaction; returns what its balance
    /// inputs bring in, and whether it spends an output.
    fn apply_inputs(
        &mut self,
        ctx: &PassContext,
        sequence: u32,
        idx: u32,
        vote: u32,
        inputs: &Vec<TransactionInput>,
    ) -> (result: Result<(u64, bool), ValidationReason>)
        requires
            old(self).wf(),
            ctx.wf(),
        ensures
            final(self).wf(),
            ({
                let applied = inputs_applied(
                    complex_start(old(self)@),
                    ctx@,
                    (BlockContext { sequence, idx }),
                    vote,
                    inputs@,
                    0,
                );
                &&& applied.d == final(self)@
                &&& applied.out_sum == 0
                &&& match result {
                    Ok((in_sum, has_utxo_input)) => applied.broken is None && applied.in_sum
                        == in_sum && applied.has_utxo_input == has_utxo_input,
                    Err(reason) => applied.broken == Some(reason),
                }
            }),
    {
        let ghost start = complex_start(self@);
        let ghost at = BlockContext { sequence, idx };
        let mut in_sum: u64 = 0;
        let mut has_utxo_input: bool = false;
        let mut i: usize = 0;
        while i < inputs.len()
            invariant
                self.wf(),
                ctx.wf(),
                i <= inputs@.len(),
                start == complex_start(old(self)@),
                at == (BlockContext { sequence, idx }),
                inputs_applied(start, ctx@, at, vote, inputs@, 0) == inputs_applied(
                    (ComplexStep { d: self@, in_sum, out_sum: 0, has_utxo_input, broken: None }),
                    ctx@,
                    at,
                    vote,
                    inputs@,
                    i as int,
                ),
            decreases inputs@.len() - i,
        {
            let ghost c = ComplexStep {
                d: self@,
                in_sum,
                out_sum: 0,
                has_utxo_input,
                broken: None,
            };
            let ghost after = input_applied(c, ctx@, at, vote, inputs@[i as int]);
            proof {
                reveal_with_fuel(inputs_applied, 2);
            }
            match inputs[i] {
                TransactionInput::Balance { anchor_sequence: _, initializer, amount } => {
                    if let Some(reason) = self.actor_failure(ctx, sequence, idx, initializer) {
                        assert(after == (ComplexStep { broken: Some(reason), ..c }));
                        return Err(reason);
                    }
                    if sequence != 0 && self.info.is_seeded(initializer) {
                        if !self.check_vote_target(vote) {
                            return Err(ValidationReason::VoteTargetUnknown);
                        }
                        if self.info.balance_of(initializer) < amount {
                            return Err(ValidationReason::InsufficientBalance);
                        }
                        self.info.debit(initializer, amount);
                    }
                    in_sum = add_saturating(in_sum, amount);
                },
                TransactionInput::Utxo { tr_hash, output_index } => {
                    has_utxo_input = true;
                    if let Err(reason) = self.resolve_and_spend_utxo(
                        ctx,
                        sequence,
                        &tr_hash,
                        output_index,
                    ) {
                        return Err(reason);
                    }
                },
            }
            assert(after =~= (ComplexStep {
                d: self@,
                in_sum,
                out_sum: 0,
                has_utxo_input,
                broken: None,
            }));
            i = i + 1;
        }
        Ok((in_sum, has_utxo_input))
    }

    /// Applies the outputs of a complex transaction; returns what its balance
    /// outputs pay out.
    fn apply_outputs(
        &mut self,
        ctx: &PassContext,
        sequence: u32,
        idx: u32,
        outputs: &Vec<TransactionOutput>,
        in_sum: u64,
        has_utxo_input: bool,
    ) -> (result: Result<u64, ValidationReason>)
        requires
            old(self).wf(),
        ensures
            final(self).wf(),
            ({
                let applied = outputs_applied(
                    (ComplexStep {
                        d: old(self)@,
                        in_sum,
                        out_sum: 0,
                        has_utxo_input,
                        broken: None,
                    }),
                    ctx@,
                    (BlockContext { sequence, idx }),
                    outputs@,
                    0,
                );
                &&& applied.d == final(self)@
                &&& applied.in_sum == in_sum
                &&& applied.has_utxo_input == has_utxo_input
                &&& match result {
                    Ok(out_sum) => applied.broken is None && applied.out_sum == out_sum,
                    Err(reason) => applied.broken == Some(reason),
                }
            }),
    {
        let ghost start = ComplexStep {
            d: self@,
            in_sum,
            out_sum: 0,
            has_utxo_input,
            broken: None,
        };
        let ghost at = BlockContext { sequence, idx };
        let mut out_sum: u64 = 0;
        let mut i: usize = 0;
        while i < outputs.len()
            invariant
                self.wf(),
                i <= outputs@.len(),
                start == (ComplexStep {
                    d: old(self)@,
                    in_sum,
                    out_sum: 0,
                    has_utxo_input,
                    broken: None,
                }),
                at == (BlockContext { sequence, idx }),
                outputs_applied(start, ctx@, at, outputs@, 0) == outputs_applied(
                    (ComplexStep { d: self@, in_sum, out_sum, has_utxo_input, broken: None }),
                    ctx@,
                    at,
                    outputs@,
                    i as int,
                ),
            decreases outputs@.len() - i,
        {
            let ghost c = ComplexStep { d: self@, in_sum, out_sum, has_utxo_input, broken: None };
            let ghost after = output_applied(c, ctx@, at, outputs@[i as int]);
            proof {
                reveal_with_fuel(outputs_applied, 2);
            }
            match outputs[i] {
                TransactionOutput::Balance { receiver, amount } => {
                    if let Some(reason) = self.receiver_failure(ctx, sequence, idx, receiver) {
                        return Err(reason);
                    }
                    self.credit_if_seeded(receiver, amount);
                    out_sum = add_saturating(out_sum, amount);
                },
                TransactionOutput::Utxo { amount: _ } => {},
            }
            assert(after =~= (ComplexStep {
                d: self@,
                in_sum,
                out_sum,
                has_utxo_input,
                broken: None,
            }));
            i = i + 1;
        }
        Ok(out_sum)
    }

    /// Applies a complex transaction.
    fn apply_complex(
        &mut self,
        ctx: &PassContext,
        sequence: u32,
        idx: u32,
        tx: &Transaction,
        cx: &ComplexTransaction,
        fees: u64,
    ) -> (result: Result<u64, ValidationReason>)
        requires
            old(self).wf(),
            ctx.wf(),
        ensures
            final(self).wf(),
            step_taken(
                complex_applied(
                    (Step { d: old(self)@, fees, broken: None }),
                    ctx@,
                    (BlockContext { sequence, idx }),
                    *tx,
                    *cx,
                ),
                final(self)@,
                result,
            ),
    {
        let (in_sum, has_utxo_input) = match self.apply_inputs(
            ctx,
            sequence,
            idx,
            tx.vote,
            &cx.inputs,
        ) {
            Ok(spent) => spent,
            Err(reason) => {
                return Err(reason);
            },
        };
        let out_sum: u64 = match self.apply_outputs(
            ctx,
            sequence,
            idx,
            &cx.outputs,
            in_sum,
            has_utxo_input,
        ) {
            Ok(paid) => paid,
            Err(reason) => {
                return Err(reason);
            },
        };
        if !has_utxo_input && cx.inputs.len() > 0 && out_sum > in_sum {
            return Err(ValidationReason::InsufficientTransactionInputs);
        }
        Ok(add_saturating(fees, subtract_saturating(in_sum, out_sum)))
    }

    /// Applies the transactions of a block; returns the fees they pay.
    fn apply_transactions(
        &mut self,
        ctx: &PassContext,
        sequence: u32,
        idx: u32,
        txs: &Vec<Transaction>,
    ) -> (result: Result<u64, ValidationReason>)
        requires
            old(self).wf(),
            ctx.wf(),
        ensures
            final(self).wf(),
            step_taken(
                transactions_applied(
                    (Step { d: old(self)@, fees: 0, broken: None }),
                    ctx@,
                    (BlockContext { sequence, idx }),
                    txs@,
                    0,
                ),
                final(self)@,
                result,
            ),
    {
        let ghost start = Step { d: self@, fees: 0, broken: None };
        let ghost at = BlockContext { sequence, idx };
        let mut fees: u64 = 0;
        let mut i: usize = 0;
        while i < txs.len()
            invariant
                self.wf(),
                ctx.wf(),
                i <= txs@.len(),
                start == (Step { d: old(self)@, fees: 0, broken: None }),
                at == (BlockContext { sequence, idx }),
                transactions_applied(start, ctx@, at, txs@, 0) == transactions_applied(
                    (Step { d: self@, fees, broken: None }),
                    ctx@,
                    at,
                    txs@,
                    i as int,
                ),
            decreases txs@.len() - i,
        {
            let ghost s = Step { d: self@, fees, broken: None };
            let ghost after = transaction_applied(s, ctx@, at, txs@[i as int]);
            proof {
                reveal_with_fuel(transactions_applied, 2);
            }
            let tx: &Transaction = &txs[i];
            let applied: Result<u64, ValidationReason> = match &tx.body {
                TransactionBody::NodeTransfer(nt) => self.apply_transfer(
                    ctx,
                    sequence,
                    idx,
                    tx,
                    nt,
                    fees,
                ),
                TransactionBody::Registration(reg) => self.apply_registration(
                    ctx,
                    sequence,
                    idx,
                    tx,
                    reg,
                    fees,
                ),
                TransactionBody::Complex(cx) => self.apply_complex(
                    ctx,
                    sequence,
                    idx,
                    tx,
                    cx,
                    fees,
                ),
                TransactionBody::Unknown => Err(ValidationReason::MalformedPayload),
            };
            assert(step_taken(after, self@, applied));
            match applied {
                Ok(total) => {
                    fees = total;
                },
                Err(reason) => {
                    return Err(reason);
                },
            }
            assert(after =~= (Step { d: self@, fees, broken: None }));
            i = i + 1;
        }
        Ok(fees)
    }

    /// Applies a balance block.
    fn apply_balances(&mut self, payload: &BalancePayload, idx: u32) -> (broken: Option<
        ValidationReason,
    >)
        requires
            old(self).wf(),
        ensures
            final(self).wf(),
            forall|at: BlockContext, fees: u64|
                at.idx == idx ==> #[trigger] balances_applied(
                    (Step { d: old(self)@, fees, broken: None }),
                    at,
                    *payload,
                ) == (Step { d: final(self)@, fees, broken }),
    {
        let watermark: u32 = self.info.max_known_node_id();
        if self.saw_balance && payload.max_node_id != watermark {
            return Some(ValidationReason::BalanceMaxNodeIdMismatch);
        }
        if payload.max_node_id > watermark {
            self.info.set_max_known_node_id(payload.max_node_id);
        }
        self.saw_balance = true;
        let ghost counted = self@;
        let mut i: usize = 0;
        while i < payload.entries.len()
            invariant
                self.wf(),
                i <= payload.entries@.len(),
                self@ == counted.with_info(self@.info),
                entries_seeded(counted.info, payload.entries@, idx, 0) == entries_seeded(
                    self@.info,
                    payload.entries@,
                    idx,
                    i as int,
                ),
            decreases payload.entries@.len() - i,
        {
            let entry: NodeBalance = payload.entries[i];
            self.info.seed_node(entry.owner, entry.public_key.as_slice(), entry.balance, idx);
            i = i + 1;
        }
        None
    }

    /// Validates one block of the candidate against the state derived from the
    /// blocks below it, and adds its effects. `position` counts from the lowest
    /// block; `prev_hash` is the hash of the block before it.
    pub fn validate_and_derive_block(
        &mut self,
        ctx: &PassContext,
        block: &ChainBlock,
        idx: u32,
        position: usize,
        prev_hash: Option<BlockHash>,
    ) -> (result: Result<(), ProcessingError>)
        requires
            old(self).wf(),
            ctx.wf(),
            block.wf(),
        ensures
            final(self).wf(),
            ({
                let (derived, failure) = block_derived(
                    old(self)@,
                    ctx@,
                    *block,
                    idx,
                    position as int,
                    prev_hash,
                );
                &&& final(self)@ == derived
                &&& match result {
                    Ok(_) => failure is None,
                    Err(error) => failure == Some(error),
                }
            }),
    {
        let ghost at = BlockContext { sequence: block.sequence, idx };
        if block.len() > ctx.size_limit as usize {
            return Err(
                ProcessingError::Invalid {
                    block_idx: idx,
                    reason: ValidationReason::BlockTooLarge,
                },
            );
        }
        if let Some(expected) = prev_hash {
            if !hash_eq(&block.previous_hash, &expected) {
                return Err(
                    ProcessingError::Invalid {
                        block_idx: idx,
                        reason: ValidationReason::PreviousHashMismatch,
                    },
                );
            }
        }
        let known: bool = self.verify_block_creator_signature(ctx, block, idx);
        if !known && ctx.genesis_anchored && block.sequence != 0 {
            return Err(
                ProcessingError::Invalid {
                    block_idx: idx,
                    reason: ValidationReason::UnseededActor,
                },
            );
        }
        let ghost checked = self@;
        let ghost s = payload_applied(
            Step { d: checked, fees: 0, broken: None },
            ctx@,
            at,
            *block,
        );
        let applied: Result<u64, ValidationReason> = if block.payload_type
            == PAYLOAD_TYPE_BALANCE {
            match &block.payload {
                BlockPayload::Balances(payload) => {
                    let broken = self.apply_balances(payload, idx);
                    assert(balances_applied(
                        (Step { d: checked, fees: 0, broken: None }),
                        at,
                        *payload,
                    ) == (Step { d: self@, fees: 0, broken }));
                    match broken {
                        Some(reason) => Err(reason),
                        None => Ok(0),
                    }
                },
                _ => Err(ValidationReason::MalformedPayload),
            }
        } else if block.payload_type == PAYLOAD_TYPE_TRANSACTION {
            match &block.payload {
                BlockPayload::Transactions(txs) => self.apply_transactions(
                    ctx,
                    block.sequence,
                    idx,
                    txs,
                ),
                _ => Err(ValidationReason::MalformedPayload),
            }
        } else if block.payload_type == PAYLOAD_TYPE_CHAIN_CONFIG {
            match ctx.held {
                Some(held) => {
                    let same: bool = match block.chain_config() {
                        Some(envelope) => bytes_eq(envelope.content.as_slice(), held),
                        None => false,
                    };
                    if same {
                        Ok(0)
                    } else {
                        Err(ValidationReason::ChainConfigMismatch)
                    }
                },
                None => Ok(0),
            }
        } else {
            Ok(0)
        };
        assert(step_taken(s, self@, applied));
        let fees: u64 = match applied {
            Ok(fees) => fees,
            Err(reason) => {
                return Err(ProcessingError::Invalid { block_idx: idx, reason });
            },
        };
        if let Some((refused, error)) = ctx.vote_failure {
            if refused == position {
                return Err(ProcessingError::Vote(error));
            }
        }
        if block.sequence != 0 && block.sequence != 1 && self.info.is_seeded(block.creator) {
            self.info.credit(block.creator, add_saturating(block.mined_amount as u64, fees));
        }
        Ok(())
    }

    /// Walks the whole candidate from its lowest block upward.
    pub fn derive_segment(&mut self, ctx: &PassContext) -> (result: Result<(), ProcessingError>)
        requires
            old(self).wf(),
            ctx.wf(),
        ensures
            final(self).wf(),
            ({
                let (derived, failure) = segment_derived(
                    old(self)@,
                    ctx@,
                    ctx.marked@.len(),
                    None,
                );
                &&& final(self)@ == derived
                &&& match result {
                    Ok(_) => failure is None,
                    Err(error) => failure == Some(error),
                }
            }),
    {
        let ghost start = self@;
        let count: usize = ctx.marked.len();
        let mut left: usize = count;
        let mut prev_hash: Option<BlockHash> = None;
        while left > 0
            invariant
                self.wf(),
                ctx.wf(),
                start == old(self)@,
                count == ctx.marked@.len(),
                left <= count,
                segment_derived(start, ctx@, count as nat, None) == segment_derived(
                    self@,
                    ctx@,
                    left as nat,
                    prev_hash,
                ),
            decreases left,
        {
            let i: usize = left - 1;
            match &ctx.reads[i] {
                None => {
                    return Err(ProcessingError::StorageRead);
                },
                Some(block) => {
                    assert(ctx.reads@[i as int] is Some);
                    if let Err(error) = self.validate_and_derive_block(
                        ctx,
                        block,
                        ctx.marked[i],
                        count - left,
                        prev_hash,
                    ) {
                        return Err(error);
                    }
                    prev_hash = Some(block.hash);
                },
            }
            left = i;
        }
        Ok(())
    }
}

} // verus!
