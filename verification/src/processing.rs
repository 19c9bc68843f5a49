//! Processing a candidate chain: the pass that validates it from its lowest
//! block to its tip and derives the state it stands for.
//!
//! The blocks of a candidate are read back by the caller, who also runs the vote
//! engine over them and verifies signatures. A pass takes what was read and
//! where the vote engine stopped, and yields a [`PassPlan`]: what came of the
//! candidate if every recorded signature holds, and the signatures themselves.
//! [`Blockchain::settle_processing_pass`] then takes the verdicts.

use vstd::prelude::*;

use crate::api::{Blockchain, NodeView};
use crate::block_data::{
    BlockPayload, ChainBlock, PAYLOAD_TYPE_BALANCE, PAYLOAD_TYPE_CHAIN_CONFIG,
};
use crate::blocks as tree;
use crate::blocks::{BlockEntry, BlockTable, NONE_REF};
use crate::derivation;
use crate::derivation::{
    CheckView, Derivation, PassContext, PassView, ProcessingError, SignatureCheck,
    ValidationReason, VoteEngineError, WorkingSet,
};
use crate::hash::bytes_eq;
use crate::node_info::{InfoView, NodeInfoState};

verus! {

/// What a pass found, provided that every signature in `checks` holds.
pub struct PassPlan {
    /// The slots of the candidate, its tip first.
    pub segment: Vec<u32>,
    /// The signatures that have to hold, in the order in which they matter.
    pub checks: Vec<SignatureCheck>,
    pub outcome: Result<(), ProcessingError>,
}

/// How the configuration that a block read back with compares with another one.
#[derive(Debug, Clone, Copy, PartialEq, Eq, Structural)]
pub enum ConfigPreload {
    /// It is the same.
    Matches,
    /// It is another one, which says something about the block.
    Differs,
    /// The block could not be read or frames none, which says nothing about it.
    Unreadable,
}

/// How a configuration content compares with the one at hand.
pub open spec fn config_verdict(own: Seq<u8>, content: Option<Seq<u8>>) -> ConfigPreload {
    match content {
        Some(read) => if read == own {
            ConfigPreload::Matches
        } else {
            ConfigPreload::Differs
        },
        None => ConfigPreload::Unreadable,
    }
}

/// The configuration content that a block read back with.
pub open spec fn content_read(block: Option<ChainBlock>) -> Option<Seq<u8>> {
    match block {
        Some(read) => read.config_content(),
        None => None,
    }
}

/// The candidate below `cur`, tip first, behind the slots of `above`; `steps`
/// bounds the blocks still to come.
pub open spec fn segment_below(
    s: Seq<BlockEntry>,
    cur: u32,
    steps: nat,
    above: Seq<u32>,
) -> Result<Seq<u32>, ProcessingError>
    decreases steps,
{
    if steps == 0 {
        Err(ProcessingError::MarkOverflow)
    } else if !tree::present(s, cur) {
        Err(ProcessingError::MissingBlock)
    } else if s[cur as int].parent_ref == NONE_REF {
        Ok(above.push(cur))
    } else {
        segment_below(s, s[cur as int].parent_ref, (steps - 1) as nat, above.push(cur))
    }
}

/// The slots of the candidate that ends in `tip`: the tip and its ancestors, as
/// far down as the tree links them.
pub open spec fn candidate(s: Seq<BlockEntry>, tip: u32) -> Result<Seq<u32>, ProcessingError> {
    segment_below(s, tip, s.len(), Seq::empty())
}

/// The blocks from `cur` down to where the links end, or to the first empty
/// slot, behind the slots of `above`; `steps` bounds the blocks still to come.
pub open spec fn path_below(
    s: Seq<BlockEntry>,
    cur: u32,
    steps: nat,
    above: Seq<u32>,
) -> Seq<u32>
    decreases steps,
{
    if steps == 0 || !tree::present(s, cur) {
        above
    } else if s[cur as int].parent_ref == NONE_REF {
        above.push(cur)
    } else {
        path_below(s, s[cur as int].parent_ref, (steps - 1) as nat, above.push(cur))
    }
}

/// The blocks on the way down from `tip`, whether or not they make a candidate.
pub open spec fn candidate_path(s: Seq<BlockEntry>, tip: u32) -> Seq<u32> {
    path_below(s, tip, s.len(), Seq::empty())
}

proof fn lemma_path_below(s: Seq<BlockEntry>, cur: u32, steps: nat, above: Seq<u32>)
    requires
        forall|i: int| 0 <= i < above.len() ==> tree::present(s, #[trigger] above[i]),
    ensures
        segment_below(s, cur, steps, above) matches Ok(segment) ==> path_below(
            s,
            cur,
            steps,
            above,
        ) == segment,
        forall|i: int|
            0 <= i < path_below(s, cur, steps, above).len() ==> tree::present(
                s,
                #[trigger] path_below(s, cur, steps, above)[i],
            ),
    decreases steps,
{
    let path = path_below(s, cur, steps, above);
    if steps > 0 && tree::present(s, cur) {
        let more = above.push(cur);
        assert forall|i: int| 0 <= i < more.len() implies tree::present(s, #[trigger] more[i]) by {
            if i < above.len() {
                assert(more[i] == above[i]);
            }
        }
        if s[cur as int].parent_ref != NONE_REF {
            lemma_path_below(s, s[cur as int].parent_ref, (steps - 1) as nat, more);
            let below = path_below(s, s[cur as int].parent_ref, (steps - 1) as nat, more);
            assert(path == below);
            assert(forall|i: int| 0 <= i < below.len() ==> tree::present(s, #[trigger] below[i]));
        } else {
            assert(path == more);
        }
    } else {
        assert(path == above);
    }
}

/// The path of a candidate is the candidate, and every slot of a path holds a
/// block.
pub proof fn path_is_in_the_tree(s: Seq<BlockEntry>, tip: u32)
    ensures
        candidate(s, tip) matches Ok(segment) ==> candidate_path(s, tip) == segment,
        ({
            let path = candidate_path(s, tip);
            forall|i: int| 0 <= i < path.len() ==> tree::present(s, #[trigger] path[i])
        }),
{
    lemma_path_below(s, tip, s.len(), Seq::empty());
}

/// Where among the first `end` slots the last one of the payload type stands;
/// with the tip first, that is the lowest block of the type.
pub open spec fn last_of_kind(
    s: Seq<BlockEntry>,
    segment: Seq<u32>,
    kind: u8,
    end: nat,
) -> Option<int>
    decreases end,
{
    if end == 0 {
        None
    } else if s[segment[end - 1] as int].kind() == kind {
        Some(end - 1)
    } else {
        last_of_kind(s, segment, kind, (end - 1) as nat)
    }
}

/// The tree with every output of the blocks from `from` on marked as unspent.
pub open spec fn spent_cleared(s: Seq<BlockEntry>, segment: Seq<u32>, from: int) -> Seq<BlockEntry>
    decreases segment.len() - from,
{
    if from < 0 || from >= segment.len() {
        s
    } else {
        spent_cleared(
            tree::revised(s, segment[from], s[segment[from] as int].unspent()),
            segment,
            from + 1,
        )
    }
}

/// A processed candidate: the node after the pass, the slots of the candidate,
/// the signatures that had to hold, and what failed, if anything did.
#[verifier::ext_equal]
pub ghost struct PassResult {
    pub node: NodeView,
    pub segment: Seq<u32>,
    pub checks: Seq<CheckView>,
    pub failure: Option<ProcessingError>,
}

impl NodeView {
    /// Whether the candidate starts at the first block of the chain.
    pub open spec fn genesis_anchored(self, segment: Seq<u32>) -> bool {
        self.blocks[segment.last() as int].sequence == 0
    }

    /// What the candidate's own chain configuration says against processing it:
    /// where the node holds a configuration, the candidate must carry one, and
    /// its lowest one must be the same.
    pub open spec fn preload_failure(
        self,
        tip: u32,
        segment: Seq<u32>,
        reads: Seq<Option<ChainBlock>>,
    ) -> Option<ProcessingError> {
        if self.config.held() is None {
            None
        } else {
            match last_of_kind(self.blocks, segment, PAYLOAD_TYPE_CHAIN_CONFIG, segment.len()) {
                None => Some(
                    ProcessingError::Invalid {
                        block_idx: tip,
                        reason: ValidationReason::MissingChainConfigBlock,
                    },
                ),
                Some(at) => match config_verdict(self.config.held()->0, content_read(reads[at])) {
                    ConfigPreload::Matches => None,
                    ConfigPreload::Differs => Some(
                        ProcessingError::Invalid {
                            block_idx: segment[at],
                            reason: ValidationReason::ChainConfigMismatch,
                        },
                    ),
                    ConfigPreload::Unreadable => Some(ProcessingError::StorageRead),
                },
            }
        }
    }

    /// What is known of the nodes before the walk: nothing, but how many there
    /// are, where the candidate's lowest balance block says so and the candidate
    /// does not start at the first block.
    pub open spec fn floored_info(
        self,
        segment: Seq<u32>,
        reads: Seq<Option<ChainBlock>>,
    ) -> InfoView {
        let blank = InfoView::blank(self.info.seeds.len());
        match last_of_kind(self.blocks, segment, PAYLOAD_TYPE_BALANCE, segment.len()) {
            Some(at) => match reads[at] {
                Some(block) => match block.payload {
                    BlockPayload::Balances(payload) => if self.genesis_anchored(segment) {
                        blank
                    } else {
                        blank.with_watermark(payload.max_node_id)
                    },
                    _ => blank,
                },
                None => blank,
            },
            None => blank,
        }
    }

    /// What the walk knows of the candidate as a whole.
    pub open spec fn pass_view(
        self,
        segment: Seq<u32>,
        reads: Seq<Option<ChainBlock>>,
        vote_failure: Option<(int, VoteEngineError)>,
        holds: spec_fn(CheckView) -> bool,
    ) -> PassView {
        PassView {
            marked: segment,
            reads,
            genesis_anchored: self.genesis_anchored(segment),
            roster_bounded: self.genesis_anchored(segment) || last_of_kind(
                self.blocks,
                segment,
                PAYLOAD_TYPE_BALANCE,
                segment.len(),
            ) is Some,
            size_limit: self.enforceable_limit(),
            held: self.config.held(),
            anchor_key: self.anchor_key,
            registration_size: self.registration_size,
            vote_failure,
            holds,
        }
    }

    /// The state from which the candidate is walked.
    pub open spec fn pass_start(self, segment: Seq<u32>, reads: Seq<Option<ChainBlock>>) -> Derivation {
        Derivation {
            info: self.floored_info(segment, reads),
            blocks: spent_cleared(self.blocks, segment, 0),
            saw_balance: false,
            checks: Seq::empty(),
        }
    }

    /// A full pass over the candidate that ends in `tip`, with the vote registry
    /// emptied before it. Whatever fails, no output on the way down from `tip` is
    /// left spent.
    pub open spec fn passed(
        self,
        tip: u32,
        reads: Seq<Option<ChainBlock>>,
        vote_failure: Option<(int, VoteEngineError)>,
        holds: spec_fn(CheckView) -> bool,
    ) -> PassResult {
        let entered = NodeView {
            info: InfoView::blank(self.info.seeds.len()),
            vote_reset: false,
            ..self
        };
        match candidate(self.blocks, tip) {
            Err(error) => PassResult {
                node: NodeView {
                    blocks: spent_cleared(self.blocks, candidate_path(self.blocks, tip), 0),
                    ..entered
                },
                segment: Seq::empty(),
                checks: Seq::empty(),
                failure: Some(error),
            },
            Ok(segment) => if self.preload_failure(tip, segment, reads) is Some {
                PassResult {
                    node: NodeView { blocks: spent_cleared(self.blocks, segment, 0), ..entered },
                    segment,
                    checks: Seq::empty(),
                    failure: self.preload_failure(tip, segment, reads),
                }
            } else {
                let (d, failure) = derivation::segment_derived(
                    self.pass_start(segment, reads),
                    self.pass_view(segment, reads, vote_failure, holds),
                    segment.len(),
                    None,
                );
                PassResult {
                    node: NodeView {
                        info: d.info,
                        blocks: if failure is Some {
                            spent_cleared(d.blocks, segment, 0)
                        } else {
                            d.blocks
                        },
                        ..entered
                    },
                    segment,
                    checks: d.checks,
                    failure,
                }
            },
        }
    }
}

/// The two trees differ in nothing but the spent bits of their blocks.
pub open spec fn spending_only(before: Seq<BlockEntry>, after: Seq<BlockEntry>) -> bool {
    &&& after.len() == before.len()
    &&& forall|i: int| 0 <= i < before.len() ==> (#[trigger] after[i]).unspent() == before[i].unspent()
}

proof fn lemma_spending_only_revised(
    first: Seq<BlockEntry>,
    s: Seq<BlockEntry>,
    idx: u32,
    entry: BlockEntry,
)
    requires
        spending_only(first, s),
        idx < s.len() ==> entry.unspent() == s[idx as int].unspent(),
    ensures
        spending_only(first, tree::revised(s, idx, entry)),
{
}

/// Clearing spent bits changes nothing else of the tree.
pub proof fn clearing_only_spends(first: Seq<BlockEntry>, s: Seq<BlockEntry>, segment: Seq<u32>, from: int)
    requires
        spending_only(first, s),
    ensures
        spending_only(first, spent_cleared(s, segment, from)),
    decreases segment.len() - from,
{
    if 0 <= from < segment.len() {
        let idx = segment[from];
        lemma_spending_only_revised(first, s, idx, s[idx as int].unspent());
        clearing_only_spends(
            first,
            tree::revised(s, idx, s[idx as int].unspent()),
            segment,
            from + 1,
        );
    }
}

pub(crate) proof fn lemma_output_spending(
    first: Seq<BlockEntry>,
    s: Seq<BlockEntry>,
    ctx: PassView,
    sequence: u32,
    tr_hash: crate::hash::BlockHash,
    output_index: u8,
    from: int,
)
    requires
        spending_only(first, s),
    ensures
        spending_only(
            first,
            derivation::output_spent(s, ctx, sequence, tr_hash, output_index, from).0,
        ),
    decreases ctx.marked.len() - from,
{
    if 0 <= from < ctx.marked.len() {
        lemma_output_spending(first, s, ctx, sequence, tr_hash, output_index, from + 1);
    }
}

proof fn lemma_inputs_spending(
    first: Seq<BlockEntry>,
    c: derivation::ComplexStep,
    ctx: PassView,
    at: derivation::BlockContext,
    vote: u32,
    inputs: Seq<crate::block_data::TransactionInput>,
    from: int,
)
    requires
        spending_only(first, c.d.blocks),
    ensures
        spending_only(
            first,
            derivation::inputs_applied(c, ctx, at, vote, inputs, from).d.blocks,
        ),
    decreases inputs.len() - from,
{
    if c.broken is None && 0 <= from < inputs.len() {
        let next = derivation::input_applied(c, ctx, at, vote, inputs[from]);
        if let crate::block_data::TransactionInput::Utxo { tr_hash, output_index } = inputs[from] {
            lemma_output_spending(
                first,
                c.d.blocks,
                ctx,
                at.sequence,
                tr_hash,
                output_index,
                0,
            );
        }
        lemma_inputs_spending(first, next, ctx, at, vote, inputs, from + 1);
    }
}

pub(crate) proof fn lemma_outputs_spending(
    c: derivation::ComplexStep,
    ctx: PassView,
    at: derivation::BlockContext,
    outputs: Seq<crate::block_data::TransactionOutput>,
    from: int,
)
    ensures
        derivation::outputs_applied(c, ctx, at, outputs, from).d.blocks == c.d.blocks,
    decreases outputs.len() - from,
{
    if c.broken is None && 0 <= from < outputs.len() {
        lemma_outputs_spending(
            derivation::output_applied(c, ctx, at, outputs[from]),
            ctx,
            at,
            outputs,
            from + 1,
        );
    }
}

proof fn lemma_transactions_spending(
    first: Seq<BlockEntry>,
    s: derivation::Step,
    ctx: PassView,
    at: derivation::BlockContext,
    txs: Seq<crate::block_data::Transaction>,
    from: int,
)
    requires
        spending_only(first, s.d.blocks),
    ensures
        spending_only(
            first,
            derivation::transactions_applied(s, ctx, at, txs, from).d.blocks,
        ),
    decreases txs.len() - from,
{
    if s.broken is None && 0 <= from < txs.len() {
        let tx = txs[from];
        let next = derivation::transaction_applied(s, ctx, at, tx);
        if let crate::block_data::TransactionBody::Complex(cx) = tx.body {
            let start = derivation::complex_start(s.d);
            lemma_inputs_spending(first, start, ctx, at, tx.vote, cx.inputs@, 0);
            lemma_outputs_spending(
                derivation::inputs_applied(start, ctx, at, tx.vote, cx.inputs@, 0),
                ctx,
                at,
                cx.outputs@,
                0,
            );
        }
        assert(spending_only(first, next.d.blocks));
        lemma_transactions_spending(first, next, ctx, at, txs, from + 1);
    }
}

/// Walking a candidate changes nothing of the tree but the spent bits.
pub proof fn derivation_only_spends(
    first: Seq<BlockEntry>,
    d: Derivation,
    ctx: PassView,
    left: nat,
    prev_hash: Option<crate::hash::BlockHash>,
)
    requires
        spending_only(first, d.blocks),
    ensures
        spending_only(first, derivation::segment_derived(d, ctx, left, prev_hash).0.blocks),
    decreases left,
{
    if left > 0 && ctx.reads[left - 1] is Some {
        let block = ctx.reads[left - 1]->0;
        let idx = ctx.marked[left - 1];
        let at = derivation::BlockContext { sequence: block.sequence, idx };
        let checked = derivation::header_checked(d, ctx, block, idx, prev_hash).0;
        if let BlockPayload::Transactions(txs) = block.payload {
            lemma_transactions_spending(
                first,
                derivation::Step { d: checked, fees: 0, broken: None },
                ctx,
                at,
                txs@,
                0,
            );
        }
        let next = derivation::block_derived(
            d,
            ctx,
            block,
            idx,
            ctx.marked.len() - left,
            prev_hash,
        ).0;
        assert(spending_only(first, next.blocks));
        derivation_only_spends(first, next, ctx, (left - 1) as nat, Some(block.hash));
    }
}

/// A tree that differs in spent bits alone holds the same blocks.
pub proof fn spending_keeps_blocks(before: Seq<BlockEntry>, after: Seq<BlockEntry>)
    requires
        spending_only(before, after),
    ensures
        tree::retains(before, after),
        forall|idx: u32| #[trigger] tree::present(after, idx) == tree::present(before, idx),
{
    assert forall|i: int| 0 <= i < before.len() implies {
        &&& #[trigger] after[i].hash == before[i].hash
        &&& after[i].parent_ref == before[i].parent_ref
        &&& after[i].sequence == before[i].sequence
        &&& after[i].flags == before[i].flags
        &&& after[i].len == before[i].len
    } by {
        assert(after[i].unspent() == before[i].unspent());
    }
}

/// A pass changes nothing of the tree but spent bits, whatever it finds.
pub proof fn pass_only_spends(
    node: NodeView,
    tip: u32,
    reads: Seq<Option<ChainBlock>>,
    vote_failure: Option<(int, VoteEngineError)>,
    holds: spec_fn(CheckView) -> bool,
)
    ensures
        spending_only(node.blocks, node.passed(tip, reads, vote_failure, holds).node.blocks),
{
    clearing_only_spends(node.blocks, node.blocks, candidate_path(node.blocks, tip), 0);
    if let Ok(segment) = candidate(node.blocks, tip) {
        clearing_only_spends(node.blocks, node.blocks, segment, 0);
        let start = node.pass_start(segment, reads);
        let ctx = node.pass_view(segment, reads, vote_failure, holds);
        derivation_only_spends(node.blocks, start, ctx, segment.len(), None);
        let d = derivation::segment_derived(start, ctx, segment.len(), None).0;
        clearing_only_spends(node.blocks, d.blocks, segment, 0);
    }
}

proof fn lemma_segment_below(s: Seq<BlockEntry>, cur: u32, steps: nat, above: Seq<u32>)
    requires
        forall|i: int| 0 <= i < above.len() ==> tree::present(s, #[trigger] above[i]),
    ensures
        segment_below(s, cur, steps, above) matches Ok(segment) ==> {
            &&& 0 < segment.len() <= above.len() + steps
            &&& forall|i: int|
                0 <= i < segment.len() ==> tree::present(s, #[trigger] segment[i])
        },
    decreases steps,
{
    if steps > 0 && tree::present(s, cur) && s[cur as int].parent_ref != NONE_REF {
        lemma_segment_below(
            s,
            s[cur as int].parent_ref,
            (steps - 1) as nat,
            above.push(cur),
        );
    }
}

/// A candidate holds at least its tip, no more blocks than the tree, and every
/// slot of it holds a block.
pub proof fn candidate_is_in_the_tree(s: Seq<BlockEntry>, tip: u32)
    ensures
        candidate(s, tip) matches Ok(segment) ==> {
            &&& 0 < segment.len() <= s.len()
            &&& forall|i: int|
                0 <= i < segment.len() ==> tree::present(s, #[trigger] segment[i])
        },
{
    lemma_segment_below(s, tip, s.len(), Seq::empty());
}

/// Where the first signature from `from` on that does not hold stands.
pub open spec fn first_refuted(verdicts: Seq<bool>, from: int) -> Option<int>
    decreases verdicts.len() - from,
{
    if from < 0 || from >= verdicts.len() {
        None
    } else if !verdicts[from] {
        Some(from)
    } else {
        first_refuted(verdicts, from + 1)
    }
}

impl NodeView {
    /// The node and what failed, once the signatures of a pass are verified. The
    /// first one that does not hold condemns its block, and nothing that was
    /// derived remains.
    pub open spec fn settled(
        self,
        segment: Seq<u32>,
        checks: Seq<CheckView>,
        failure: Option<ProcessingError>,
        verdicts: Seq<bool>,
    ) -> (NodeView, Option<ProcessingError>) {
        match first_refuted(verdicts, 0) {
            None => (self, failure),
            Some(at) => (
                NodeView {
                    info: InfoView::blank(self.info.seeds.len()),
                    blocks: spent_cleared(self.blocks, segment, 0),
                    ..self
                },
                Some(
                    ProcessingError::Invalid {
                        block_idx: checks[at].block_idx,
                        reason: checks[at].reason,
                    },
                ),
            ),
        }
    }
}

/// The failure that a result stands for.
pub open spec fn failure_of(result: Result<(), ProcessingError>) -> Option<ProcessingError> {
    match result {
        Ok(_) => None,
        Err(error) => Some(error),
    }
}

/// Where the vote engine stopped.
pub open spec fn vote_stop(vote_failure: Option<(usize, VoteEngineError)>) -> Option<
    (int, VoteEngineError),
> {
    match vote_failure {
        Some((position, error)) => Some((position as int, error)),
        None => None,
    }
}

impl<
    const MAX_NODES: usize,
    const SNAKE_CHAIN_LENGTH: u32,
    const VERIFICATION_HORIZON: usize,
    const MAX_BLOCKS: usize,
    const MAX_BRANCH_COUNT: usize,
    const MAX_BLOCK_UTXO_OUTPUT: usize,
> Blockchain<
    MAX_NODES,
    SNAKE_CHAIN_LENGTH,
    VERIFICATION_HORIZON,
    MAX_BLOCKS,
    MAX_BRANCH_COUNT,
    MAX_BLOCK_UTXO_OUTPUT,
> {
    /// The slots of the candidate that ends in `tip`, the tip first.
    pub fn candidate_segment(&self, tip: u32) -> (segment: Result<Vec<u32>, ProcessingError>)
        requires
            self.inv(),
        ensures
            match segment {
                Ok(slots) => candidate(self@.blocks, tip) == Ok::<Seq<u32>, ProcessingError>(
                    slots@,
                ),
                Err(error) => candidate(self@.blocks, tip) == Err::<Seq<u32>, ProcessingError>(
                    error,
                ),
            },
    {
        let mut segment: Vec<u32> = Vec::new();
        let mut cur: u32 = tip;
        let mut count: usize = 0;
        while count < MAX_BLOCKS
            invariant
                self.inv(),
                count <= MAX_BLOCKS,
                segment_below(
                    self@.blocks,
                    cur,
                    (MAX_BLOCKS - count) as nat,
                    segment@,
                ) == candidate(self@.blocks, tip),
            decreases MAX_BLOCKS - count,
        {
            match self.blocks.get(cur) {
                None => {
                    return Err(ProcessingError::MissingBlock);
                },
                Some(entry) => {
                    segment.push(cur);
                    let parent: u32 = entry.parent_ref();
                    if parent == NONE_REF {
                        return Ok(segment);
                    }
                    cur = parent;
                },
            }
            count = count + 1;
        }
        Err(ProcessingError::MarkOverflow)
    }

    /// The blocks on the way down from `tip`, the tip first.
    fn path_of(&self, tip: u32) -> (path: Vec<u32>)
        requires
            self.inv(),
        ensures
            path@ == candidate_path(self@.blocks, tip),
    {
        let mut path: Vec<u32> = Vec::new();
        let mut cur: u32 = tip;
        let mut count: usize = 0;
        while count < MAX_BLOCKS
            invariant
                self.inv(),
                count <= MAX_BLOCKS,
                path_below(self@.blocks, cur, (MAX_BLOCKS - count) as nat, path@)
                    == candidate_path(self@.blocks, tip),
            decreases MAX_BLOCKS - count,
        {
            match self.blocks.get(cur) {
                None => {
                    return path;
                },
                Some(entry) => {
                    path.push(cur);
                    let parent: u32 = entry.parent_ref();
                    if parent == NONE_REF {
                        return path;
                    }
                    cur = parent;
                },
            }
            count = count + 1;
        }
        path
    }

    /// Where the lowest block of the payload type stands in the candidate.
    pub(crate) fn lowest_of_kind(&self, segment: &Vec<u32>, kind: u8) -> (at: Option<usize>)
        requires
            self.inv(),
            forall|i: int|
                0 <= i < segment@.len() ==> tree::present(self@.blocks, #[trigger] segment@[i]),
        ensures
            match at {
                Some(i) => i < segment@.len() && last_of_kind(
                    self@.blocks,
                    segment@,
                    kind,
                    segment@.len(),
                ) == Some(i as int),
                None => last_of_kind(self@.blocks, segment@, kind, segment@.len()) is None,
            },
    {
        let mut end: usize = segment.len();
        while end > 0
            invariant
                self.inv(),
                end <= segment@.len(),
                forall|i: int|
                    0 <= i < segment@.len() ==> tree::present(
                        self@.blocks,
                        #[trigger] segment@[i],
                    ),
                last_of_kind(self@.blocks, segment@, kind, segment@.len()) == last_of_kind(
                    self@.blocks,
                    segment@,
                    kind,
                    end as nat,
                ),
            decreases end,
        {
            let i: usize = end - 1;
            assert(tree::present(self@.blocks, segment@[i as int]));
            match self.blocks.get(segment[i]) {
                Some(entry) => {
                    if entry.payload_type() == kind {
                        return Some(i);
                    }
                },
                None => {},
            }
            end = i;
        }
        None
    }

    /// How the configuration of a candidate's block, as read back, compares with
    /// the one the node holds; without one, any will do.
    pub fn candidate_chain_config_readable_match(&self, block: &Option<ChainBlock>) -> (verdict:
        ConfigPreload)
        ensures
            verdict == match self@.config.held() {
                Some(held) => config_verdict(held, content_read(*block)),
                None => ConfigPreload::Matches,
            },
    {
        match self.held_chain_config_content() {
            None => ConfigPreload::Matches,
            Some(held) => match block {
                None => ConfigPreload::Unreadable,
                Some(read) => match read.chain_config() {
                    None => ConfigPreload::Unreadable,
                    Some(envelope) => if bytes_eq(envelope.content.as_slice(), held) {
                        ConfigPreload::Matches
                    } else {
                        ConfigPreload::Differs
                    },
                },
            },
        }
    }

    /// Whether the candidate's own configuration allows processing it.
    fn check_preload(&self, tip: u32, segment: &Vec<u32>, reads: &Vec<Option<ChainBlock>>) -> (
        result: Result<(), ProcessingError>)
        requires
            self.inv(),
            reads@.len() == segment@.len(),
            forall|i: int|
                0 <= i < segment@.len() ==> tree::present(self@.blocks, #[trigger] segment@[i]),
        ensures
            failure_of(result) == self@.preload_failure(tip, segment@, reads@),
    {
        if self.held_chain_config_content().is_none() {
            return Ok(());
        }
        match self.lowest_of_kind(segment, PAYLOAD_TYPE_CHAIN_CONFIG) {
            None => Err(
                ProcessingError::Invalid {
                    block_idx: tip,
                    reason: ValidationReason::MissingChainConfigBlock,
                },
            ),
            Some(at) => match self.candidate_chain_config_readable_match(&reads[at]) {
                ConfigPreload::Matches => Ok(()),
                ConfigPreload::Differs => Err(
                    ProcessingError::Invalid {
                        block_idx: segment[at],
                        reason: ValidationReason::ChainConfigMismatch,
                    },
                ),
                ConfigPreload::Unreadable => Err(ProcessingError::StorageRead),
            },
        }
    }

    /// Marks every output of the candidate's blocks as unspent.
    fn clear_segment(&mut self, segment: &Vec<u32>)
        requires
            old(self).inv(),
        ensures
            final(self).inv(),
            final(self)@ == (NodeView {
                blocks: spent_cleared(old(self)@.blocks, segment@, 0),
                ..old(self)@
            }),
    {
        let ghost before = self@;
        let mut i: usize = 0;
        while i < segment.len()
            invariant
                self.prng.wf(),
                self.blocks.wf(),
                self.chain_heads.wf(),
                self.node_info.wf(),
                i <= segment@.len(),
                self@ == (NodeView { blocks: self@.blocks, ..before }),
                spent_cleared(before.blocks, segment@, 0) == spent_cleared(
                    self@.blocks,
                    segment@,
                    i as int,
                ),
            decreases segment@.len() - i,
        {
            let ghost current = self@;
            self.blocks.clear_spent_bits(segment[i]);
            assert(self@ =~= (NodeView { blocks: self@.blocks, ..current }));
            i = i + 1;
        }
        proof {
            clearing_only_spends(before.blocks, before.blocks, segment@, 0);
            spending_keeps_blocks(before.blocks, self@.blocks);
            tree::retaining_keeps_blocks_unique(before.blocks, self@.blocks);
            assert(self@ =~= (NodeView {
                blocks: spent_cleared(before.blocks, segment@, 0),
                ..before
            }));
        }
    }

    /// Processes the candidate that ends in `tip`, as if every signature held.
    ///
    /// `reads` is what each slot of the candidate read back as, the tip first.
    /// `vote_failure` is where the vote engine stopped, emptied beforehand and
    /// run over the candidate from its lowest block upward; positions count from
    /// there.
    pub fn run_processing_pass(
        &mut self,
        tip: u32,
        reads: &Vec<Option<ChainBlock>>,
        vote_failure: Option<(usize, VoteEngineError)>,
    ) -> (plan: PassPlan)
        requires
            old(self).inv(),
            derivation::reads_wf(reads@),
            candidate(old(self)@.blocks, tip) matches Ok(segment) ==> reads@.len()
                == segment.len(),
        ensures
            final(self).inv(),
            ({
                let result = old(self)@.passed(
                    tip,
                    reads@,
                    vote_stop(vote_failure),
                    derivation::all_hold(),
                );
                &&& final(self)@ == result.node
                &&& plan.segment@ == result.segment
                &&& derivation::check_views(plan.checks@) == result.checks
                &&& failure_of(plan.outcome) == result.failure
            }),
    {
        let ghost before = self@;
        self.node_info.reset();
        self.vote_reset_pending = false;
        let ghost entered = self@;
        let segment: Vec<u32> = match self.candidate_segment(tip) {
            Ok(segment) => segment,
            Err(error) => {
                let path: Vec<u32> = self.path_of(tip);
                self.clear_segment(&path);
                let checks: Vec<SignatureCheck> = Vec::new();
                assert(derivation::check_views(checks@) =~= Seq::<CheckView>::empty());
                return PassPlan { segment: Vec::new(), checks, outcome: Err(error) };
            },
        };
        proof {
            candidate_is_in_the_tree(before.blocks, tip);
        }
        let preload = self.check_preload(tip, &segment, reads);
        let last: usize = segment.len() - 1;
        let genesis_anchored: bool = match self.blocks.get(segment[last]) {
            Some(entry) => entry.sequence() == 0,
            None => false,
        };
        let floor: Option<usize> = self.lowest_of_kind(&segment, PAYLOAD_TYPE_BALANCE);
        self.clear_segment(&segment);
        if let Err(error) = preload {
            let checks: Vec<SignatureCheck> = Vec::new();
            assert(derivation::check_views(checks@) =~= Seq::<CheckView>::empty());
            return PassPlan { segment, checks, outcome: Err(error) };
        }
        if !genesis_anchored {
            if let Some(at) = floor {
                if let Some(block) = &reads[at] {
                    if let BlockPayload::Balances(payload) = &block.payload {
                        self.node_info.set_max_known_node_id(payload.max_node_id);
                    }
                }
            }
        }
        let ghost start = before.pass_start(segment@, reads@);
        assert(self@.info =~= start.info);
        let ctx = PassContext {
            marked: &segment,
            reads,
            genesis_anchored,
            roster_bounded: genesis_anchored || floor.is_some(),
            size_limit: self.enforceable_block_size_limit(),
            held: self.chain_config.held_content(),
            anchor_key: self.node_zero_public_key,
            registration_size: self.registration_size,
            vote_failure,
        };
        let ghost view = before.pass_view(
            segment@,
            reads@,
            vote_stop(vote_failure),
            derivation::all_hold(),
        );
        assert(ctx@ == view);
        let mut work: WorkingSet<MAX_NODES, MAX_BLOCKS> = WorkingSet {
            info: NodeInfoState {
                public_keys: Vec::new(),
                balances: Vec::new(),
                seed_source_idx: Vec::new(),
                max_known_node_id: 0,
            },
            blocks: BlockTable { blocks: Vec::new() },
            saw_balance: false,
            checks: Vec::new(),
        };
        std::mem::swap(&mut self.node_info, &mut work.info);
        std::mem::swap(&mut self.blocks, &mut work.blocks);
        assert(work@ =~= start);
        let outcome: Result<(), ProcessingError> = work.derive_segment(&ctx);
        std::mem::swap(&mut self.node_info, &mut work.info);
        std::mem::swap(&mut self.blocks, &mut work.blocks);
        proof {
            clearing_only_spends(before.blocks, before.blocks, segment@, 0);
            derivation_only_spends(before.blocks, start, view, segment@.len(), None);
            spending_keeps_blocks(before.blocks, self@.blocks);
            tree::retaining_keeps_blocks_unique(before.blocks, self@.blocks);
        }
        if outcome.is_err() {
            self.clear_segment(&segment);
        }
        assert(self@ =~= before.passed(
            tip,
            reads@,
            vote_stop(vote_failure),
            derivation::all_hold(),
        ).node);
        PassPlan { segment, checks: work.checks, outcome }
    }

    /// Takes the verdicts on the signatures of a pass, one for each in order, and
    /// returns what came of the candidate.
    pub fn settle_processing_pass(&mut self, plan: &PassPlan, verdicts: &Vec<bool>) -> (result:
        Result<(), ProcessingError>)
        requires
            old(self).inv(),
            verdicts@.len() == plan.checks@.len(),
        ensures
            final(self).inv(),
            (final(self)@, failure_of(result)) == old(self)@.settled(
                plan.segment@,
                derivation::check_views(plan.checks@),
                failure_of(plan.outcome),
                verdicts@,
            ),
    {
        let ghost before = self@;
        let mut i: usize = 0;
        while i < verdicts.len()
            invariant
                self.inv(),
                before == old(self)@,
                self@ == before,
                verdicts@.len() == plan.checks@.len(),
                i <= verdicts@.len(),
                first_refuted(verdicts@, 0) == first_refuted(verdicts@, i as int),
            decreases verdicts@.len() - i,
        {
            if !verdicts[i] {
                self.node_info.reset();
                self.clear_segment(&plan.segment);
                assert(self@ =~= before.settled(
                    plan.segment@,
                    derivation::check_views(plan.checks@),
                    failure_of(plan.outcome),
                    verdicts@,
                ).0);
                return Err(
                    ProcessingError::Invalid {
                        block_idx: plan.checks[i].block_idx,
                        reason: plan.checks[i].reason,
                    },
                );
            }
            i = i + 1;
        }
        match plan.outcome {
            Ok(_) => Ok(()),
            Err(error) => Err(error),
        }
    }
}

} // verus!
