//! Acquiring the dominant chain.
//!
//! While a candidate qualifies, it is processed, and the node either becomes
//! ready on it or recovers and collects on. What the node cannot do itself
//! (reading blocks back, running the vote engine, verifying signatures, writing
//! the control plane) is the caller's part: each step hands out one
//! [`AcquisitionAction`] and takes the [`AcquisitionEvent`] that answers it.

use vstd::prelude::*;

use crate::api::{Blockchain, NodeView};
use crate::block_data::{ChainBlock, PAYLOAD_TYPE_CHAIN_CONFIG};
use crate::blocks as tree;
use crate::blocks::{BlockEntry, NONE_REF};
use crate::chain_heads::ChainHeadEntry;
use crate::derivation;
use crate::derivation::{
    CheckView, ProcessingError, SignatureCheck, ValidationReason, VoteEngineError,
};
use crate::hash;
use crate::hash::hash_less;
use crate::lifecycle::LifecyclePhase;
use crate::node_info::InfoView;
use crate::processing;
use crate::processing::PassPlan;
use crate::recovery;

verus! {

// -- Which candidate ---------------------------------------------------------

/// Whether the tip stands for a candidate: its branch reaches down to the first
/// block of the chain, or is at least `window` blocks long.
pub open spec fn qualifies(s: Seq<BlockEntry>, head: ChainHeadEntry, window: u32) -> bool {
    &&& head.in_use()
    &&& tree::present(s, head.head_idx)
    &&& tree::present(s, head.tail_or_connection_idx)
    &&& {
        let tip = s[head.head_idx as int].sequence;
        let earliest = s[head.tail_or_connection_idx as int].sequence;
        earliest == 0 || branch_length(tip, earliest) >= window
    }
}

/// The number of blocks from `earliest` up to `tip`.
pub open spec fn branch_length(tip: u32, earliest: u32) -> int {
    let gap = if tip < earliest {
        0
    } else {
        tip - earliest
    };
    if gap + 1 > u32::MAX {
        u32::MAX as int
    } else {
        gap + 1
    }
}

/// Whether the block at `a` dominates the one at `b`: it is higher, or equally
/// high with the lower hash.
pub open spec fn dominates(s: Seq<BlockEntry>, a: u32, b: u32) -> bool {
    ||| s[a as int].sequence > s[b as int].sequence
    ||| s[a as int].sequence == s[b as int].sequence && hash::lex_less(
        s[a as int].hash@,
        s[b as int].hash@,
    )
}

/// The dominant candidate among the tips from `slot` on and `best`.
pub open spec fn dominant_from(
    s: Seq<BlockEntry>,
    heads: Seq<ChainHeadEntry>,
    window: u32,
    slot: int,
    best: Option<u32>,
) -> Option<u32>
    decreases heads.len() - slot,
{
    if slot < 0 || slot >= heads.len() {
        best
    } else if qualifies(s, heads[slot], window) && (best is None || dominates(
        s,
        heads[slot].head_idx,
        best->0,
    )) {
        dominant_from(s, heads, window, slot + 1, Some(heads[slot].head_idx))
    } else {
        dominant_from(s, heads, window, slot + 1, best)
    }
}

/// The tip of the dominant candidate, if any tip stands for one.
pub open spec fn dominant(s: Seq<BlockEntry>, heads: Seq<ChainHeadEntry>, window: u32) -> Option<u32> {
    dominant_from(s, heads, window, 0, None)
}

// -- The run -----------------------------------------------------------------

/// How far an acquisition has come.
pub enum AcquisitionStage {
    /// Nothing was done yet.
    Start,
    /// The blocks of the candidate are being read.
    Examining { tip: u32 },
    /// The signatures of the candidate are being verified.
    Verifying { tip: u32, reads: Vec<Option<ChainBlock>>, plan: PassPlan },
    /// The candidate's configuration is being written.
    Committing { tip: u32 },
    /// The acquisition is over.
    Finished,
}

/// An acquisition. It makes at most three passes: one, one more after a block
/// was condemned, and one more after the candidate's configuration was adopted.
pub struct AcquisitionRun {
    pub retries_left: u8,
    pub adopt_retries_left: u8,
    pub stage: AcquisitionStage,
}

/// What the caller has to do next.
pub enum AcquisitionAction {
    /// Read the blocks in these slots back, the tip first, empty the vote
    /// registry and run the vote engine over them from the lowest one upward.
    Examine { segment: Vec<u32> },
    /// Verify the signatures that the run holds.
    Verify,
    /// Read the block in this slot back and, if it carries what the node holds,
    /// write it to the control plane; read the configuration contents of all
    /// slots.
    Commit { block_idx: u32 },
    /// Nothing: the acquisition is over.
    Done,
}

/// What came of an action.
pub enum AcquisitionEvent {
    /// The acquisition begins.
    Begin,
    /// What each slot read back as, and where the vote engine stopped.
    Examined { reads: Vec<Option<ChainBlock>>, vote_failure: Option<(usize, VoteEngineError)> },
    /// Whether each signature holds.
    Verified { verdicts: Vec<bool> },
    /// What the block read back as, whether it was written, and the
    /// configuration content of each slot, where there is one.
    Committed { block: Option<ChainBlock>, written: bool, contents: Vec<Option<Vec<u8>>> },
}

/// How far an acquisition has come.
#[verifier::ext_equal]
pub ghost enum StageView {
    Start,
    Examining { tip: u32 },
    Verifying {
        tip: u32,
        reads: Seq<Option<ChainBlock>>,
        segment: Seq<u32>,
        checks: Seq<CheckView>,
        failure: Option<ProcessingError>,
    },
    Committing { tip: u32 },
    Finished,
}

/// An acquisition.
#[verifier::ext_equal]
pub ghost struct RunView {
    pub retries: u8,
    pub adopt_retries: u8,
    pub stage: StageView,
}

/// What the caller has to do next.
#[verifier::ext_equal]
pub ghost enum ActionView {
    Examine { segment: Seq<u32> },
    Verify,
    Commit { block_idx: u32 },
    Done,
}

/// A step: the node, the run and what the caller has to do next.
#[verifier::ext_equal]
pub ghost struct Progress {
    pub node: NodeView,
    pub run: RunView,
    pub action: ActionView,
}

impl View for AcquisitionStage {
    type V = StageView;

    open spec fn view(&self) -> StageView {
        match *self {
            AcquisitionStage::Start => StageView::Start,
            AcquisitionStage::Examining { tip } => StageView::Examining { tip },
            AcquisitionStage::Verifying { tip, reads, plan } => StageView::Verifying {
                tip,
                reads: reads@,
                segment: plan.segment@,
                checks: derivation::check_views(plan.checks@),
                failure: processing::failure_of(plan.outcome),
            },
            AcquisitionStage::Committing { tip } => StageView::Committing { tip },
            AcquisitionStage::Finished => StageView::Finished,
        }
    }
}

impl View for AcquisitionRun {
    type V = RunView;

    open spec fn view(&self) -> RunView {
        RunView {
            retries: self.retries_left,
            adopt_retries: self.adopt_retries_left,
            stage: self.stage@,
        }
    }
}

impl View for AcquisitionAction {
    type V = ActionView;

    open spec fn view(&self) -> ActionView {
        match *self {
            AcquisitionAction::Examine { segment } => ActionView::Examine { segment: segment@ },
            AcquisitionAction::Verify => ActionView::Verify,
            AcquisitionAction::Commit { block_idx } => ActionView::Commit { block_idx },
            AcquisitionAction::Done => ActionView::Done,
        }
    }
}

impl RunView {
    pub open spec fn at(self, stage: StageView) -> RunView {
        RunView { stage, ..self }
    }

    /// The passes that the run may still start.
    pub open spec fn passes_left(self) -> int {
        self.retries + self.adopt_retries + if self.stage is Start {
            1int
        } else {
            0
        }
    }
}

/// Whether a failure gives reason to try what remains of the candidate: a block
/// was condemned, so that the blocks below it have been found in order.
pub open spec fn retryable(error: ProcessingError) -> bool {
    match error {
        ProcessingError::Invalid { block_idx, reason } => reason
            != ValidationReason::MissingChainConfigBlock,
        _ => false,
    }
}

impl NodeView {
    /// The step that looks for a candidate.
    pub open spec fn sought(self, window: u32, run: RunView) -> Progress {
        match dominant(self.blocks, self.heads, window) {
            None => Progress {
                node: self,
                run: run.at(StageView::Finished),
                action: ActionView::Done,
            },
            Some(tip) => Progress {
                node: NodeView { phase: LifecyclePhase::Processing, ..self },
                run: run.at(StageView::Examining { tip }),
                action: ActionView::Examine { segment: slots_to_read(self.blocks, tip) },
            },
        }
    }

    /// The step that processes the candidate.
    pub open spec fn examined(
        self,
        run: RunView,
        tip: u32,
        reads: Seq<Option<ChainBlock>>,
        vote_failure: Option<(int, VoteEngineError)>,
    ) -> Progress {
        let pass = self.passed(tip, reads, vote_failure, derivation::all_hold());
        Progress {
            node: pass.node,
            run: run.at(
                StageView::Verifying {
                    tip,
                    reads,
                    segment: pass.segment,
                    checks: pass.checks,
                    failure: pass.failure,
                },
            ),
            action: ActionView::Verify,
        }
    }

    /// The step that takes the verdicts on the signatures.
    pub open spec fn verified(
        self,
        window: u32,
        run: RunView,
        tip: u32,
        reads: Seq<Option<ChainBlock>>,
        segment: Seq<u32>,
        checks: Seq<CheckView>,
        failure: Option<ProcessingError>,
        verdicts: Seq<bool>,
    ) -> Progress {
        let (node, outcome) = self.settled(segment, checks, failure, verdicts);
        match outcome {
            None => node.accepted(run, tip),
            Some(error) => node.failed(window, run, tip, reads, segment, error),
        }
    }

    /// The step after a pass that succeeded. Unless the configuration is locked
    /// already, the candidate is measured against the limit that it declares
    /// itself, and its configuration is then locked.
    pub open spec fn accepted(self, run: RunView, tip: u32) -> Progress {
        let over = run.at(StageView::Finished);
        let (first, _) = self.scanned(tip, NONE_REF);
        if self.config.durable() is Some {
            Progress {
                node: NodeView { phase: LifecyclePhase::Ready, ..self.activated(tip) },
                run: over,
                action: ActionView::Done,
            }
        } else {
            match recovery::oversized(
                self.blocks,
                tip,
                self.declared_limit(),
                self.blocks.len(),
                None,
            ) {
                Some(offender) => Progress {
                    node: self.recovered(
                        ProcessingError::Invalid {
                            block_idx: offender,
                            reason: ValidationReason::BlockTooLarge,
                        },
                        tip,
                    ),
                    run: over,
                    action: ActionView::Done,
                },
                None => if first == NONE_REF {
                    Progress { node: self.abandoned(), run: over, action: ActionView::Done }
                } else {
                    Progress {
                        node: self,
                        run: run.at(StageView::Committing { tip }),
                        action: ActionView::Commit { block_idx: first },
                    }
                },
            }
        }
    }

    /// The node that gives up a candidate it could not commit to: what was
    /// derived is discarded, and every block stays.
    pub open spec fn abandoned(self) -> NodeView {
        NodeView {
            info: InfoView::blank(self.info.seeds.len()),
            vote_reset: true,
            blocks: all_unspent(self.blocks),
            phase: LifecyclePhase::Collecting,
            ..self
        }
    }

    /// What the candidate's lowest configuration block read back as.
    pub open spec fn config_read(self, segment: Seq<u32>, reads: Seq<Option<ChainBlock>>) -> Option<
        ChainBlock,
    > {
        match processing::last_of_kind(
            self.blocks,
            segment,
            PAYLOAD_TYPE_CHAIN_CONFIG,
            segment.len(),
        ) {
            Some(at) => reads[at],
            None => None,
        }
    }

    /// Whether the failure is that the candidate's lowest configuration block
    /// differs from what the node holds tentatively, and its content can be held
    /// instead.
    pub open spec fn adoptable(
        self,
        run: RunView,
        tip: u32,
        reads: Seq<Option<ChainBlock>>,
        segment: Seq<u32>,
        error: ProcessingError,
    ) -> bool {
        &&& run.adopt_retries > 0
        &&& self.config.durable() is None
        &&& error == (ProcessingError::Invalid {
            block_idx: self.scanned(tip, NONE_REF).0,
            reason: ValidationReason::ChainConfigMismatch,
        })
        &&& self.adopts(self.config_read(segment, reads))
    }

    /// The step after a pass that failed.
    pub open spec fn failed(
        self,
        window: u32,
        run: RunView,
        tip: u32,
        reads: Seq<Option<ChainBlock>>,
        segment: Seq<u32>,
        error: ProcessingError,
    ) -> Progress {
        if self.adoptable(run, tip, reads, segment, error) {
            let adopted = self.adopted(
                tip,
                self.scanned(tip, NONE_REF).0,
                self.config_read(segment, reads)->0,
            );
            (NodeView { phase: LifecyclePhase::Collecting, ..adopted }).sought(
                window,
                RunView { adopt_retries: (run.adopt_retries - 1) as u8, ..run },
            )
        } else {
            let recovered = self.recovered(error, tip);
            if !retryable(error) || run.retries == 0 || recovered.config.active() is None {
                Progress {
                    node: recovered,
                    run: run.at(StageView::Finished),
                    action: ActionView::Done,
                }
            } else {
                recovered.sought(window, RunView { retries: (run.retries - 1) as u8, ..run })
            }
        }
    }

    /// The step after the candidate's configuration was written, or could not
    /// be.
    pub open spec fn concluded(
        self,
        run: RunView,
        tip: u32,
        block: Option<ChainBlock>,
        written: bool,
        contents: Seq<Option<Seq<u8>>>,
    ) -> Progress {
        let over = run.at(StageView::Finished);
        if self.commits(block) && written {
            let active = self.committed().activated(tip);
            let end = active.blocks.len() as int;
            let kept = active.mismatches_deleted(contents, 0, end).oversized_deleted(
                active.enforceable_limit(),
                0,
                end,
            );
            Progress {
                node: NodeView { phase: LifecyclePhase::Ready, ..kept },
                run: over,
                action: ActionView::Done,
            }
        } else {
            Progress { node: self.abandoned(), run: over, action: ActionView::Done }
        }
    }
}

/// The tree with every output of every block unspent.
pub open spec fn all_unspent(s: Seq<BlockEntry>) -> Seq<BlockEntry> {
    Seq::new(
        s.len(),
        |i: int|
            if s[i].occupied() {
                s[i].unspent()
            } else {
                s[i]
            },
    )
}

impl RunView {
    /// Whether the run is one of the node as it stands.
    pub open spec fn fits(self, node: NodeView) -> bool {
        match self.stage {
            StageView::Start => node.phase == LifecyclePhase::Collecting,
            StageView::Verifying { tip, reads, segment, checks, failure } => {
                &&& node.phase == LifecyclePhase::Processing
                &&& reads.len() == segment.len()
                &&& forall|i: int|
                    0 <= i < segment.len() ==> tree::present(node.blocks, #[trigger] segment[i])
            },
            StageView::Finished => true,
            _ => node.phase == LifecyclePhase::Processing,
        }
    }
}

/// The slots that have to be read for the candidate that ends in `tip`.
pub open spec fn slots_to_read(s: Seq<BlockEntry>, tip: u32) -> Seq<u32> {
    match processing::candidate(s, tip) {
        Ok(segment) => segment,
        Err(_) => Seq::empty(),
    }
}

/// Whether the event answers what the run asked for.
pub open spec fn answers(event: AcquisitionEvent, run: RunView, node: NodeView) -> bool {
    match (run.stage, event) {
        (StageView::Start, AcquisitionEvent::Begin) => true,
        (
            StageView::Examining { tip },
            AcquisitionEvent::Examined { reads, vote_failure },
        ) => derivation::reads_wf(reads@) && reads@.len() == slots_to_read(node.blocks, tip).len(),
        (
            StageView::Verifying { tip, reads, segment, checks, failure },
            AcquisitionEvent::Verified { verdicts },
        ) => verdicts@.len() == checks.len(),
        (
            StageView::Committing { tip },
            AcquisitionEvent::Committed { block, written, contents },
        ) => contents@.len() == node.blocks.len(),
        _ => false,
    }
}

impl NodeView {
    /// One step of an acquisition.
    pub open spec fn advanced(self, window: u32, run: RunView, event: AcquisitionEvent) -> Progress {
        match (run.stage, event) {
            (StageView::Start, AcquisitionEvent::Begin) => self.sought(window, run),
            (
                StageView::Examining { tip },
                AcquisitionEvent::Examined { reads, vote_failure },
            ) => self.examined(run, tip, reads@, processing::vote_stop(vote_failure)),
            (
                StageView::Verifying { tip, reads, segment, checks, failure },
                AcquisitionEvent::Verified { verdicts },
            ) => self.verified(window, run, tip, reads, segment, checks, failure, verdicts@),
            (
                StageView::Committing { tip },
                AcquisitionEvent::Committed { block, written, contents },
            ) => self.concluded(run, tip, block, written, recovery::content_views(contents@)),
            _ => Progress { node: self, run, action: ActionView::Done },
        }
    }
}

impl AcquisitionRun {
    /// An acquisition that has not begun.
    pub fn new() -> (run: Self)
        ensures
            run@ == (RunView { retries: 1, adopt_retries: 1, stage: StageView::Start }),
    {
        AcquisitionRun { retries_left: 1, adopt_retries_left: 1, stage: AcquisitionStage::Start }
    }

    /// The signatures to be verified, in the order in which the verdicts are
    /// expected.
    pub fn pending_checks(&self) -> (checks: Option<&Vec<SignatureCheck>>)
        ensures
            match checks {
                Some(list) => self@.stage matches StageView::Verifying {
                    tip,
                    reads,
                    segment,
                    checks: pending,
                    failure,
                } && pending == derivation::check_views(list@),
                None => !(self@.stage is Verifying),
            },
    {
        match &self.stage {
            AcquisitionStage::Verifying { tip: _, reads: _, plan } => Some(&plan.checks),
            _ => None,
        }
    }
}

/// Deleting a subtree under a locked configuration changes neither the phase nor
/// the configuration.
pub(crate) proof fn lemma_deletion_frame(node: NodeView, target: u32)
    requires
        node.config is Durable,
    ensures
        node.subtree_deleted(target).phase == node.phase,
        node.subtree_deleted(target).config == node.config,
{
}

pub(crate) proof fn lemma_mismatches_frame(
    node: NodeView,
    contents: Seq<Option<Seq<u8>>>,
    from: int,
    end: int,
)
    requires
        node.config is Durable,
    ensures
        node.mismatches_deleted(contents, from, end).phase == node.phase,
        node.mismatches_deleted(contents, from, end).config == node.config,
    decreases end - from,
{
    if from < end {
        lemma_mismatches_frame(node, contents, from + 1, end);
        lemma_deletion_frame(node, from as u32);
        lemma_mismatches_frame(node.subtree_deleted(from as u32), contents, from + 1, end);
    }
}

pub(crate) proof fn lemma_oversized_frame(node: NodeView, limit: u16, from: int, end: int)
    requires
        node.config is Durable,
    ensures
        node.oversized_deleted(limit, from, end).phase == node.phase,
        node.oversized_deleted(limit, from, end).config == node.config,
    decreases end - from,
{
    if from < end {
        lemma_oversized_frame(node, limit, from + 1, end);
        lemma_deletion_frame(node, from as u32);
        lemma_oversized_frame(node.subtree_deleted(from as u32), limit, from + 1, end);
    }
}

proof fn lemma_scan_in_tree(
    s: Seq<BlockEntry>,
    cur: u32,
    probe: u32,
    steps: nat,
    first: u32,
    seen: bool,
)
    requires
        first != NONE_REF ==> tree::present(s, first),
    ensures
        ({
            let found = recovery::config_scan(s, cur, probe, steps, first, seen).0;
            found != NONE_REF ==> tree::present(s, found)
        }),
    decreases steps,
{
    if steps > 0 && tree::present(s, cur) && s[cur as int].parent_ref != NONE_REF {
        let found = if s[cur as int].kind() == PAYLOAD_TYPE_CHAIN_CONFIG {
            cur
        } else {
            first
        };
        lemma_scan_in_tree(
            s,
            s[cur as int].parent_ref,
            probe,
            (steps - 1) as nat,
            found,
            seen || cur == probe,
        );
    }
}

impl<
    const MAX_NODES: usize,
    const SNAKE_CHAIN_LENGTH: u32,
    const VERIFICATION_HORIZON: usize,
    const MAX_BLOCKS: usize,
    const MAX_BRANCH_COUNT: usize,
    const MAX_BLOCK_UTXO_OUTPUT: usize,
> Blockchain<
    MAX_NODES,
    SNAKE_CHAIN_LENGTH,
    VERIFICATION_HORIZON,
    MAX_BLOCKS,
    MAX_BRANCH_COUNT,
    MAX_BLOCK_UTXO_OUTPUT,
> {
    /// The tip of the dominant candidate: of the tips whose branch reaches down
    /// to the first block or is a full window long, the highest one, and among
    /// equally high ones that with the lowest hash.
    pub fn evaluate_stopping_condition(&self) -> (tip: Option<u32>)
        requires
            self.inv(),
        ensures
            tip == dominant(self@.blocks, self@.heads, SNAKE_CHAIN_LENGTH),
    {
        let mut best: Option<u32> = None;
        let mut slot: usize = 0;
        while slot < MAX_BRANCH_COUNT
            invariant
                self.inv(),
                slot <= MAX_BRANCH_COUNT,
                best matches Some(idx) ==> tree::present(self@.blocks, idx),
                dominant(self@.blocks, self@.heads, SNAKE_CHAIN_LENGTH) == dominant_from(
                    self@.blocks,
                    self@.heads,
                    SNAKE_CHAIN_LENGTH,
                    slot as int,
                    best,
                ),
            decreases MAX_BRANCH_COUNT - slot,
        {
            let head: ChainHeadEntry = *self.chain_heads.head_at(slot);
            if !head.is_empty() {
                if let Some(tip) = self.blocks.get(head.head_idx) {
                    if let Some(earliest) = self.blocks.get(head.tail_or_connection_idx) {
                        let gap: u32 = if tip.sequence() < earliest.sequence() {
                            0
                        } else {
                            tip.sequence() - earliest.sequence()
                        };
                        let length: u32 = if gap == u32::MAX {
                            u32::MAX
                        } else {
                            gap + 1
                        };
                        if earliest.sequence() == 0 || length >= SNAKE_CHAIN_LENGTH {
                            let better: bool = match best {
                                None => true,
                                Some(idx) => match self.blocks.get(idx) {
                                    None => true,
                                    Some(other) => tip.sequence() > other.sequence() || (
                                    tip.sequence() == other.sequence() && hash_less(
                                        tip.hash(),
                                        other.hash(),
                                    )),
                                },
                            };
                            if better {
                                best = Some(head.head_idx);
                            }
                        }
                    }
                }
            }
            slot = slot + 1;
        }
        best
    }

    /// Looks for a candidate and, if there is one, begins to process it.
    fn seek_candidate(&mut self, retries_left: u8, adopt_retries_left: u8) -> (step: (
        AcquisitionRun,
        AcquisitionAction,
    ))
        requires
            old(self).inv(),
            old(self)@.phase == LifecyclePhase::Collecting,
        ensures
            final(self).inv(),
            step.0@.fits(final(self)@),
            forall|stage: StageView|
                (Progress { node: final(self)@, run: step.0@, action: step.1@ })
                    == #[trigger] old(self)@.sought(
                    SNAKE_CHAIN_LENGTH,
                    (RunView { retries: retries_left, adopt_retries: adopt_retries_left, stage }),
                ),
    {
        match self.evaluate_stopping_condition() {
            None => (
                AcquisitionRun {
                    retries_left,
                    adopt_retries_left,
                    stage: AcquisitionStage::Finished,
                },
                AcquisitionAction::Done,
            ),
            Some(tip) => {
                self.set_lifecycle_phase(LifecyclePhase::Processing);
                let segment: Vec<u32> = match self.candidate_segment(tip) {
                    Ok(segment) => segment,
                    Err(_) => Vec::new(),
                };
                (
                    AcquisitionRun {
                        retries_left,
                        adopt_retries_left,
                        stage: AcquisitionStage::Examining { tip },
                    },
                    AcquisitionAction::Examine { segment },
                )
            },
        }
    }

    /// Marks every output of every block as unspent.
    fn clear_all_spent_bits(&mut self)
        requires
            old(self).inv(),
        ensures
            final(self).inv(),
            final(self)@ == (NodeView { blocks: all_unspent(old(self)@.blocks), ..old(self)@ }),
    {
        let ghost before = self@;
        let mut i: usize = 0;
        while i < MAX_BLOCKS
            invariant
                self.prng.wf(),
                self.blocks.wf(),
                self.chain_heads.wf(),
                self.node_info.wf(),
                i <= MAX_BLOCKS,
                before.blocks.len() == MAX_BLOCKS,
                self@ == (NodeView { blocks: self@.blocks, ..before }),
                forall|j: int| 0 <= j < i ==> #[trigger] self@.blocks[j] == all_unspent(
                    before.blocks,
                )[j],
                forall|j: int| i <= j < MAX_BLOCKS ==> #[trigger] self@.blocks[j]
                    == before.blocks[j],
            decreases MAX_BLOCKS - i,
        {
            let ghost current = self@;
            self.blocks.clear_spent_bits(i as u32);
            assert(self@ =~= (NodeView { blocks: self@.blocks, ..current }));
            i = i + 1;
        }
        proof {
            assert(self@.blocks =~= all_unspent(before.blocks));
            assert(processing::spending_only(before.blocks, self@.blocks));
            processing::spending_keeps_blocks(before.blocks, self@.blocks);
            tree::retaining_keeps_blocks_unique(before.blocks, self@.blocks);
            assert(self@ =~= (NodeView { blocks: all_unspent(before.blocks), ..before }));
        }
    }

    /// Gives up a candidate that the node could not commit to.
    fn abandon_candidate(&mut self)
        requires
            old(self).inv(),
            old(self)@.phase == LifecyclePhase::Processing,
        ensures
            final(self).inv(),
            final(self)@ == old(self)@.abandoned(),
    {
        let ghost before = self@;
        self.node_info.reset();
        self.vote_reset_pending = true;
        self.clear_all_spent_bits();
        self.set_lifecycle_phase(LifecyclePhase::Collecting);
        assert(self@ =~= before.abandoned());
    }

    /// Takes a pass that succeeded.
    fn accept_candidate(&mut self, retries_left: u8, adopt_retries_left: u8, tip: u32) -> (step: (
        AcquisitionRun,
        AcquisitionAction,
    ))
        requires
            old(self).inv(),
            old(self)@.phase == LifecyclePhase::Processing,
        ensures
            final(self).inv(),
            step.0@.fits(final(self)@),
            forall|stage: StageView|
                (Progress { node: final(self)@, run: step.0@, action: step.1@ })
                    == #[trigger] old(self)@.accepted(
                    (RunView { retries: retries_left, adopt_retries: adopt_retries_left, stage }),
                    tip,
                ),
    {
        let ghost before = self@;
        if self.chain_config.is_durable_locked() {
            self.promote_candidate_active(tip);
            self.set_lifecycle_phase(LifecyclePhase::Ready);
        } else if let Some(offender) = self.candidate_block_exceeding_size_limit(tip) {
            self.recover_from_failed_pass(
                ProcessingError::Invalid {
                    block_idx: offender,
                    reason: ValidationReason::BlockTooLarge,
                },
                tip,
            );
        } else {
            let (first, _) = self.scan_candidate_chain_config(tip, NONE_REF);
            if first != NONE_REF {
                return (
                    AcquisitionRun {
                        retries_left,
                        adopt_retries_left,
                        stage: AcquisitionStage::Committing { tip },
                    },
                    AcquisitionAction::Commit { block_idx: first },
                );
            }
            self.abandon_candidate();
        }
        (
            AcquisitionRun {
                retries_left,
                adopt_retries_left,
                stage: AcquisitionStage::Finished,
            },
            AcquisitionAction::Done,
        )
    }

    /// Takes a pass that failed: adopts the candidate's configuration and tries
    /// again, or recovers and, where that gives reason to, tries what remains.
    fn fail_candidate(
        &mut self,
        retries_left: u8,
        adopt_retries_left: u8,
        tip: u32,
        reads: &Vec<Option<ChainBlock>>,
        segment: &Vec<u32>,
        error: ProcessingError,
    ) -> (step: (AcquisitionRun, AcquisitionAction))
        requires
            old(self).inv(),
            old(self)@.phase == LifecyclePhase::Processing,
            reads@.len() == segment@.len(),
            forall|i: int|
                0 <= i < segment@.len() ==> tree::present(
                    old(self)@.blocks,
                    #[trigger] segment@[i],
                ),
        ensures
            final(self).inv(),
            step.0@.fits(final(self)@),
            forall|stage: StageView|
                (Progress { node: final(self)@, run: step.0@, action: step.1@ })
                    == #[trigger] old(self)@.failed(
                    SNAKE_CHAIN_LENGTH,
                    (RunView { retries: retries_left, adopt_retries: adopt_retries_left, stage }),
                    tip,
                    reads@,
                    segment@,
                    error,
                ),
    {
        let ghost before = self@;
        let mismatch: Option<u32> = match error {
            ProcessingError::Invalid {
                block_idx,
                reason: ValidationReason::ChainConfigMismatch,
            } => Some(block_idx),
            _ => None,
        };
        if adopt_retries_left > 0 && !self.chain_config.is_durable_locked() {
            if let Some(block_idx) = mismatch {
                let (first, _) = self.scan_candidate_chain_config(tip, NONE_REF);
                proof {
                    lemma_scan_in_tree(
                        before.blocks,
                        tip,
                        NONE_REF,
                        before.blocks.len(),
                        NONE_REF,
                        false,
                    );
                }
                if block_idx == first {
                    if let Some(at) = self.lowest_of_kind(segment, PAYLOAD_TYPE_CHAIN_CONFIG) {
                        if self.adopt_candidate_chain_config(tip, first, &reads[at]) {
                            assert(before.config_read(segment@, reads@) == reads@[at as int]);
                            self.set_lifecycle_phase(LifecyclePhase::Collecting);
                            return self.seek_candidate(retries_left, adopt_retries_left - 1);
                        }
                    }
                }
            }
        }
        assert(self@ == before);
        let retry: bool = match error {
            ProcessingError::Invalid {
                block_idx: _,
                reason: ValidationReason::MissingChainConfigBlock,
            } => false,
            ProcessingError::Invalid { block_idx: _, reason: _ } => true,
            _ => false,
        };
        self.recover_from_failed_pass(error, tip);
        if !retry || retries_left == 0 || self.chain_config.active_configuration().is_none() {
            return (
                AcquisitionRun {
                    retries_left,
                    adopt_retries_left,
                    stage: AcquisitionStage::Finished,
                },
                AcquisitionAction::Done,
            );
        }
        self.seek_candidate(retries_left - 1, adopt_retries_left)
    }

    /// Takes the outcome of writing the candidate's configuration.
    fn conclude_commitment(
        &mut self,
        retries_left: u8,
        adopt_retries_left: u8,
        tip: u32,
        block: &Option<ChainBlock>,
        written: bool,
        contents: &Vec<Option<Vec<u8>>>,
    ) -> (step: (AcquisitionRun, AcquisitionAction))
        requires
            old(self).inv(),
            old(self)@.phase == LifecyclePhase::Processing,
            contents@.len() == MAX_BLOCKS,
        ensures
            final(self).inv(),
            step.0@.fits(final(self)@),
            forall|stage: StageView|
                (Progress { node: final(self)@, run: step.0@, action: step.1@ })
                    == #[trigger] old(self)@.concluded(
                    (RunView { retries: retries_left, adopt_retries: adopt_retries_left, stage }),
                    tip,
                    *block,
                    written,
                    recovery::content_views(contents@),
                ),
    {
        let ghost before = self@;
        if self.commit_durable_chain_config(block, written) {
            self.promote_candidate_active(tip);
            let ghost active = self@;
            self.delete_mismatching_chain_config_blocks(contents);
            proof {
                lemma_mismatches_frame(
                    active,
                    recovery::content_views(contents@),
                    0,
                    MAX_BLOCKS as int,
                );
            }
            let ghost matching = self@;
            self.reevaluate_retained_blocks_against_lock();
            proof {
                lemma_oversized_frame(
                    matching,
                    matching.enforceable_limit(),
                    0,
                    MAX_BLOCKS as int,
                );
            }
            self.set_lifecycle_phase(LifecyclePhase::Ready);
        } else {
            self.abandon_candidate();
        }
        (
            AcquisitionRun {
                retries_left,
                adopt_retries_left,
                stage: AcquisitionStage::Finished,
            },
            AcquisitionAction::Done,
        )
    }

    /// One step of acquiring the dominant chain: takes what came of the last
    /// action, and hands out the next one.
    pub fn drive_dominant_chain_acquisition(
        &mut self,
        run: AcquisitionRun,
        event: AcquisitionEvent,
    ) -> (step: (AcquisitionRun, AcquisitionAction))
        requires
            old(self).inv(),
            run@.fits(old(self)@),
            answers(event, run@, old(self)@),
        ensures
            final(self).inv(),
            step.0@.fits(final(self)@),
            (Progress { node: final(self)@, run: step.0@, action: step.1@ })
                == old(self)@.advanced(SNAKE_CHAIN_LENGTH, run@, event),
    {
        let ghost before = self@;
        let ghost view = run@;
        let retries_left: u8 = run.retries_left;
        let adopt_retries_left: u8 = run.adopt_retries_left;
        match (run.stage, event) {
            (AcquisitionStage::Start, AcquisitionEvent::Begin) => self.seek_candidate(
                retries_left,
                adopt_retries_left,
            ),
            (
                AcquisitionStage::Examining { tip },
                AcquisitionEvent::Examined { reads, vote_failure },
            ) => {
                let plan: PassPlan = self.run_processing_pass(tip, &reads, vote_failure);
                proof {
                    processing::pass_only_spends(
                        before,
                        tip,
                        reads@,
                        processing::vote_stop(vote_failure),
                        derivation::all_hold(),
                    );
                    processing::spending_keeps_blocks(before.blocks, self@.blocks);
                    processing::candidate_is_in_the_tree(before.blocks, tip);
                }
                (
                    AcquisitionRun {
                        retries_left,
                        adopt_retries_left,
                        stage: AcquisitionStage::Verifying { tip, reads, plan },
                    },
                    AcquisitionAction::Verify,
                )
            },
            (
                AcquisitionStage::Verifying { tip, reads, plan },
                AcquisitionEvent::Verified { verdicts },
            ) => {
                let result = self.settle_processing_pass(&plan, &verdicts);
                proof {
                    processing::clearing_only_spends(
                        before.blocks,
                        before.blocks,
                        plan.segment@,
                        0,
                    );
                    processing::spending_keeps_blocks(before.blocks, self@.blocks);
                }
                match result {
                    Ok(_) => self.accept_candidate(retries_left, adopt_retries_left, tip),
                    Err(error) => self.fail_candidate(
                        retries_left,
                        adopt_retries_left,
                        tip,
                        &reads,
                        &plan.segment,
                        error,
                    ),
                }
            },
            (
                AcquisitionStage::Committing { tip },
                AcquisitionEvent::Committed { block, written, contents },
            ) => self.conclude_commitment(
                retries_left,
                adopt_retries_left,
                tip,
                &block,
                written,
                &contents,
            ),
            (stage, _) => (
                AcquisitionRun { retries_left, adopt_retries_left, stage },
                AcquisitionAction::Done,
            ),
        }
    }
}

// -- What holds of every acquisition -----------------------------------------

/// An acquisition starts with three passes, and every step that asks for another
/// candidate to be examined spends one of them; nothing restores any.
pub proof fn acquisition_is_bounded(
    node: NodeView,
    window: u32,
    run: RunView,
    event: AcquisitionEvent,
)
    requires
        answers(event, run, node),
    ensures
        (RunView { retries: 1, adopt_retries: 1, stage: StageView::Start }).passes_left() == 3,
        ({
            let next = node.advanced(window, run, event);
            &&& 0 <= next.run.passes_left() <= run.passes_left()
            &&& next.action is Examine ==> next.run.passes_left() < run.passes_left()
        }),
{
}

/// Whatever a step finds, a locked configuration stays locked, with the same
/// content and parameters.
pub proof fn acquisition_keeps_the_lock(
    node: NodeView,
    window: u32,
    run: RunView,
    event: AcquisitionEvent,
)
    requires
        node.config is Durable,
    ensures
        node.advanced(window, run, event).node.config == node.config,
{
    if let (
        StageView::Committing { tip },
        AcquisitionEvent::Committed { block, written, contents },
    ) = (run.stage, event) {
        assert(!node.commits(block));
    }
}

proof fn lemma_concluded(
    node: NodeView,
    run: RunView,
    tip: u32,
    block: Option<ChainBlock>,
    contents: Seq<Option<Seq<u8>>>,
)
    requires
        node.commits(block),
    ensures
        node.concluded(run, tip, block, true, contents).node.config is Durable,
{
    let active = node.committed().activated(tip);
    let end = active.blocks.len() as int;
    assert(active.config is Durable);
    lemma_mismatches_frame(active, contents, 0, end);
    lemma_oversized_frame(
        active.mismatches_deleted(contents, 0, end),
        active.enforceable_limit(),
        0,
        end,
    );
}

/// A node becomes ready only with its chain configuration locked, and an
/// acquisition that is over leaves the node collecting or ready, never in
/// between.
pub proof fn ready_is_locked(node: NodeView, window: u32, run: RunView, event: AcquisitionEvent)
    requires
        run.fits(node),
        answers(event, run, node),
    ensures
        ({
            let next = node.advanced(window, run, event);
            &&& next.node.phase == LifecyclePhase::Ready ==> next.node.config is Durable
            &&& next.action is Done ==> next.node.phase != LifecyclePhase::Processing
            &&& !(next.action is Done) ==> next.node.phase == LifecyclePhase::Processing
        }),
{
    if let (
        StageView::Committing { tip },
        AcquisitionEvent::Committed { block, written, contents },
    ) = (run.stage, event) {
        if node.commits(block) && written {
            lemma_concluded(node, run, tip, block, recovery::content_views(contents@));
        }
    }
}

proof fn lemma_dominant_from(
    s: Seq<BlockEntry>,
    heads: Seq<ChainHeadEntry>,
    window: u32,
    slot: int,
    best: Option<u32>,
)
    requires
        0 <= slot <= heads.len(),
        best matches Some(idx) ==> exists|i: int|
            0 <= i < slot && qualifies(s, #[trigger] heads[i], window) && heads[i].head_idx == idx,
        forall|i: int|
            0 <= i < slot && qualifies(s, #[trigger] heads[i], window) ==> best is Some && (
            heads[i].head_idx == best->0 || !dominates(s, heads[i].head_idx, best->0)),
    ensures
        match dominant_from(s, heads, window, slot, best) {
            Some(idx) => {
                &&& exists|i: int|
                    0 <= i < heads.len() && qualifies(s, #[trigger] heads[i], window)
                        && heads[i].head_idx == idx
                &&& forall|i: int|
                    0 <= i < heads.len() && qualifies(s, #[trigger] heads[i], window) ==> !dominates(
                        s,
                        heads[i].head_idx,
                        idx,
                    )
            },
            None => forall|i: int|
                0 <= i < heads.len() ==> !qualifies(s, #[trigger] heads[i], window),
        },
    decreases heads.len() - slot,
{
    if slot < heads.len() {
        let takes = qualifies(s, heads[slot], window) && (best is None || dominates(
            s,
            heads[slot].head_idx,
            best->0,
        ));
        let next = if takes {
            Some(heads[slot].head_idx)
        } else {
            best
        };
        assert forall|i: int| 0 <= i < slot + 1 && qualifies(s, #[trigger] heads[i], window) implies next
            is Some && (heads[i].head_idx == next->0 || !dominates(
            s,
            heads[i].head_idx,
            next->0,
        )) by {
            if i < slot && takes && heads[i].head_idx != next->0 {
                if dominates(s, heads[i].head_idx, next->0) {
                    lemma_dominates_transitive(s, heads[i].head_idx, next->0, best->0);
                }
                lemma_dominates_irreflexive(s, best->0);
            }
        }
        lemma_dominant_from(s, heads, window, slot + 1, next);
    } else {
        if let Some(idx) = best {
            lemma_dominates_irreflexive(s, idx);
        }
    }
}

proof fn lemma_dominates_irreflexive(s: Seq<BlockEntry>, a: u32)
    ensures
        !dominates(s, a, a),
{
    hash::lex_less_irreflexive(s[a as int].hash@);
}

proof fn lemma_dominates_transitive(s: Seq<BlockEntry>, a: u32, b: u32, c: u32)
    requires
        dominates(s, a, b),
        dominates(s, b, c),
    ensures
        dominates(s, a, c),
{
    if s[a as int].sequence == s[b as int].sequence && s[b as int].sequence
        == s[c as int].sequence {
        hash::lex_less_transitive(s[a as int].hash, s[b as int].hash, s[c as int].hash);
    }
}

/// The candidate that is chosen is one, and no other one dominates it: the
/// choice does not depend on the order in which the tips are held. None is
/// chosen only where no tip stands for a candidate.
pub proof fn dominant_candidate_is_undominated(
    s: Seq<BlockEntry>,
    heads: Seq<ChainHeadEntry>,
    window: u32,
)
    ensures
        match dominant(s, heads, window) {
            Some(idx) => {
                &&& exists|i: int|
                    0 <= i < heads.len() && qualifies(s, #[trigger] heads[i], window)
                        && heads[i].head_idx == idx
                &&& forall|i: int|
                    0 <= i < heads.len() && qualifies(s, #[trigger] heads[i], window) ==> !dominates(
                        s,
                        heads[i].head_idx,
                        idx,
                    )
            },
            None => forall|i: int|
                0 <= i < heads.len() ==> !qualifies(s, #[trigger] heads[i], window),
        },
{
    lemma_dominant_from(s, heads, window, 0, None);
}

} // verus!
