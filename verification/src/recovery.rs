//! What follows a pass: the recovery after one that failed, the promotion after
//! one that succeeded, and the commitment to the candidate's configuration.

use vstd::prelude::*;

use crate::admission;
use crate::ancestry;
use crate::api::{Blockchain, NodeView};
use crate::block_data::{ChainBlock, PAYLOAD_TYPE_CHAIN_CONFIG};
use crate::blocks as tree;
use crate::blocks::{BlockEntry, NONE_REF};
use crate::chain_heads as tips;
use crate::chain_heads::Tips;
use crate::config_state::ConfigParameters;
use crate::derivation::ProcessingError;
use crate::hash::bytes_eq;
use crate::lifecycle::LifecyclePhase;
use crate::node_info::InfoView;
use crate::processing;
use crate::processing::ConfigPreload;
use crate::staged_validation;
use crate::staged_validation::{tier1_chain_config_block, BlockStatus};

verus! {

/// The block that a failure speaks against: the one that breaks a rule, or the
/// tip of the candidate where no block is known to.
pub open spec fn deletion_target(error: ProcessingError, tip: u32) -> u32 {
    match error {
        ProcessingError::Invalid { block_idx, reason } => block_idx,
        _ => tip,
    }
}

/// The tree with no block on the active chain, and every block stored.
pub open spec fn unmarked(s: Seq<BlockEntry>) -> Seq<BlockEntry> {
    Seq::new(
        s.len(),
        |i: int|
            if s[i].occupied() {
                s[i].with_active(false).with_stage(BlockStatus::Stored)
            } else {
                s[i]
            },
    )
}

/// The slot of the chain's first block, searched from `from` on.
pub open spec fn genesis_slot(s: Seq<BlockEntry>, from: int) -> Option<u32>
    decreases s.len() - from,
{
    if from < 0 || from >= s.len() {
        None
    } else if s[from].occupied() && s[from].sequence == 0 {
        Some(from as u32)
    } else {
        genesis_slot(s, from + 1)
    }
}

/// The marking that admissions alone leave behind: the first block of the chain
/// is on the active chain, if it is held, and nothing else is.
pub open spec fn marking_restored(s: Seq<BlockEntry>) -> Seq<BlockEntry> {
    match genesis_slot(unmarked(s), 0) {
        Some(idx) => unmarked(s).update(idx as int, unmarked(s)[idx as int].with_active(true)),
        None => unmarked(s),
    }
}

/// The tree with the candidate below `cur` promoted to the active chain.
pub open spec fn promoted(s: Seq<BlockEntry>, cur: u32, steps: nat) -> Seq<BlockEntry>
    decreases steps,
{
    if steps == 0 || !tree::present(s, cur) {
        s
    } else {
        let next = s.update(
            cur as int,
            s[cur as int].with_stage(BlockStatus::Active).with_active(true),
        );
        if s[cur as int].parent_ref == NONE_REF {
            next
        } else {
            promoted(next, s[cur as int].parent_ref, (steps - 1) as nat)
        }
    }
}

/// The lowest block below `cur` that carries a chain configuration, `first` so
/// far, and whether `probe` was passed, `seen` so far.
pub open spec fn config_scan(
    s: Seq<BlockEntry>,
    cur: u32,
    probe: u32,
    steps: nat,
    first: u32,
    seen: bool,
) -> (u32, bool)
    decreases steps,
{
    if steps == 0 || !tree::present(s, cur) {
        (first, seen)
    } else {
        let found = if s[cur as int].kind() == PAYLOAD_TYPE_CHAIN_CONFIG {
            cur
        } else {
            first
        };
        if s[cur as int].parent_ref == NONE_REF {
            (found, seen || cur == probe)
        } else {
            config_scan(
                s,
                s[cur as int].parent_ref,
                probe,
                (steps - 1) as nat,
                found,
                seen || cur == probe,
            )
        }
    }
}

/// The lowest block below `cur` that is larger than `limit`, `offender` so far;
/// nothing when the tree does not link the candidate down to its lowest block.
pub open spec fn oversized(
    s: Seq<BlockEntry>,
    cur: u32,
    limit: u16,
    steps: nat,
    offender: Option<u32>,
) -> Option<u32>
    decreases steps,
{
    if steps == 0 {
        offender
    } else if !tree::present(s, cur) {
        None
    } else {
        let found = if s[cur as int].len > limit {
            Some(cur)
        } else {
            offender
        };
        if s[cur as int].parent_ref == NONE_REF {
            found
        } else {
            oversized(s, s[cur as int].parent_ref, limit, (steps - 1) as nat, found)
        }
    }
}

/// How a configuration content that was read back compares with the locked one.
pub open spec fn lock_verdict(locked: Option<Seq<u8>>, content: Option<Seq<u8>>) -> ConfigPreload {
    match locked {
        Some(own) => processing::config_verdict(own, content),
        None => ConfigPreload::Unreadable,
    }
}

/// Whether what a block read back as speaks against the locked configuration.
/// A block that could not be read does not.
pub open spec fn content_differs(locked: Option<Seq<u8>>, content: Option<Seq<u8>>) -> bool {
    lock_verdict(locked, content) == ConfigPreload::Differs
}

/// A configuration content by its view.
pub open spec fn content_view(content: Option<Vec<u8>>) -> Option<Seq<u8>> {
    match content {
        Some(bytes) => Some(bytes@),
        None => None,
    }
}

/// The contents by their views.
pub open spec fn content_views(contents: Seq<Option<Vec<u8>>>) -> Seq<Option<Seq<u8>>> {
    Seq::new(
        contents.len(),
        |i: int| content_view(contents[i]),
    )
}

impl NodeView {
    /// The lowest configuration block of the candidate that ends in `tip`, and
    /// whether `probe` lies on the candidate.
    pub open spec fn scanned(self, tip: u32, probe: u32) -> (u32, bool) {
        config_scan(self.blocks, tip, probe, self.blocks.len(), NONE_REF, false)
    }

    /// The parent that the block at `idx` is linked to.
    pub open spec fn parent_of(self, idx: u32) -> u32 {
        if tree::present(self.blocks, idx) {
            self.blocks[idx as int].parent_ref
        } else {
            NONE_REF
        }
    }

    /// The node without the block at `target` and its descendants.
    pub open spec fn subtree_deleted(self, target: u32) -> NodeView {
        let gone = tree::subtree(self.blocks, target);
        if gone.len() == 0 {
            self
        } else {
            let t = tips::subtree_dropped(
                Tips { heads: self.heads, blocks: tree::without_subtree(self.blocks, target) },
                gone,
                self.parent_of(target),
            );
            (NodeView {
                heads: t.heads,
                blocks: t.blocks,
                active_head: if gone.contains(self.active_head) {
                    NONE_REF
                } else {
                    self.active_head
                },
                ..self
            }).source_settled()
        }
    }

    /// The node after the recovery from a failed pass: what was derived is
    /// discarded, the block that failed is deleted with its descendants, and the
    /// node collects again.
    pub open spec fn recovered(self, error: ProcessingError, tip: u32) -> NodeView {
        let target = deletion_target(error, tip);
        let gone = tree::subtree(self.blocks, target);
        let trimmed = (NodeView {
            info: InfoView::blank(self.info.seeds.len()),
            vote_reset: true,
            blocks: tree::without_subtree(self.blocks, target),
            ..self
        }).source_settled();
        let marked = Tips { heads: self.heads, blocks: marking_restored(trimmed.blocks) };
        let t = if gone.len() > 0 {
            tips::subtree_dropped(marked, gone, self.parent_of(target))
        } else {
            marked
        };
        NodeView {
            heads: t.heads,
            blocks: t.blocks,
            active_head: match genesis_slot(unmarked(trimmed.blocks), 0) {
                Some(idx) => idx,
                None => NONE_REF,
            },
            phase: LifecyclePhase::Collecting,
            ..trimmed
        }
    }

    /// The node with the candidate that ends in `tip` as its active chain.
    pub open spec fn activated(self, tip: u32) -> NodeView {
        NodeView {
            blocks: promoted(self.blocks, tip, self.blocks.len()),
            active_head: tip,
            ..self
        }
    }

    /// The node after the blocks from `from` up to `end` that are larger than
    /// `limit` and not on the active chain were deleted.
    pub open spec fn oversized_deleted(self, limit: u16, from: int, end: int) -> NodeView
        decreases end - from,
    {
        if from >= end {
            self
        } else if self.blocks[from].occupied() && !self.blocks[from].active()
            && self.blocks[from].len > limit {
            self.subtree_deleted(from as u32).oversized_deleted(limit, from + 1, end)
        } else {
            self.oversized_deleted(limit, from + 1, end)
        }
    }

    /// The node after the configuration blocks from `from` up to `end` that
    /// differ from the locked configuration and are not on the active chain were
    /// deleted.
    pub open spec fn mismatches_deleted(
        self,
        contents: Seq<Option<Seq<u8>>>,
        from: int,
        end: int,
    ) -> NodeView
        decreases end - from,
    {
        if from >= end {
            self
        } else if self.blocks[from].occupied() && self.blocks[from].kind()
            == PAYLOAD_TYPE_CHAIN_CONFIG && !self.blocks[from].active() && content_differs(
            self.config.durable(),
            contents[from],
        ) {
            self.subtree_deleted(from as u32).mismatches_deleted(contents, from + 1, end)
        } else {
            self.mismatches_deleted(contents, from + 1, end)
        }
    }

    /// Whether the block read back as `block` carries what the node is about to
    /// lock.
    pub open spec fn commits(self, block: Option<ChainBlock>) -> bool {
        &&& block is Some
        &&& (block->0).config_content() is Some
        &&& (block->0).config_content() == self.config.tentative()
    }

    /// The node with its tentative configuration locked.
    pub open spec fn committed(self) -> NodeView {
        NodeView { config: self.config.promoted(), config_source: NONE_REF, ..self }
    }

    /// Whether the configuration of the block read back as `block` can be held
    /// in place of the tentative one.
    pub open spec fn adopts(self, block: Option<ChainBlock>) -> bool {
        &&& block is Some
        &&& staged_validation::chain_config_failure(block->0) is None
        &&& self.config.load_error(admission::accepted_parameters(block->0)) is None
    }

    /// The node with the configuration of the candidate's lowest configuration
    /// block held tentatively. The block behind the previous one is deleted,
    /// unless it lies on the candidate.
    pub open spec fn adopted(self, tip: u32, first: u32, block: ChainBlock) -> NodeView {
        let loaded = NodeView {
            config: self.config.loaded(
                block.config_content()->0,
                admission::accepted_parameters(block),
            ),
            config_source: first,
            vote_reset: true,
            ..self
        };
        if self.config_source != NONE_REF && self.config_source != first && !self.scanned(
            tip,
            self.config_source,
        ).1 {
            loaded.subtree_deleted(self.config_source)
        } else {
            loaded
        }
    }
}

proof fn lemma_unmarked_retains(s: Seq<BlockEntry>)
    requires
        s.len() <= NONE_REF,
    ensures
        tree::retains(s, unmarked(s)),
        tree::retains(s, marking_restored(s)),
        genesis_slot(unmarked(s), 0) matches Some(idx) ==> tree::present(unmarked(s), idx),
        forall|idx: u32| #[trigger] tree::present(marking_restored(s), idx) == tree::present(s, idx),
{
    assert forall|i: int| 0 <= i < s.len() implies (#[trigger] unmarked(s)[i]).kind() == s[i].kind()
        && unmarked(s)[i].with_active(true).kind() == s[i].kind() by {
        tree::lemma_active_bit(s[i].flags);
        tree::lemma_status_bits(s[i].with_active(false).flags, BlockStatus::Stored);
        tree::lemma_active_bit(unmarked(s)[i].flags);
    }
    genesis_slot_is_first(unmarked(s), 0);
}

/// The slot that is found holds the first block of the chain, and no lower one
/// does.
pub proof fn genesis_slot_is_first(s: Seq<BlockEntry>, from: int)
    requires
        0 <= from,
        s.len() <= NONE_REF,
    ensures
        match genesis_slot(s, from) {
            Some(idx) => from <= idx < s.len() && s[idx as int].occupied()
                && s[idx as int].sequence == 0 && forall|i: int|
                from <= i < idx && (#[trigger] s[i]).occupied() ==> s[i].sequence != 0,
            None => forall|i: int|
                from <= i < s.len() && (#[trigger] s[i]).occupied() ==> s[i].sequence != 0,
        },
    decreases s.len() - from,
{
    if from < s.len() && !(s[from].occupied() && s[from].sequence == 0) {
        genesis_slot_is_first(s, from + 1);
    }
}

proof fn lemma_promoted_retains(first: Seq<BlockEntry>, s: Seq<BlockEntry>, cur: u32, steps: nat)
    requires
        tree::retains(first, s),
    ensures
        tree::retains(first, promoted(s, cur, steps)),
        forall|idx: u32|
            #[trigger] tree::present(promoted(s, cur, steps), idx) == tree::present(s, idx),
    decreases steps,
{
    if steps > 0 && tree::present(s, cur) {
        let entry = s[cur as int];
        let next = s.update(
            cur as int,
            entry.with_stage(BlockStatus::Active).with_active(true),
        );
        tree::lemma_status_bits(entry.flags, BlockStatus::Active);
        tree::lemma_active_bit(entry.with_stage(BlockStatus::Active).flags);
        assert(tree::retains(first, next));
        assert forall|idx: u32| #[trigger] tree::present(next, idx) == tree::present(s, idx) by {}
        if entry.parent_ref != NONE_REF {
            lemma_promoted_retains(first, next, entry.parent_ref, (steps - 1) as nat);
        }
    }
}

/// Deleting a subtree keeps the other blocks as they are.
proof fn lemma_deletion_retains(
    heads: Seq<tips::ChainHeadEntry>,
    s: Seq<BlockEntry>,
    target: u32,
    parent: u32,
)
    ensures
        tree::retains(s, tree::without_subtree(s, target)),
        tree::retains(
            s,
            tips::subtree_dropped(
                Tips { heads, blocks: tree::without_subtree(s, target) },
                tree::subtree(s, target),
                parent,
            ).blocks,
        ),
{
    let t = Tips { heads, blocks: tree::without_subtree(s, target) };
    tips::deletion_follow_up_spares_the_rest(t, tree::subtree(s, target), parent);
    tree::retains_transitive(
        s,
        t.blocks,
        tips::subtree_dropped(t, tree::subtree(s, target), parent).blocks,
    );
}

impl<
    const MAX_NODES: usize,
    const SNAKE_CHAIN_LENGTH: u32,
    const VERIFICATION_HORIZON: usize,
    const MAX_BLOCKS: usize,
    const MAX_BRANCH_COUNT: usize,
    const MAX_BLOCK_UTXO_OUTPUT: usize,
> Blockchain<
    MAX_NODES,
    SNAKE_CHAIN_LENGTH,
    VERIFICATION_HORIZON,
    MAX_BLOCKS,
    MAX_BRANCH_COUNT,
    MAX_BLOCK_UTXO_OUTPUT,
> {
    /// Deletes the block at `target` with its descendants, and nothing else of
    /// the node; returns how many blocks that were.
    pub fn delete_subtree_with_followup(&mut self, target: u32) -> (count: usize)
        requires
            old(self).inv(),
        ensures
            final(self).inv(),
            final(self)@ == old(self)@.subtree_deleted(target),
            count == tree::subtree(old(self)@.blocks, target).len(),
    {
        let ghost before = self@;
        let gone: Vec<u32> = self.blocks.mark_subtree(target);
        if gone.len() == 0 {
            return 0;
        }
        let parent: u32 = match self.blocks.get(target) {
            Some(entry) => entry.parent_ref(),
            None => NONE_REF,
        };
        self.blocks.delete_all(&gone);
        assert(self.blocks.blocks@ =~= tree::without_subtree(before.blocks, target)) by {
            assert forall|i: int| 0 <= i < MAX_BLOCKS implies self.blocks.blocks@[i]
                == tree::without_subtree(before.blocks, target)[i] by {
                let idx = i as u32;
                assert(gone@.contains(idx) <==> tree::descends(
                    before.blocks,
                    idx,
                    target,
                    MAX_BLOCKS as nat,
                ));
                if tree::descends(before.blocks, idx, target, MAX_BLOCKS as nat) {
                    assert(tree::present(before.blocks, idx));
                }
            }
        }
        if tree::contains_slot(&gone, self.active_chain_head_idx) {
            self.active_chain_head_idx = NONE_REF;
        }
        proof {
            lemma_deletion_retains(before.heads, before.blocks, target, parent);
        }
        self.chain_heads.on_blocks_deleted(&mut self.blocks, &gone, parent);
        proof {
            tree::retaining_keeps_blocks_unique(before.blocks, self@.blocks);
        }
        self.settle_config_source();
        assert(self@ =~= before.subtree_deleted(target));
        gone.len()
    }

    /// Takes every block off the active chain, back to stored.
    fn clear_active_marking(&mut self)
        requires
            old(self).inv(),
        ensures
            final(self).inv(),
            final(self)@ == (NodeView { blocks: unmarked(old(self)@.blocks), ..old(self)@ }),
    {
        let ghost before = self@;
        let mut i: usize = 0;
        while i < MAX_BLOCKS
            invariant
                self.prng.wf(),
                self.blocks.wf(),
                self.chain_heads.wf(),
                self.node_info.wf(),
                i <= MAX_BLOCKS,
                MAX_BLOCKS <= NONE_REF,
                before.blocks.len() == MAX_BLOCKS,
                self@ == (NodeView { blocks: self@.blocks, ..before }),
                forall|j: int| 0 <= j < i ==> #[trigger] self@.blocks[j] == unmarked(
                    before.blocks,
                )[j],
                forall|j: int| i <= j < MAX_BLOCKS ==> #[trigger] self@.blocks[j]
                    == before.blocks[j],
            decreases MAX_BLOCKS - i,
        {
            let idx: u32 = i as u32;
            let ghost current = self@;
            let _ = self.blocks.set_on_active_chain(idx, false);
            let _ = self.blocks.set_status(idx, BlockStatus::Stored);
            assert(self@ =~= (NodeView { blocks: self@.blocks, ..current }));
            i = i + 1;
        }
        proof {
            assert(self@.blocks =~= unmarked(before.blocks));
            lemma_unmarked_retains(before.blocks);
            tree::retaining_keeps_blocks_unique(before.blocks, self@.blocks);
            assert(self@ =~= (NodeView { blocks: unmarked(before.blocks), ..before }));
        }
    }

    /// The slot of the chain's first block, if it is held.
    pub(crate) fn find_genesis(&self) -> (slot: Option<u32>)
        requires
            self.inv(),
        ensures
            slot == genesis_slot(self@.blocks, 0),
    {
        let mut i: usize = 0;
        while i < MAX_BLOCKS
            invariant
                self.inv(),
                i <= MAX_BLOCKS,
                genesis_slot(self@.blocks, 0) == genesis_slot(self@.blocks, i as int),
            decreases MAX_BLOCKS - i,
        {
            let idx: u32 = i as u32;
            if let Some(entry) = self.blocks.get(idx) {
                if entry.sequence() == 0 {
                    return Some(idx);
                }
            }
            i = i + 1;
        }
        None
    }

    /// Restores the marking that admissions alone leave behind.
    fn restore_marking(&mut self)
        requires
            old(self).inv(),
        ensures
            final(self).inv(),
            final(self)@ == (NodeView {
                blocks: marking_restored(old(self)@.blocks),
                active_head: match genesis_slot(unmarked(old(self)@.blocks), 0) {
                    Some(idx) => idx,
                    None => NONE_REF,
                },
                ..old(self)@
            }),
    {
        let ghost before = self@;
        self.clear_active_marking();
        self.active_chain_head_idx = NONE_REF;
        proof {
            lemma_unmarked_retains(before.blocks);
        }
        if let Some(idx) = self.find_genesis() {
            let _ = self.blocks.set_on_active_chain(idx, true);
            self.active_chain_head_idx = idx;
        }
        proof {
            assert(self@.blocks =~= marking_restored(before.blocks));
            tree::retaining_keeps_blocks_unique(before.blocks, self@.blocks);
        }
    }

    /// Recovers from a failed pass over the candidate that ends in `tip`.
    pub fn recover_from_failed_pass(&mut self, error: ProcessingError, tip: u32)
        requires
            old(self).inv(),
            old(self)@.phase == LifecyclePhase::Processing,
        ensures
            final(self).inv(),
            final(self)@ == old(self)@.recovered(error, tip),
    {
        let ghost before = self@;
        self.node_info.reset();
        self.vote_reset_pending = true;
        let target: u32 = match error {
            ProcessingError::Invalid { block_idx, reason: _ } => block_idx,
            _ => tip,
        };
        let gone: Vec<u32> = self.blocks.mark_subtree(target);
        let parent: u32 = match self.blocks.get(target) {
            Some(entry) => entry.parent_ref(),
            None => NONE_REF,
        };
        self.blocks.delete_all(&gone);
        proof {
            assert(self.blocks.blocks@ =~= tree::without_subtree(before.blocks, target)) by {
                assert forall|i: int| 0 <= i < MAX_BLOCKS implies self.blocks.blocks@[i]
                    == tree::without_subtree(before.blocks, target)[i] by {
                    let idx = i as u32;
                    assert(gone@.contains(idx) <==> tree::descends(
                        before.blocks,
                        idx,
                        target,
                        MAX_BLOCKS as nat,
                    ));
                    if tree::descends(before.blocks, idx, target, MAX_BLOCKS as nat) {
                        assert(tree::present(before.blocks, idx));
                    }
                }
            }
            lemma_deletion_retains(before.heads, before.blocks, target, parent);
            tree::retaining_keeps_blocks_unique(before.blocks, self@.blocks);
        }
        self.settle_config_source();
        let ghost trimmed = self@;
        assert(trimmed =~= (NodeView {
            info: InfoView::blank(before.info.seeds.len()),
            vote_reset: true,
            blocks: tree::without_subtree(before.blocks, target),
            ..before
        }).source_settled());
        self.restore_marking();
        let ghost marked = self@;
        if gone.len() > 0 {
            proof {
                tips::deletion_follow_up_spares_the_rest(self@.tips(), gone@, parent);
            }
            self.chain_heads.on_blocks_deleted(&mut self.blocks, &gone, parent);
            proof {
                tree::retaining_keeps_blocks_unique(marked.blocks, self@.blocks);
                tips::deletion_follow_up_only_counts(marked.tips(), gone@, parent);
            }
        }
        self.set_lifecycle_phase(LifecyclePhase::Collecting);
        assert(self@ =~= before.recovered(error, tip));
    }

    /// Promotes the candidate that ends in `tip` to the active chain.
    pub fn promote_candidate_active(&mut self, tip: u32)
        requires
            old(self).inv(),
        ensures
            final(self).inv(),
            final(self)@ == old(self)@.activated(tip),
    {
        let ghost before = self@;
        let mut cur: u32 = tip;
        let mut steps: usize = MAX_BLOCKS;
        while steps > 0
            invariant_except_break
                promoted(before.blocks, tip, MAX_BLOCKS as nat) == promoted(
                    self@.blocks,
                    cur,
                    steps as nat,
                ),
            invariant
                self.prng.wf(),
                self.blocks.wf(),
                self.chain_heads.wf(),
                self.node_info.wf(),
                steps <= MAX_BLOCKS,
                self@ == (NodeView { blocks: self@.blocks, ..before }),
            ensures
                self@.blocks == promoted(before.blocks, tip, MAX_BLOCKS as nat),
            decreases steps,
        {
            let ghost current = self@;
            let _ = self.blocks.set_status(cur, BlockStatus::Active);
            let _ = self.blocks.set_on_active_chain(cur, true);
            assert(self@ =~= (NodeView { blocks: self@.blocks, ..current }));
            assert(tree::present(current.blocks, cur) ==> self@.blocks =~= current.blocks.update(
                cur as int,
                current.blocks[cur as int].with_stage(BlockStatus::Active).with_active(true),
            ));
            match self.blocks.get(cur) {
                None => {
                    break ;
                },
                Some(entry) => {
                    let parent: u32 = entry.parent_ref();
                    if parent == NONE_REF {
                        break ;
                    }
                    cur = parent;
                },
            }
            steps = steps - 1;
        }
        self.active_chain_head_idx = tip;
        proof {
            lemma_promoted_retains(before.blocks, before.blocks, tip, MAX_BLOCKS as nat);
            tree::retaining_keeps_blocks_unique(before.blocks, self@.blocks);
            assert(self@ =~= before.activated(tip));
        }
    }

    /// The lowest configuration block of the candidate that ends in `tip`, or
    /// `NONE_REF`, and whether `probe` lies on the candidate.
    pub fn scan_candidate_chain_config(&self, tip: u32, probe: u32) -> (scan: (u32, bool))
        requires
            self.inv(),
        ensures
            scan == self@.scanned(tip, probe),
    {
        let mut first: u32 = NONE_REF;
        let mut seen: bool = false;
        let mut cur: u32 = tip;
        let mut steps: usize = MAX_BLOCKS;
        while steps > 0
            invariant
                self.inv(),
                steps <= MAX_BLOCKS,
                self@.scanned(tip, probe) == config_scan(
                    self@.blocks,
                    cur,
                    probe,
                    steps as nat,
                    first,
                    seen,
                ),
            decreases steps,
        {
            match self.blocks.get(cur) {
                None => {
                    return (first, seen);
                },
                Some(entry) => {
                    seen = seen || cur == probe;
                    if entry.payload_type() == PAYLOAD_TYPE_CHAIN_CONFIG {
                        first = cur;
                    }
                    let parent: u32 = entry.parent_ref();
                    if parent == NONE_REF {
                        return (first, seen);
                    }
                    cur = parent;
                },
            }
            steps = steps - 1;
        }
        (first, seen)
    }

    /// The lowest block of the candidate that ends in `tip` that is larger than
    /// the limit the node is about to lock.
    pub fn candidate_block_exceeding_size_limit(&self, tip: u32) -> (offender: Option<u32>)
        requires
            self.inv(),
        ensures
            offender == oversized(
                self@.blocks,
                tip,
                self@.declared_limit(),
                self@.blocks.len(),
                None,
            ),
    {
        let limit: u16 = self.block_size_limit();
        let mut offender: Option<u32> = None;
        let mut cur: u32 = tip;
        let mut steps: usize = MAX_BLOCKS;
        while steps > 0
            invariant
                self.inv(),
                steps <= MAX_BLOCKS,
                limit == self@.declared_limit(),
                oversized(self@.blocks, tip, limit, self@.blocks.len(), None) == oversized(
                    self@.blocks,
                    cur,
                    limit,
                    steps as nat,
                    offender,
                ),
            decreases steps,
        {
            match self.blocks.get(cur) {
                None => {
                    return None;
                },
                Some(entry) => {
                    if entry.len() > limit {
                        offender = Some(cur);
                    }
                    let parent: u32 = entry.parent_ref();
                    if parent == NONE_REF {
                        return offender;
                    }
                    cur = parent;
                },
            }
            steps = steps - 1;
        }
        offender
    }

    /// Deletes every block off the active chain that is larger than the limit
    /// that may be enforced.
    pub fn reevaluate_retained_blocks_against_lock(&mut self)
        requires
            old(self).inv(),
        ensures
            final(self).inv(),
            final(self)@ == old(self)@.oversized_deleted(
                old(self)@.enforceable_limit(),
                0,
                old(self)@.blocks.len() as int,
            ),
    {
        let limit: u16 = self.enforceable_block_size_limit();
        let ghost before = self@;
        let mut i: usize = 0;
        while i < MAX_BLOCKS
            invariant
                self.inv(),
                i <= MAX_BLOCKS,
                before.oversized_deleted(limit, 0, MAX_BLOCKS as int) == self@.oversized_deleted(
                    limit,
                    i as int,
                    MAX_BLOCKS as int,
                ),
            decreases MAX_BLOCKS - i,
        {
            let idx: u32 = i as u32;
            let condemned: bool = match self.blocks.get(idx) {
                Some(entry) => !entry.is_on_active_chain() && entry.len() > limit,
                None => false,
            };
            if condemned {
                let _ = self.delete_subtree_with_followup(idx);
            }
            i = i + 1;
        }
    }

    /// Whether the block read back as `block` carries what the node is about to
    /// lock, so that it may be written to the control plane.
    pub fn commits_what_is_held(&self, block: &Option<ChainBlock>) -> (same: bool)
        ensures
            same == self@.commits(*block),
    {
        match block {
            None => false,
            Some(block) => match (block.chain_config(), self.chain_config.tentative_content()) {
                (Some(envelope), Some(held)) => bytes_eq(envelope.content.as_slice(), held),
                _ => false,
            },
        }
    }

    /// Locks the tentative configuration, once the block that carries it, read
    /// back as `block`, was `written` to the control plane.
    pub fn commit_durable_chain_config(&mut self, block: &Option<ChainBlock>, written: bool) -> (
        committed: bool)
        requires
            old(self).inv(),
        ensures
            final(self).inv(),
            committed == (old(self)@.commits(*block) && written),
            final(self)@ == if committed {
                old(self)@.committed()
            } else {
                old(self)@
            },
    {
        if !self.commits_what_is_held(block) || !written {
            return false;
        }
        let _ = self.chain_config.promote_durable();
        self.tentative_config_block_idx = NONE_REF;
        true
    }

    /// How the content of a configuration block, as read back, compares with the
    /// locked configuration.
    pub fn chain_config_block_content_verdict(&self, content: &Option<Vec<u8>>) -> (verdict:
        ConfigPreload)
        ensures
            verdict == lock_verdict(self@.config.durable(), content_view(*content)),
    {
        match self.chain_config.durable_content() {
            None => ConfigPreload::Unreadable,
            Some(locked) => match content {
                None => ConfigPreload::Unreadable,
                Some(read) => if bytes_eq(read.as_slice(), locked) {
                    ConfigPreload::Matches
                } else {
                    ConfigPreload::Differs
                },
            },
        }
    }

    /// Whether the content of a configuration block, as read back, is the locked
    /// one. Nothing that could not be read is.
    pub fn chain_config_block_matches_lock(&self, content: &Option<Vec<u8>>) -> (matching: bool)
        ensures
            matching == (self@.config.durable() is Some && content_view(*content)
                == self@.config.durable()),
    {
        self.chain_config_block_content_verdict(content) == ConfigPreload::Matches
    }

    /// Deletes every configuration block off the active chain whose content, as
    /// read back slot by slot, differs from the locked configuration.
    pub fn delete_mismatching_chain_config_blocks(&mut self, contents: &Vec<Option<Vec<u8>>>)
        requires
            old(self).inv(),
            contents@.len() == MAX_BLOCKS,
        ensures
            final(self).inv(),
            final(self)@ == old(self)@.mismatches_deleted(
                content_views(contents@),
                0,
                old(self)@.blocks.len() as int,
            ),
    {
        let ghost before = self@;
        let ghost views = content_views(contents@);
        let mut i: usize = 0;
        while i < MAX_BLOCKS
            invariant
                self.inv(),
                i <= MAX_BLOCKS,
                contents@.len() == MAX_BLOCKS,
                views == content_views(contents@),
                before.mismatches_deleted(views, 0, MAX_BLOCKS as int)
                    == self@.mismatches_deleted(views, i as int, MAX_BLOCKS as int),
            decreases MAX_BLOCKS - i,
        {
            let idx: u32 = i as u32;
            let verdict = self.chain_config_block_content_verdict(&contents[i]);
            let condemned: bool = match self.blocks.get(idx) {
                Some(entry) => entry.payload_type() == PAYLOAD_TYPE_CHAIN_CONFIG
                    && !entry.is_on_active_chain() && verdict == ConfigPreload::Differs,
                None => false,
            };
            if condemned {
                let _ = self.delete_subtree_with_followup(idx);
            }
            i = i + 1;
        }
    }

    /// Holds the configuration of the candidate's lowest configuration block,
    /// read back as `block`, in place of the tentative one. A refusal changes
    /// nothing.
    pub fn adopt_candidate_chain_config(
        &mut self,
        tip: u32,
        first: u32,
        block: &Option<ChainBlock>,
    ) -> (adopted: bool)
        requires
            old(self).inv(),
            first != NONE_REF ==> tree::present(old(self)@.blocks, first),
        ensures
            final(self).inv(),
            adopted == old(self)@.adopts(*block),
            final(self)@ == if adopted {
                old(self)@.adopted(tip, first, block->0)
            } else {
                old(self)@
            },
    {
        let ghost before = self@;
        let carried: &ChainBlock = match block {
            Some(carried) => carried,
            None => {
                return false;
            },
        };
        if tier1_chain_config_block(carried).is_err() {
            return false;
        }
        let envelope = match carried.chain_config() {
            Some(envelope) => envelope,
            None => {
                return false;
            },
        };
        let accepted: Option<ConfigParameters> = envelope.accepted;
        let ghost config = self.chain_config@;
        if self.chain_config.load_tentative(envelope.content.as_slice(), accepted).is_err() {
            assert(self@ =~= before);
            return false;
        }
        self.vote_reset_pending = true;
        let previous: u32 = self.tentative_config_block_idx;
        self.tentative_config_block_idx = first;
        if previous != NONE_REF && previous != first {
            let (_, on_candidate) = self.scan_candidate_chain_config(tip, previous);
            if !on_candidate {
                let _ = self.delete_subtree_with_followup(previous);
            }
        }
        assert(self@ =~= before.adopted(tip, first, *carried));
        true
    }
}

// -- What a deletion leaves --------------------------------------------------

pub(crate) proof fn lemma_subtree_members(s: Seq<BlockEntry>, target: u32, end: nat)
    requires
        end <= s.len() <= NONE_REF,
    ensures
        forall|idx: u32| #[trigger]
            tree::subtree_slots(s, target, end).contains(idx) <==> idx < end && tree::descends(
                s,
                idx,
                target,
                s.len(),
            ),
    decreases end,
{
    if end > 0 {
        let below = tree::subtree_slots(s, target, (end - 1) as nat);
        let all = tree::subtree_slots(s, target, end);
        lemma_subtree_members(s, target, (end - 1) as nat);
        assert forall|idx: u32| #[trigger] all.contains(idx) <==> idx < end && tree::descends(
            s,
            idx,
            target,
            s.len(),
        ) by {
            if all.contains(idx) {
                let k = choose|k: int| 0 <= k < all.len() && all[k] == idx;
                if k < below.len() {
                    assert(below[k] == idx);
                    assert(below.contains(idx));
                }
            }
            if idx < end && tree::descends(s, idx, target, s.len()) {
                if idx < end - 1 {
                    assert(below.contains(idx));
                    let k = choose|k: int| 0 <= k < below.len() && below[k] == idx;
                    assert(all[k] == idx);
                } else {
                    assert(all[all.len() - 1] == idx);
                }
            }
        }
    }
}

/// What is left of the tree holds exactly the blocks that are not in the subtree
/// of `target`, and the parent of a block that is left is left too.
pub open spec fn exactly_without(
    before: Seq<BlockEntry>,
    after: Seq<BlockEntry>,
    target: u32,
) -> bool {
    &&& after.len() == before.len()
    &&& forall|idx: u32| #[trigger]
        tree::present(after, idx) <==> tree::present(before, idx) && !tree::descends(
            before,
            idx,
            target,
            before.len(),
        )
    &&& forall|idx: u32| #[trigger]
        tree::present(after, idx) ==> {
            &&& tree::same_block(before[idx as int], after[idx as int])
            &&& after[idx as int].parent_ref == before[idx as int].parent_ref
            &&& tree::present(before, before[idx as int].parent_ref) ==> tree::present(
                after,
                before[idx as int].parent_ref,
            )
        }
}

proof fn lemma_exactly_without(
    before: Seq<BlockEntry>,
    middle: Seq<BlockEntry>,
    after: Seq<BlockEntry>,
    target: u32,
)
    requires
        before.len() <= NONE_REF,
        tree::retains(tree::without_subtree(before, target), middle),
        forall|idx: u32| #[trigger] tree::present(middle, idx) == tree::present(
            tree::without_subtree(before, target),
            idx,
        ),
        forall|i: int| 0 <= i < before.len() ==> (#[trigger] middle[i]).parent_ref
            == tree::without_subtree(before, target)[i].parent_ref,
        tips::counts_only(middle, after),
    ensures
        exactly_without(before, after, target),
{
    let rest = tree::without_subtree(before, target);
    assert forall|idx: u32| #[trigger]
        tree::present(after, idx) <==> tree::present(before, idx) && !tree::descends(
            before,
            idx,
            target,
            before.len(),
        ) by {
        if idx < before.len() {
            assert(after[idx as int].with_count(0) == middle[idx as int].with_count(0));
            assert(tree::present(middle, idx) == tree::present(rest, idx));
        }
    }
    assert forall|idx: u32| #[trigger] tree::present(after, idx) implies {
        &&& tree::same_block(before[idx as int], after[idx as int])
        &&& after[idx as int].parent_ref == before[idx as int].parent_ref
        &&& tree::present(before, before[idx as int].parent_ref) ==> tree::present(
            after,
            before[idx as int].parent_ref,
        )
    } by {
        assert(after[idx as int].with_count(0) == middle[idx as int].with_count(0));
        assert(middle[idx as int].occupied());
        assert(rest[idx as int] == before[idx as int]);
        let parent = before[idx as int].parent_ref;
        if tree::present(before, parent) && parent != NONE_REF {
            if tree::descends(before, parent, target, before.len()) {
                ancestry::subtree_is_closed(before, idx, target);
            }
            assert(tree::present(after, parent));
        }
    }
}

/// Deleting a block deletes exactly it and its descendants: every other block
/// stays what it was, and keeps its parent.
pub proof fn deletion_is_exact(node: NodeView, target: u32)
    requires
        node.blocks.len() <= NONE_REF,
    ensures
        exactly_without(node.blocks, node.subtree_deleted(target).blocks, target),
{
    let gone = tree::subtree(node.blocks, target);
    let rest = tree::without_subtree(node.blocks, target);
    lemma_subtree_members(node.blocks, target, node.blocks.len());
    if gone.len() == 0 {
        assert forall|idx: u32| !tree::descends(
            node.blocks,
            idx,
            target,
            node.blocks.len(),
        ) by {
            assert(!gone.contains(idx));
            if idx >= node.blocks.len() {
                assert(!tree::present(node.blocks, idx));
            }
        }
        assert(rest =~= node.blocks);
        lemma_exactly_without(node.blocks, rest, node.blocks, target);
    } else {
        let t = Tips { heads: node.heads, blocks: rest };
        tips::deletion_follow_up_only_counts(t, gone, node.parent_of(target));
        lemma_exactly_without(
            node.blocks,
            rest,
            tips::subtree_dropped(t, gone, node.parent_of(target)).blocks,
            target,
        );
    }
}

/// A recovery deletes exactly the block that the failure speaks against, with
/// its descendants; it leaves nothing of what was derived, a node that collects,
/// every block stored, none of them on the active chain but the first, and a
/// locked configuration as it was.
pub proof fn recovery_is_exact(node: NodeView, error: ProcessingError, tip: u32)
    requires
        node.blocks.len() <= NONE_REF,
    ensures
        ({
            let after = node.recovered(error, tip);
            &&& exactly_without(node.blocks, after.blocks, deletion_target(error, tip))
            &&& after.info == InfoView::blank(node.info.seeds.len())
            &&& after.vote_reset
            &&& after.phase == LifecyclePhase::Collecting
            &&& node.config.durable() is Some ==> after.config == node.config
            &&& forall|idx: u32| #[trigger]
                tree::present(after.blocks, idx) ==> {
                    &&& after.blocks[idx as int].stage() == BlockStatus::Stored
                    &&& after.blocks[idx as int].active() == (idx == after.active_head)
                }
            &&& after.active_head != NONE_REF ==> tree::present(after.blocks, after.active_head)
                && after.blocks[after.active_head as int].sequence == 0
            &&& after.active_head == NONE_REF ==> forall|idx: u32| #[trigger]
                tree::present(after.blocks, idx) ==> after.blocks[idx as int].sequence != 0
        }),
{
    let target = deletion_target(error, tip);
    let gone = tree::subtree(node.blocks, target);
    let rest = tree::without_subtree(node.blocks, target);
    let marked = marking_restored(rest);
    let after = node.recovered(error, tip);
    lemma_unmarked_retains(rest);
    genesis_slot_is_first(unmarked(rest), 0);
    assert forall|i: int| 0 <= i < rest.len() implies (#[trigger] marked[i]).parent_ref
        == rest[i].parent_ref by {}
    let t = Tips { heads: node.heads, blocks: marked };
    if gone.len() > 0 {
        tips::deletion_follow_up_only_counts(t, gone, node.parent_of(target));
    }
    assert(tips::counts_only(marked, after.blocks));
    lemma_exactly_without(node.blocks, marked, after.blocks, target);
    assert forall|idx: u32| #[trigger] tree::present(after.blocks, idx) implies {
        &&& after.blocks[idx as int].stage() == BlockStatus::Stored
        &&& after.blocks[idx as int].active() == (idx == after.active_head)
        &&& after.blocks[idx as int].sequence == unmarked(rest)[idx as int].sequence
        &&& unmarked(rest)[idx as int].occupied()
    } by {
        let i = idx as int;
        assert(after.blocks[i].with_count(0) == marked[i].with_count(0));
        let off = rest[i].with_active(false);
        tree::lemma_active_bit(rest[i].flags);
        tree::lemma_status_bits(off.flags, BlockStatus::Stored);
        tree::lemma_active_bit(off.with_stage(BlockStatus::Stored).flags);
    }
    if after.active_head != NONE_REF {
        assert(tree::present(unmarked(rest), after.active_head));
        assert(tree::present(marked, after.active_head));
        assert(after.blocks[after.active_head as int].with_count(0)
            == marked[after.active_head as int].with_count(0));
    }
}

proof fn lemma_promoted(
    first: Seq<BlockEntry>,
    s: Seq<BlockEntry>,
    cur: u32,
    steps: nat,
    above: Seq<u32>,
)
    requires
        s.len() == first.len(),
        forall|i: int| 0 <= i < s.len() ==> (#[trigger] s[i]).parent_ref == first[i].parent_ref
            && s[i].sequence == first[i].sequence,
        forall|k: int|
            0 <= k < above.len() ==> s[#[trigger] above[k] as int].active()
                && s[above[k] as int].stage() == BlockStatus::Active,
        forall|k: int| 0 <= k < above.len() ==> #[trigger] above[k] < s.len(),
        forall|i: int|
            0 <= i < s.len() && !above.contains(i as u32) ==> #[trigger] s[i] == first[i],
        s.len() <= NONE_REF,
    ensures
        processing::segment_below(first, cur, steps, above) matches Ok(segment) ==> {
            let after = promoted(s, cur, steps);
            &&& after.len() == first.len()
            &&& forall|k: int|
                0 <= k < segment.len() ==> after[#[trigger] segment[k] as int].active()
                    && after[segment[k] as int].stage() == BlockStatus::Active
            &&& forall|i: int|
                0 <= i < first.len() && !segment.contains(i as u32) ==> #[trigger] after[i]
                    == first[i]
        },
    decreases steps,
{
    if steps > 0 && tree::present(first, cur) {
        let entry = s[cur as int];
        let staged = entry.with_stage(BlockStatus::Active);
        let next = s.update(cur as int, staged.with_active(true));
        let more = above.push(cur);
        tree::lemma_status_bits(entry.flags, BlockStatus::Active);
        tree::lemma_active_bit(staged.flags);
        assert forall|k: int| 0 <= k < more.len() implies next[#[trigger] more[k] as int].active()
            && next[more[k] as int].stage() == BlockStatus::Active && more[k] < s.len() by {
            if k < above.len() {
                assert(more[k] == above[k]);
            }
        }
        assert forall|i: int| 0 <= i < s.len() && !more.contains(i as u32) implies #[trigger] next[i]
            == first[i] by {
            assert(more[above.len() as int] == cur);
            if above.contains(i as u32) {
                let k = choose|k: int| 0 <= k < above.len() && above[k] == i as u32;
                assert(more[k] == i as u32);
            }
        }
        if first[cur as int].parent_ref != NONE_REF {
            lemma_promoted(first, next, first[cur as int].parent_ref, (steps - 1) as nat, more);
        }
    }
}

/// Promoting a candidate puts each of its blocks on the active chain, and
/// changes no other block.
pub proof fn promotion_marks_the_candidate(node: NodeView, tip: u32)
    requires
        node.blocks.len() <= NONE_REF,
    ensures
        processing::candidate(node.blocks, tip) matches Ok(segment) ==> {
            let after = node.activated(tip);
            &&& after.active_head == tip
            &&& forall|k: int|
                0 <= k < segment.len() ==> after.blocks[#[trigger] segment[k] as int].active()
                    && after.blocks[segment[k] as int].stage() == BlockStatus::Active
            &&& forall|i: int|
                0 <= i < node.blocks.len() && !segment.contains(i as u32)
                    ==> #[trigger] after.blocks[i] == node.blocks[i]
        },
{
    lemma_promoted(node.blocks, node.blocks, tip, node.blocks.len(), Seq::empty());
}

} // verus!
