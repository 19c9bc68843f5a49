//! Starting from durable storage.
//!
//! Nothing of a node but its retained blocks and its locked configuration is
//! durable. A start reads both, restores the lock, rebuilds the block-tree and
//! its tips, and then acquires the dominant chain as a running node would. The
//! caller reads storage and hands over what it read.

use vstd::prelude::*;

use crate::admission;
use crate::api::{Blockchain, CallResult, InitOutcome, NextCall, NodeView, RestartRejectReason};
use crate::block_data::{ChainBlock, ConfigEnvelope, PAYLOAD_TYPE_CHAIN_CONFIG};
use crate::blocks as tree;
use crate::blocks::{BlockEntry, NONE_REF};
use crate::chain_heads as tips;
use crate::chain_heads::ChainHeadEntry;
use crate::derivation;
use crate::hash;
use crate::hash::{no_hash, BlockHash};
use crate::recovery;
use crate::staged_validation;
use crate::staged_validation::{tier1_chain_config_block, BlockStatus};

verus! {

/// The chain configuration in the control plane.
pub enum StoredConfiguration {
    /// None was ever locked.
    Absent,
    /// What is there does not frame a chain configuration.
    Unusable,
    Framed(ConfigEnvelope),
}

/// What the control plane read back as.
pub enum ControlPlane {
    /// It cannot be read; this many blocks can.
    Unreadable { durable_blocks: usize },
    Readable { chain_configuration: StoredConfiguration },
}

/// What a start has to do next.
#[derive(Debug, Clone, Copy, PartialEq, Eq, Structural)]
pub enum InitStep {
    /// Nothing: the start is over.
    Finished { outcome: InitOutcome, next: NextCall },
    /// Acquire the dominant chain; [`Blockchain::conclude_initialization`] then
    /// gives the outcome.
    Acquire,
}

/// The metadata of a block that was read back, before its parent is known.
pub open spec fn stored_entry(block: ChainBlock) -> BlockEntry {
    BlockEntry::fresh(block.hash, NONE_REF, block.sequence).with_stage(
        BlockStatus::Stored,
    ).with_len(block.bytes@.len() as u16).with_kind(block.payload_type)
}

/// The tree with the blocks of the slots from `from` on, each in its own slot. A
/// block that is in the tree already is not entered twice.
pub open spec fn materialized(
    s: Seq<BlockEntry>,
    slots: Seq<Option<ChainBlock>>,
    from: int,
) -> Seq<BlockEntry>
    decreases slots.len() - from,
{
    if from < 0 || from >= slots.len() {
        s
    } else {
        match slots[from] {
            Some(block) => if block.sequence == NONE_REF || tree::slot_of(
                s,
                block.sequence,
                block.hash,
                0,
            ) is Some {
                materialized(s, slots, from + 1)
            } else {
                materialized(s.update(from, stored_entry(block)), slots, from + 1)
            },
            None => materialized(s, slots, from + 1),
        }
    }
}

/// The tree with the blocks from `from` on linked to their parents.
pub open spec fn linked(
    s: Seq<BlockEntry>,
    slots: Seq<Option<ChainBlock>>,
    from: int,
) -> Seq<BlockEntry>
    decreases slots.len() - from,
{
    if from < 0 || from >= slots.len() {
        s
    } else if s[from].occupied() && slots[from] is Some {
        let block = slots[from]->0;
        match tree::parent_slot(s, block.previous_hash, block.sequence) {
            Some(parent) => linked(s.update(from, s[from].with_parent(parent)), slots, from + 1),
            None => linked(s, slots, from + 1),
        }
    } else {
        linked(s, slots, from + 1)
    }
}

/// The previous hash of the block in each slot.
pub open spec fn previous_hashes(slots: Seq<Option<ChainBlock>>, len: nat) -> Seq<BlockHash> {
    Seq::new(
        len,
        |i: int|
            if i < slots.len() && slots[i] is Some {
                (slots[i]->0).previous_hash
            } else {
                hash::zero_hash()
            },
    )
}

/// The lowest slot from `from` on whose block carries a configuration that node
/// #0 signed and that the node can hold.
pub open spec fn tentative_source(
    node: NodeView,
    slots: Seq<Option<ChainBlock>>,
    from: int,
) -> Option<int>
    decreases slots.len() - from,
{
    if from < 0 || from >= slots.len() {
        None
    } else if node.blocks[from].occupied() && node.blocks[from].kind() == PAYLOAD_TYPE_CHAIN_CONFIG
        && slots[from] is Some && staged_validation::chain_config_failure(slots[from]->0) is None
        && node.config.load_error(admission::accepted_parameters(slots[from]->0)) is None {
        Some(from)
    } else {
        tentative_source(node, slots, from + 1)
    }
}

impl NodeView {
    /// The tree holds no block.
    pub open spec fn treeless(self) -> bool {
        forall|i: int| 0 <= i < self.blocks.len() ==> !(#[trigger] self.blocks[i]).occupied()
    }

    /// The tree that the slots give, with its first block on the active chain.
    pub open spec fn retained_tree(self, slots: Seq<Option<ChainBlock>>) -> Seq<BlockEntry> {
        let s = linked(materialized(self.blocks, slots, 0), slots, 0);
        match recovery::genesis_slot(s, 0) {
            Some(idx) => s.update(idx as int, s[idx as int].with_active(true)),
            None => s,
        }
    }

    /// The node with its tree and its tips rebuilt.
    pub open spec fn rebuilt(self, slots: Seq<Option<ChainBlock>>, now: u64) -> NodeView {
        let active_head = match recovery::genesis_slot(
            linked(materialized(self.blocks, slots, 0), slots, 0),
            0,
        ) {
            Some(idx) => idx,
            None => NONE_REF,
        };
        let t = tips::rebuilt(
            Seq::new(self.heads.len(), |i: int| ChainHeadEntry::vacant()),
            self.retained_tree(slots),
            previous_hashes(slots, self.blocks.len()),
            now,
            active_head,
        );
        NodeView { heads: t.heads, blocks: t.blocks, active_head, ..self }
    }

    /// The node with a configuration of its tree held tentatively.
    pub open spec fn reestablished(self, slots: Seq<Option<ChainBlock>>) -> NodeView {
        match tentative_source(self, slots, 0) {
            Some(idx) => NodeView {
                config: self.config.loaded(
                    (slots[idx]->0).config_content()->0,
                    admission::accepted_parameters(slots[idx]->0),
                ),
                config_source: idx as u32,
                vote_reset: true,
                ..self
            },
            None => self,
        }
    }

    /// Why the control plane cannot be used.
    pub open spec fn control_failure(self, control: ControlPlane) -> Option<InitOutcome> {
        match control {
            ControlPlane::Unreadable { durable_blocks } => if durable_blocks == 0 {
                Some(InitOutcome::StartedCollecting)
            } else {
                Some(InitOutcome::Rejected(RestartRejectReason::ControlPlaneUnreadable))
            },
            ControlPlane::Readable { chain_configuration } => match chain_configuration {
                StoredConfiguration::Absent => None,
                StoredConfiguration::Unusable => Some(
                    InitOutcome::Rejected(RestartRejectReason::ChainConfigUnusable),
                ),
                StoredConfiguration::Framed(envelope) => if self.config.load_error(
                    envelope.accepted,
                ) is Some {
                    Some(InitOutcome::Rejected(RestartRejectReason::ChainConfigUnusable))
                } else {
                    None
                },
            },
        }
    }

    /// The node with the lock that the control plane gives.
    pub open spec fn relocked(self, control: ControlPlane) -> NodeView {
        match control {
            ControlPlane::Readable {
                chain_configuration: StoredConfiguration::Framed(envelope),
            } => NodeView {
                config: self.config.loaded_durable(envelope.content@, envelope.accepted),
                vote_reset: true,
                ..self
            },
            _ => self,
        }
    }

    /// A start from what was read: the node, and what is to be done next.
    pub open spec fn started(
        self,
        control: ControlPlane,
        slots: Seq<Option<ChainBlock>>,
        now: u64,
    ) -> (NodeView, InitStep) {
        if self.control_failure(control) is Some {
            (
                self,
                InitStep::Finished {
                    outcome: self.control_failure(control)->0,
                    next: NextCall::Idle,
                },
            )
        } else {
            let rebuilt = self.relocked(control).rebuilt(slots, now);
            let node = if rebuilt.config.active() is None {
                rebuilt.reestablished(slots)
            } else {
                rebuilt
            };
            if tree::occupied_count(materialized(self.blocks, slots, 0)) == 0 {
                (
                    rebuilt,
                    InitStep::Finished {
                        outcome: InitOutcome::StartedCollecting,
                        next: NextCall::Idle,
                    },
                )
            } else if node.config.active() is Some {
                (node, InitStep::Acquire)
            } else {
                (
                    node,
                    InitStep::Finished {
                        outcome: InitOutcome::ResumedCollecting,
                        next: node.next_call(),
                    },
                )
            }
        }
    }
}

/// Whether some slot holds the block.
pub open spec fn holds_block(s: Seq<BlockEntry>, sequence: u32, block_hash: BlockHash) -> bool {
    exists|i: int| 0 <= i < s.len() && (#[trigger] s[i]).is_block(sequence, block_hash)
}

/// Entering blocks keeps them distinct, fills no slot of another block, and
/// leaves out none that can stand in the tree.
pub(crate) proof fn lemma_materialized(s: Seq<BlockEntry>, slots: Seq<Option<ChainBlock>>, from: int)
    requires
        tree::unique_blocks(s),
        s.len() <= NONE_REF,
        slots.len() <= s.len(),
        0 <= from <= slots.len(),
        forall|i: int| from <= i < s.len() ==> !(#[trigger] s[i]).occupied(),
        forall|i: int|
            0 <= i < from && (#[trigger] s[i]).occupied() ==> slots[i] is Some && s[i]
                == stored_entry(slots[i]->0),
    ensures
        ({
            let after = materialized(s, slots, from);
            &&& after.len() == s.len()
            &&& tree::unique_blocks(after)
            &&& forall|i: int|
                0 <= i < after.len() && (#[trigger] after[i]).occupied() ==> i < slots.len()
                    && slots[i] is Some && after[i] == stored_entry(slots[i]->0)
            &&& forall|i: int|
                0 <= i < s.len() && (#[trigger] s[i]).occupied() ==> after[i] == s[i]
            &&& forall|i: int|
                from <= i < slots.len() && #[trigger] slots[i] is Some && (slots[i]->0).sequence
                    != NONE_REF ==> holds_block(
                    after,
                    (slots[i]->0).sequence,
                    (slots[i]->0).hash,
                )
        }),
    decreases slots.len() - from,
{
    if from < slots.len() {
        let after = materialized(s, slots, from);
        if let Some(block) = slots[from] {
            if block.sequence != NONE_REF {
                tree::slot_of_is_first(s, block.sequence, block.hash, 0);
            }
        }
        match slots[from] {
            Some(block) => {
                if block.sequence == NONE_REF || tree::slot_of(s, block.sequence, block.hash, 0)
                    is Some {
                    lemma_materialized(s, slots, from + 1);
                    if block.sequence != NONE_REF {
                        let held = tree::slot_of(s, block.sequence, block.hash, 0)->0;
                        assert(after[held as int] == s[held as int]);
                    }
                } else {
                    let next = s.update(from, stored_entry(block));
                    tree::inserted_block_is_found(s, from as u32, stored_entry(block));
                    lemma_materialized(next, slots, from + 1);
                    assert(next[from].occupied());
                    assert(after[from].is_block(block.sequence, block.hash));
                    assert forall|i: int| 0 <= i < s.len() && (
                    #[trigger] s[i]).occupied() implies after[i] == s[i] by {
                        assert(next[i] == s[i]);
                    }
                }
            },
            None => {
                lemma_materialized(s, slots, from + 1);
            },
        }
    }
}

impl<
    const MAX_NODES: usize,
    const SNAKE_CHAIN_LENGTH: u32,
    const VERIFICATION_HORIZON: usize,
    const MAX_BLOCKS: usize,
    const MAX_BRANCH_COUNT: usize,
    const MAX_BLOCK_UTXO_OUTPUT: usize,
> Blockchain<
    MAX_NODES,
    SNAKE_CHAIN_LENGTH,
    VERIFICATION_HORIZON,
    MAX_BLOCKS,
    MAX_BRANCH_COUNT,
    MAX_BLOCK_UTXO_OUTPUT,
> {
    /// The slots of a durable scan: as many as storage has, but no more than the
    /// tree can address.
    pub fn durable_scan_limit(capacity: u32) -> (limit: u32)
        requires
            MAX_BLOCKS <= NONE_REF,
        ensures
            limit == if capacity < MAX_BLOCKS {
                capacity as int
            } else {
                MAX_BLOCKS as int
            },
    {
        let table: u32 = MAX_BLOCKS as u32;
        if capacity < table {
            capacity
        } else {
            table
        }
    }

    /// Enters every block that was read, each in its own slot.
    fn materialize_blocks(&mut self, slots: &Vec<Option<ChainBlock>>)
        requires
            old(self).inv(),
            old(self)@.treeless(),
            slots@.len() <= MAX_BLOCKS,
            derivation::reads_wf(slots@),
        ensures
            final(self).inv(),
            final(self)@ == (NodeView {
                blocks: materialized(old(self)@.blocks, slots@, 0),
                ..old(self)@
            }),
    {
        let ghost before = self@;
        let mut i: usize = 0;
        while i < slots.len()
            invariant
                self.inv(),
                before.config_source == NONE_REF,
                self@ == (NodeView { blocks: self@.blocks, ..before }),
                i <= slots@.len() <= MAX_BLOCKS,
                derivation::reads_wf(slots@),
                forall|j: int| i <= j < MAX_BLOCKS ==> !(#[trigger] self@.blocks[j]).occupied(),
                materialized(before.blocks, slots@, 0) == materialized(
                    self@.blocks,
                    slots@,
                    i as int,
                ),
            decreases slots@.len() - i,
        {
            let ghost current = self@;
            if let Some(block) = &slots[i] {
                assert(slots@[i as int] is Some);
                if block.sequence != NONE_REF && self.blocks.find(
                    block.sequence,
                    &block.hash,
                ).is_none() {
                    let mut entry: BlockEntry = BlockEntry::new(
                        block.hash,
                        NONE_REF,
                        block.sequence,
                    );
                    entry.set_status(BlockStatus::Stored);
                    entry.set_len(block.bytes.len() as u16);
                    entry.set_payload_type(block.payload_type);
                    assert(entry == stored_entry(*block));
                    proof {
                        tree::inserted_block_is_found(self.blocks.blocks@, i as u32, entry);
                    }
                    self.blocks.insert_at(i as u32, entry);
                }
            }
            assert(self@ =~= (NodeView { blocks: self@.blocks, ..current }));
            i = i + 1;
        }
    }

    /// Links every block to its parent, where that is in the tree. Slots are in
    /// no particular order, so this waits until every block is entered.
    fn link_blocks(&mut self, slots: &Vec<Option<ChainBlock>>)
        requires
            old(self).inv(),
            slots@.len() <= MAX_BLOCKS,
            forall|i: int|
                0 <= i < MAX_BLOCKS && (#[trigger] old(self)@.blocks[i]).occupied() ==> old(
                    self,
                )@.blocks[i].parent_ref == NONE_REF,
        ensures
            final(self).inv(),
            final(self)@ == (NodeView {
                blocks: linked(old(self)@.blocks, slots@, 0),
                ..old(self)@
            }),
    {
        let ghost before = self@;
        let mut i: usize = 0;
        while i < slots.len()
            invariant
                self.inv(),
                self@ == (NodeView { blocks: self@.blocks, ..before }),
                i <= slots@.len() <= MAX_BLOCKS,
                forall|j: int|
                    i <= j < MAX_BLOCKS && (#[trigger] self@.blocks[j]).occupied()
                        ==> self@.blocks[j].parent_ref == NONE_REF,
                linked(before.blocks, slots@, 0) == linked(self@.blocks, slots@, i as int),
            decreases slots@.len() - i,
        {
            let ghost current = self@;
            if self.blocks.get(i as u32).is_some() {
                if let Some(block) = &slots[i] {
                    if let Some(parent) = self.blocks.find_parent(
                        &block.previous_hash,
                        block.sequence,
                    ) {
                        self.blocks.resolve_parent_ref(i as u32, parent);
                        assert(tree::retains(current.blocks, self@.blocks));
                        proof {
                            tree::retaining_keeps_blocks_unique(current.blocks, self@.blocks);
                        }
                    }
                }
            }
            assert(self@ =~= (NodeView { blocks: self@.blocks, ..current }));
            i = i + 1;
        }
    }

    /// Rebuilds the tree and its tips from the blocks that were read, slot by
    /// slot; returns how many blocks were entered.
    pub fn rebuild_block_tree_from_storage(
        &mut self,
        slots: &Vec<Option<ChainBlock>>,
        now: u64,
    ) -> (entered: usize)
        requires
            old(self).inv(),
            old(self)@.treeless(),
            slots@.len() <= MAX_BLOCKS,
            derivation::reads_wf(slots@),
        ensures
            final(self).inv(),
            final(self)@ == old(self)@.rebuilt(slots@, now),
            entered == tree::occupied_count(materialized(old(self)@.blocks, slots@, 0)),
    {
        let ghost before = self@;
        assert(before.config_source == NONE_REF);
        self.materialize_blocks(slots);
        proof {
            lemma_materialized(before.blocks, slots@, 0);
        }
        let entered: usize = self.blocks.len();
        self.link_blocks(slots);
        let ghost joined = self@.blocks;
        self.active_chain_head_idx = NONE_REF;
        proof {
            recovery::genesis_slot_is_first(joined, 0);
        }
        if let Some(idx) = self.find_genesis() {
            let _ = self.blocks.set_on_active_chain(idx, true);
            self.active_chain_head_idx = idx;
            proof {
                tree::lemma_active_bit(joined[idx as int].flags);
                assert(tree::retains(joined, self@.blocks));
                tree::retaining_keeps_blocks_unique(joined, self@.blocks);
            }
        }
        let ghost retained = self@.blocks;
        assert(retained =~= before.retained_tree(slots@));
        let mut hashes: Vec<BlockHash> = Vec::new();
        let mut i: usize = 0;
        while i < MAX_BLOCKS
            invariant
                i <= MAX_BLOCKS,
                hashes@ =~= previous_hashes(slots@, MAX_BLOCKS as nat).subrange(0, i as int),
            decreases MAX_BLOCKS - i,
        {
            let previous: BlockHash = if i < slots.len() {
                match &slots[i] {
                    Some(block) => block.previous_hash,
                    None => no_hash(),
                }
            } else {
                no_hash()
            };
            hashes.push(previous);
            i = i + 1;
        }
        assert(hashes@ =~= previous_hashes(slots@, MAX_BLOCKS as nat));
        let active_head: u32 = self.active_chain_head_idx;
        let ghost vacant = Seq::new(MAX_BRANCH_COUNT as nat, |i: int| ChainHeadEntry::vacant());
        assert(vacant =~= Seq::new(before.heads.len(), |i: int| ChainHeadEntry::vacant()));
        self.chain_heads.rebuild_from_blocks(&mut self.blocks, &hashes, now, active_head);
        proof {
            tips::rebuild_spares_the_active_chain(vacant, retained, hashes@, now, active_head);
            tree::retaining_keeps_blocks_unique(retained, self@.blocks);
            assert(self@ =~= before.rebuilt(slots@, now));
        }
        entered
    }

    /// Holds the first configuration of the tree that the node can hold, by
    /// slot; nothing when there is none.
    pub fn reestablish_tentative_chain_config(&mut self, slots: &Vec<Option<ChainBlock>>)
        requires
            old(self).inv(),
            slots@.len() <= MAX_BLOCKS,
        ensures
            final(self).inv(),
            final(self)@ == old(self)@.reestablished(slots@),
    {
        let ghost before = self@;
        let mut i: usize = 0;
        while i < slots.len()
            invariant
                self.inv(),
                before == old(self)@,
                self@ == before,
                i <= slots@.len() <= MAX_BLOCKS,
                tentative_source(before, slots@, 0) == tentative_source(before, slots@, i as int),
            decreases slots@.len() - i,
        {
            let carries: bool = match self.blocks.get(i as u32) {
                Some(entry) => entry.payload_type() == PAYLOAD_TYPE_CHAIN_CONFIG,
                None => false,
            };
            if carries {
                if let Some(block) = &slots[i] {
                    if tier1_chain_config_block(block).is_ok() {
                        if let Some(envelope) = block.chain_config() {
                            if self.chain_config.load_tentative(
                                envelope.content.as_slice(),
                                envelope.accepted,
                            ).is_ok() {
                                self.tentative_config_block_idx = i as u32;
                                self.vote_reset_pending = true;
                                assert(self@ =~= before.reestablished(slots@));
                                return;
                            }
                            assert(self@ =~= before);
                        }
                    }
                }
            }
            i = i + 1;
        }
    }

    /// Starts from what was read of durable storage: the control plane, and the
    /// block in each slot of the scan.
    pub fn initialize_from_storage(
        &mut self,
        control: ControlPlane,
        slots: &Vec<Option<ChainBlock>>,
        now: u64,
    ) -> (step: InitStep)
        requires
            old(self).inv(),
            old(self)@.treeless(),
            slots@.len() <= MAX_BLOCKS,
            derivation::reads_wf(slots@),
        ensures
            final(self).inv(),
            (final(self)@, step) == old(self)@.started(control, slots@, now),
    {
        let ghost before = self@;
        match control {
            ControlPlane::Unreadable { durable_blocks } => {
                let outcome: InitOutcome = if durable_blocks == 0 {
                    InitOutcome::StartedCollecting
                } else {
                    InitOutcome::Rejected(RestartRejectReason::ControlPlaneUnreadable)
                };
                return InitStep::Finished { outcome, next: NextCall::Idle };
            },
            ControlPlane::Readable { chain_configuration: StoredConfiguration::Unusable } => {
                return InitStep::Finished {
                    outcome: InitOutcome::Rejected(RestartRejectReason::ChainConfigUnusable),
                    next: NextCall::Idle,
                };
            },
            ControlPlane::Readable {
                chain_configuration: StoredConfiguration::Framed(envelope),
            } => {
                if self.chain_config.load_durable(
                    envelope.content.as_slice(),
                    envelope.accepted,
                ).is_err() {
                    assert(self@ =~= before);
                    return InitStep::Finished {
                        outcome: InitOutcome::Rejected(RestartRejectReason::ChainConfigUnusable),
                        next: NextCall::Idle,
                    };
                }
                self.vote_reset_pending = true;
            },
            ControlPlane::Readable { chain_configuration: StoredConfiguration::Absent } => {},
        }
        assert(self@ =~= before.relocked(control));
        let entered: usize = self.rebuild_block_tree_from_storage(slots, now);
        if entered == 0 {
            return InitStep::Finished {
                outcome: InitOutcome::StartedCollecting,
                next: NextCall::Idle,
            };
        }
        if self.chain_config.active_configuration().is_none() {
            self.reestablish_tentative_chain_config(slots);
        }
        if self.chain_config.active_configuration().is_some() {
            return InitStep::Acquire;
        }
        InitStep::Finished {
            outcome: InitOutcome::ResumedCollecting,
            next: self.next_parent_recovery_call(),
        }
    }

    /// What a start came to, once the acquisition that it asked for is over.
    pub fn conclude_initialization(&self) -> (result: CallResult<InitOutcome>)
        requires
            self.inv(),
        ensures
            result.0 == if self@.ready() {
                InitOutcome::ResumedReady
            } else {
                InitOutcome::ResumedCollecting
            },
            result.1 == self@.next_call(),
    {
        let outcome: InitOutcome = if self.is_ready() {
            InitOutcome::ResumedReady
        } else {
            InitOutcome::ResumedCollecting
        };
        (outcome, self.next_parent_recovery_call())
    }
}

/// Into an empty tree every block that was read enters, in its own slot, unless a
/// lower slot holds the same block; nothing else does.
pub proof fn every_readable_block_returns(s: Seq<BlockEntry>, slots: Seq<Option<ChainBlock>>)
    requires
        s.len() <= NONE_REF,
        slots.len() <= s.len(),
        forall|i: int| 0 <= i < s.len() ==> !(#[trigger] s[i]).occupied(),
    ensures
        forall|i: int|
            0 <= i < slots.len() && #[trigger] slots[i] is Some && (slots[i]->0).sequence
                != NONE_REF ==> holds_block(
                materialized(s, slots, 0),
                (slots[i]->0).sequence,
                (slots[i]->0).hash,
            ),
        forall|i: int|
            0 <= i < s.len() && (#[trigger] materialized(s, slots, 0)[i]).occupied() ==> i
                < slots.len() && slots[i] is Some && materialized(s, slots, 0)[i]
                == stored_entry(slots[i]->0),
        tree::unique_blocks(materialized(s, slots, 0)),
{
    lemma_materialized(s, slots, 0);
}

/// A start restores the lock that the control plane holds, before anything else;
/// it never takes a node out of the phase it is constructed in.
pub proof fn restart_restores_the_lock(
    node: NodeView,
    control: ControlPlane,
    slots: Seq<Option<ChainBlock>>,
    now: u64,
)
    requires
        node.config is Unloaded,
    ensures
        node.started(control, slots, now).0.phase == node.phase,
        control matches ControlPlane::Readable {
            chain_configuration: StoredConfiguration::Framed(envelope),
        } ==> (envelope.accepted is Some ==> node.started(
            control,
            slots,
            now,
        ).0.config.durable() == Some(envelope.content@)),
        node.started(control, slots, now).1 == InitStep::Acquire ==> node.started(
            control,
            slots,
            now,
        ).0.config.active() is Some,
{
}

} // verus!
