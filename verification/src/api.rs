//! The node's public surface.
//!
//! [`Blockchain`] is the authoritative state of a node. State-changing calls
//! return one outcome, and where they may leave work for later also the instant
//! at which to call back. Nothing here reads a clock: `now` is the caller's.

use vstd::prelude::*;

use crate::block_data::{ChainBlock, Transaction, MAX_BLOCK_SIZE};
use crate::blocks as tree;
use crate::blocks::{BlockEntry, BlockTable, NONE_REF, SPENT_BITS_BYTES};
use crate::chain_heads as tips;
use crate::chain_heads::{ChainHeadEntry, ChainHeadsTable, Tips};
use crate::config_state::{CommittedConfig, ConfigView, VoteParameters};
use crate::hash::BlockHash;
use crate::lifecycle;
pub use crate::lifecycle::LifecyclePhase;
use crate::node_info::{InfoView, NodeInfoState, PublicKey};
use crate::prng::Prng;
use crate::staged_validation::Tier1Failure;
use crate::steady_laws;
use crate::tip_laws;

verus! {

/// When the caller has to come back.
#[derive(Debug, Clone, Copy, PartialEq, Eq, Structural)]
pub enum NextCall {
    /// At this instant (milliseconds); a past instant means as soon as possible.
    At(u64),
    /// Nothing is scheduled.
    Idle,
}

/// What a state-changing call returns: its outcome, and when to come back.
pub type CallResult<T> = (T, NextCall);

/// Why a chain was not founded.
#[derive(Debug, Clone, Copy, PartialEq, Eq, Structural)]
pub enum GenesisRejectReason {
    /// Only node #0 founds a chain.
    LocalNodeIdNotZero,
    /// The node holds blocks or a locked configuration already.
    StorageNotEmpty,
    /// The configuration and its signature do not fit a block payload.
    InitialChainConfigTooLarge,
    /// The configuration registry refuses the content.
    InitialChainConfigRejected,
    /// A durable write failed.
    StorageSaveFailed,
    /// The storage control plane is not initialized, so that the configuration
    /// could not be written.
    StorageNotInitialized,
    /// A founding block is larger than the limit its own configuration sets.
    GenesisBlockExceedsBlockSizeLimit,
}

/// What became of a start from durable storage.
#[derive(Debug, Clone, Copy, PartialEq, Eq, Structural)]
pub enum InitOutcome {
    /// Storage held no blocks: the node joins as a pure receiver.
    StartedCollecting,
    /// The tree was rebuilt and a candidate chain was validated.
    ResumedReady,
    /// The tree was rebuilt, and no candidate chain qualifies yet.
    ResumedCollecting,
    /// The durable footprint cannot be used.
    Rejected(RestartRejectReason),
}

/// Why a durable footprint cannot be used.
#[derive(Debug, Clone, Copy, PartialEq, Eq, Structural)]
pub enum RestartRejectReason {
    /// Blocks are present, but the control plane cannot be read.
    ControlPlaneUnreadable,
    /// The control plane holds a chain configuration that cannot be used.
    ChainConfigUnusable,
}

/// Outcome of transaction intake.
#[derive(Debug, Clone, Copy, PartialEq, Eq, Structural)]
pub enum ReceiveTransactionOutcome {
    /// The node is not ready; the transaction is not classified.
    NotReady,
}

/// Outcome of local transaction creation.
#[derive(Debug, Clone, Copy, PartialEq, Eq, Structural)]
pub enum LocalTransactionOutcome {
    /// The node is not ready; the transaction is not created.
    NotReady,
}

/// Why a balance query has no answer.
#[derive(Debug, Clone, Copy, PartialEq, Eq, Structural)]
pub enum BalanceQueryError {
    /// The node is not ready.
    NotReady,
}

/// Why a block query has no answer.
#[derive(Debug, Clone, Copy, PartialEq, Eq, Structural)]
pub enum BlockQueryError {
    /// The node is not ready.
    NotReady,
}

/// Why there is no window of the active chain.
#[derive(Debug, Clone, Copy, PartialEq, Eq, Structural)]
pub enum SnakeChainWindowError {
    /// The node is not ready: there is no active chain.
    NotReady,
    /// The window is not derived from the active chain yet.
    NotYetDerived,
}

/// What is known of a transaction.
#[derive(Debug, Clone, Copy, PartialEq, Eq, Structural)]
pub enum TransactionState {
    /// Nothing.
    Unknown,
    /// It waits for inclusion.
    InMempool,
    /// It is on the active chain.
    Confirmed,
}

/// Why a transaction query has no answer.
#[derive(Debug, Clone, Copy, PartialEq, Eq, Structural)]
pub enum TxStateQueryError {
    /// The node is not ready.
    NotReady,
}

/// Why a block was not admitted.
#[derive(Debug, Clone, Copy, PartialEq, Eq, Structural)]
pub enum AdmitError {
    /// Exact evidence that the block is invalid.
    Rejected(Tier1Failure),
    /// The block-tree is full.
    TableFull,
    /// The block could not be persisted.
    StorageSaveFailed,
}

/// What became of a submitted block.
#[derive(Debug, Clone, Copy, PartialEq, Eq, Structural)]
pub enum ReceiveBlockOutcome {
    /// The block is in the tree already.
    DuplicateKnown,
    /// The block was stored.
    AcceptedSilently,
    /// The block was refused.
    Rejected(RejectReason),
}

/// Why a submitted block was refused.
#[derive(Debug, Clone, Copy, PartialEq, Eq, Structural)]
pub enum RejectReason {
    /// Outside the window of the active chain.
    OutOfWindow,
    /// Exact evidence that the block is invalid.
    InvalidEvidence,
    /// The block may be valid, but could not be persisted or retained.
    Unstorable,
}

/// A request for a missing parent block, to be sent to the node's peers.
#[derive(Debug, Clone, Copy, PartialEq, Eq)]
pub struct ParentRecoveryRequest {
    pub missing_parent_hash: BlockHash,
    pub claimed_parent_sequence: u32,
}

impl ParentRecoveryRequest {
    /// A request for the block with this hash at this sequence.
    pub fn new(missing_parent_hash: BlockHash, claimed_parent_sequence: u32) -> (request: Self)
        ensures
            request == (ParentRecoveryRequest { missing_parent_hash, claimed_parent_sequence }),
    {
        ParentRecoveryRequest { missing_parent_hash, claimed_parent_sequence }
    }

    /// The hash of the missing parent block.
    pub fn missing_parent_hash(&self) -> (hash: &BlockHash)
        ensures
            *hash == self.missing_parent_hash,
    {
        &self.missing_parent_hash
    }

    /// The sequence that the missing parent must have.
    pub fn claimed_parent_sequence(&self) -> (sequence: u32)
        ensures
            sequence == self.claimed_parent_sequence,
    {
        self.claimed_parent_sequence
    }
}

/// What a tick has to do.
#[derive(Debug, Clone, Copy, PartialEq, Eq)]
pub enum TickOutcome {
    /// Nothing.
    Idle,
    /// Send one request for a missing parent.
    SendParentRecoveryRequest(ParentRecoveryRequest),
}

/// The capacities of this build that a chain configuration is measured against.
#[derive(Debug, Clone, Copy, PartialEq, Eq, Structural)]
pub struct BuildLimits {
    /// Spendable outputs per block that the spent bits can tell apart.
    pub utxo_unspent_bits: u16,
    /// Blocks of the longest active window.
    pub snake_chain_length_max: u16,
}

/// Authoritative state of a node.
pub struct Blockchain<
    const MAX_NODES: usize,
    const SNAKE_CHAIN_LENGTH: u32,
    const VERIFICATION_HORIZON: usize,
    const MAX_BLOCKS: usize,
    const MAX_BRANCH_COUNT: usize,
    const MAX_BLOCK_UTXO_OUTPUT: usize,
> {
    pub local_node_id: u32,
    /// The key that founding blocks and chain configurations are signed with.
    pub node_zero_public_key: PublicKey,
    /// Bytes of a registration, the longest transaction with a signature of its
    /// own.
    pub registration_size: usize,
    pub prng: Prng,
    pub lifecycle_phase: LifecyclePhase,
    pub blocks: BlockTable<MAX_BLOCKS>,
    pub chain_heads: ChainHeadsTable<MAX_BRANCH_COUNT>,
    pub node_info: NodeInfoState<MAX_NODES>,
    pub chain_config: CommittedConfig,
    /// The vote registry has to be emptied before it is used again.
    pub vote_reset_pending: bool,
    /// When a parent was last asked for, over all tips; `0` means never.
    pub last_parent_request_emit_timestamp: u64,
    /// Slot of the head of the active chain, or `NONE_REF`.
    pub active_chain_head_idx: u32,
    /// Slot of the block that supplied the tentative configuration, or
    /// `NONE_REF`.
    pub tentative_config_block_idx: u32,
    pub snake_chain_tail_idx: u32,
}

/// The state of a node.
#[verifier::ext_equal]
pub ghost struct NodeView {
    pub local_node_id: u32,
    pub anchor_key: Seq<u8>,
    pub registration_size: usize,
    pub prng_seed: u64,
    pub prng_drawn: nat,
    pub phase: LifecyclePhase,
    pub blocks: Seq<BlockEntry>,
    pub heads: Seq<ChainHeadEntry>,
    pub info: InfoView,
    pub config: ConfigView,
    pub vote_reset: bool,
    pub last_emit: u64,
    pub active_head: u32,
    pub config_source: u32,
    pub snake_tail: u32,
}

impl NodeView {
    /// The tips and the block-tree.
    pub open spec fn tips(self) -> Tips {
        Tips { heads: self.heads, blocks: self.blocks }
    }

    pub open spec fn ready(self) -> bool {
        self.phase == LifecyclePhase::Ready
    }

    /// The block that supplied the tentative configuration is in the tree.
    pub open spec fn source_live(self) -> bool {
        self.config_source != NONE_REF ==> tree::present(self.blocks, self.config_source)
    }

    /// The largest block of the chain whose configuration is held.
    pub open spec fn declared_limit(self) -> u16 {
        match self.config.active() {
            Some(parameters) => parameters.block_size_limit,
            None => MAX_BLOCK_SIZE as u16,
        }
    }

    /// The largest block that may be held against another: a limit that is not
    /// locked refuses nothing.
    pub open spec fn enforceable_limit(self) -> u16 {
        match self.config {
            ConfigView::Durable { content, parameters } => parameters.block_size_limit,
            _ => MAX_BLOCK_SIZE as u16,
        }
    }

    /// The intervals of parent recovery: between any two requests, and between
    /// two requests of one tip.
    pub open spec fn recovery_intervals(self) -> Option<(u64, u64)> {
        match self.config.active() {
            Some(parameters) => Some(
                (
                    parameters.parent_recovery_min_emit_interval_ms,
                    parameters.parent_recovery_per_head_retry_interval_ms,
                ),
            ),
            None => None,
        }
    }

    /// When the next parent request can be emitted: once some tip may ask, and
    /// the interval since the last request of any tip is over.
    pub open spec fn next_call(self) -> NextCall {
        match self.recovery_intervals() {
            None => NextCall::Idle,
            Some((min_emit, per_head_retry)) => match tips::earliest_deadline(
                self.heads,
                per_head_retry,
                0,
            ) {
                None => NextCall::Idle,
                Some(head_ready) => {
                    let clear = emit_clear_at(self.last_emit, min_emit);
                    NextCall::At(
                        if head_ready > clear {
                            head_ready
                        } else {
                            clear
                        },
                    )
                },
            },
        }
    }

    /// What a tick at `now` does.
    pub open spec fn ticked(self, now: u64) -> (TickOutcome, NodeView) {
        match self.recovery_intervals() {
            None => (TickOutcome::Idle, self),
            Some((min_emit, per_head_retry)) => if emit_clear_at(self.last_emit, min_emit) > now {
                (TickOutcome::Idle, self)
            } else {
                match tips::parent_request(self.heads, self.blocks, now, per_head_retry) {
                    None => (TickOutcome::Idle, self),
                    Some((slot, request)) => (
                        TickOutcome::SendParentRecoveryRequest(request),
                        NodeView {
                            heads: self.heads.update(
                                slot,
                                ChainHeadEntry {
                                    last_request_timestamp: now,
                                    ..self.heads[slot]
                                },
                            ),
                            last_emit: now,
                            ..self
                        },
                    ),
                }
            },
        }
    }
}

/// When a request may follow one emitted at `last_emit`.
pub open spec fn emit_clear_at(last_emit: u64, min_emit: u64) -> u64 {
    if last_emit + min_emit > u64::MAX {
        u64::MAX
    } else {
        (last_emit + min_emit) as u64
    }
}

impl<
    const MAX_NODES: usize,
    const SNAKE_CHAIN_LENGTH: u32,
    const VERIFICATION_HORIZON: usize,
    const MAX_BLOCKS: usize,
    const MAX_BRANCH_COUNT: usize,
    const MAX_BLOCK_UTXO_OUTPUT: usize,
> View for Blockchain<
    MAX_NODES,
    SNAKE_CHAIN_LENGTH,
    VERIFICATION_HORIZON,
    MAX_BLOCKS,
    MAX_BRANCH_COUNT,
    MAX_BLOCK_UTXO_OUTPUT,
> {
    type V = NodeView;

    open spec fn view(&self) -> NodeView {
        NodeView {
            local_node_id: self.local_node_id,
            anchor_key: self.node_zero_public_key@,
            registration_size: self.registration_size,
            prng_seed: self.prng.seed,
            prng_drawn: self.prng.drawn@,
            phase: self.lifecycle_phase,
            blocks: self.blocks.blocks@,
            heads: self.chain_heads.heads@,
            info: self.node_info@,
            config: self.chain_config@,
            vote_reset: self.vote_reset_pending,
            last_emit: self.last_parent_request_emit_timestamp,
            active_head: self.active_chain_head_idx,
            config_source: self.tentative_config_block_idx,
            snake_tail: self.snake_chain_tail_idx,
        }
    }
}

impl<
    const MAX_NODES: usize,
    const SNAKE_CHAIN_LENGTH: u32,
    const VERIFICATION_HORIZON: usize,
    const MAX_BLOCKS: usize,
    const MAX_BRANCH_COUNT: usize,
    const MAX_BLOCK_UTXO_OUTPUT: usize,
> Blockchain<
    MAX_NODES,
    SNAKE_CHAIN_LENGTH,
    VERIFICATION_HORIZON,
    MAX_BLOCKS,
    MAX_BRANCH_COUNT,
    MAX_BLOCK_UTXO_OUTPUT,
> {
    /// What every call keeps: each table has its size, no block is held twice,
    /// and the block behind a tentative configuration is in the tree.
    pub open spec fn inv(self) -> bool {
        &&& self.prng.wf()
        &&& self.blocks.wf()
        &&& self.chain_heads.wf()
        &&& self.node_info.wf()
        &&& tree::unique_blocks(self.blocks.blocks@)
        &&& self@.source_live()
    }

    /// The capacities of this build.
    pub fn build_limits() -> (limits: BuildLimits)
        requires
            SNAKE_CHAIN_LENGTH <= u16::MAX,
        ensures
            limits.utxo_unspent_bits == SPENT_BITS_BYTES * 8,
            limits.snake_chain_length_max == SNAKE_CHAIN_LENGTH,
    {
        BuildLimits {
            utxo_unspent_bits: (SPENT_BITS_BYTES * 8) as u16,
            snake_chain_length_max: SNAKE_CHAIN_LENGTH as u16,
        }
    }

    /// A node that has seen nothing yet: collecting, with an empty tree and no
    /// configuration. `registration_size` is the length that a serialized
    /// registration has.
    pub fn init(
        local_node_id: u32,
        node_zero_public_key: PublicKey,
        registration_size: usize,
        prng_seed: u64,
    ) -> (node: Self)
        requires
            MAX_BLOCKS <= NONE_REF,
        ensures
            node.inv(),
            node@ == (NodeView {
                local_node_id,
                anchor_key: node_zero_public_key@,
                registration_size,
                prng_seed,
                prng_drawn: 0,
                phase: LifecyclePhase::Collecting,
                blocks: Seq::new(MAX_BLOCKS as nat, |i: int| BlockEntry::vacant()),
                heads: Seq::new(MAX_BRANCH_COUNT as nat, |i: int| ChainHeadEntry::vacant()),
                info: InfoView::blank(MAX_NODES as nat),
                config: ConfigView::Unloaded,
                vote_reset: false,
                last_emit: 0,
                active_head: NONE_REF,
                config_source: NONE_REF,
                snake_tail: 0,
            }),
            1 <= MAX_BRANCH_COUNT <= 253 ==> steady_laws::steady(node@),
    {
        let node = Blockchain {
            local_node_id,
            node_zero_public_key,
            registration_size,
            prng: Prng::new(prng_seed),
            lifecycle_phase: LifecyclePhase::Collecting,
            blocks: BlockTable::new(),
            chain_heads: ChainHeadsTable::new(),
            node_info: NodeInfoState::new(),
            chain_config: CommittedConfig::Unloaded,
            vote_reset_pending: false,
            last_parent_request_emit_timestamp: 0,
            active_chain_head_idx: NONE_REF,
            tentative_config_block_idx: NONE_REF,
            snake_chain_tail_idx: 0,
        };
        proof {
            assert(node@.blocks =~= Seq::new(MAX_BLOCKS as nat, |i: int| BlockEntry::vacant()));
            assert(node@.heads =~= Seq::new(
                MAX_BRANCH_COUNT as nat,
                |i: int| ChainHeadEntry::vacant(),
            ));
            if 1 <= MAX_BRANCH_COUNT <= 253 {
                steady_laws::fresh_node_is_steady(node@);
            }
        }
        node
    }

    /// The current phase.
    pub fn current_phase(&self) -> (phase: LifecyclePhase)
        ensures
            phase == self@.phase,
    {
        self.lifecycle_phase
    }

    /// Moves to another phase, along a runtime transition.
    pub fn set_lifecycle_phase(&mut self, to: LifecyclePhase)
        requires
            old(self).inv(),
            lifecycle::legal_transition(old(self)@.phase, to),
        ensures
            final(self).inv(),
            final(self)@ == (NodeView { phase: to, ..old(self)@ }),
    {
        self.lifecycle_phase = to;
    }

    /// Whether the node is on a validated active chain.
    pub fn is_ready(&self) -> (ready: bool)
        ensures
            ready == self@.ready(),
    {
        self.lifecycle_phase == LifecyclePhase::Ready
    }

    /// The node's id.
    pub fn local_node_id(&self) -> (id: u32)
        ensures
            id == self@.local_node_id,
    {
        self.local_node_id
    }

    /// The vote parameters in force, if a configuration is held.
    pub fn vote_parameters(&self) -> (parameters: Option<VoteParameters>)
        ensures
            match self@.config.active() {
                Some(p) => parameters == Some(
                    VoteParameters { vote_scale: p.vote_scale, vote_interest: p.vote_interest },
                ),
                None => parameters is None,
            },
    {
        self.chain_config.vote_parameters()
    }

    /// Whether the vote registry has to be emptied, which the caller does with
    /// the vote parameters in force. Asking answers for the obligation.
    pub fn take_vote_reset(&mut self) -> (due: bool)
        requires
            old(self).inv(),
        ensures
            final(self).inv(),
            due == old(self)@.vote_reset,
            final(self)@ == (NodeView { vote_reset: false, ..old(self)@ }),
    {
        let due: bool = self.vote_reset_pending;
        self.vote_reset_pending = false;
        due
    }

    /// The sequence of the head of the active chain.
    pub fn current_active_head(&self) -> (sequence: Option<u32>)
        requires
            self.inv(),
        ensures
            sequence == if self@.active_head != NONE_REF && tree::present(
                self@.blocks,
                self@.active_head,
            ) {
                Some(self@.blocks[self@.active_head as int].sequence)
            } else {
                None
            },
    {
        if self.active_chain_head_idx == NONE_REF {
            return None;
        }
        match self.blocks.get(self.active_chain_head_idx) {
            Some(entry) => Some(entry.sequence),
            None => None,
        }
    }

    /// Whether the tree holds the block.
    pub fn block_tree_contains(&self, sequence: u32, hash: &BlockHash) -> (contained: bool)
        requires
            self.inv(),
        ensures
            contained == tree::slot_of(self@.blocks, sequence, *hash, 0) is Some,
    {
        self.blocks.find(sequence, hash).is_some()
    }

    /// Number of retained blocks.
    pub fn block_tree_len(&self) -> (len: usize)
        requires
            self.inv(),
        ensures
            len == tree::occupied_count(self@.blocks),
    {
        self.blocks.len()
    }

    /// The window of the active chain, or why there is none.
    pub fn active_snake_chain_window(&self) -> (window: Result<(u32, u32), SnakeChainWindowError>)
        ensures
            window == Err::<(u32, u32), SnakeChainWindowError>(
                if self@.ready() {
                    SnakeChainWindowError::NotYetDerived
                } else {
                    SnakeChainWindowError::NotReady
                },
            ),
    {
        if !self.is_ready() {
            return Err(SnakeChainWindowError::NotReady);
        }
        Err(SnakeChainWindowError::NotYetDerived)
    }

    /// The largest block of the chain whose configuration is held; the largest
    /// block at all while none is.
    pub fn block_size_limit(&self) -> (limit: u16)
        ensures
            limit == self@.declared_limit(),
    {
        match self.chain_config.active_configuration() {
            Some(parameters) => parameters.block_size_limit,
            None => MAX_BLOCK_SIZE as u16,
        }
    }

    /// The largest block that is not refused: the limit of the configuration
    /// once that is locked, the largest block at all before.
    pub fn enforceable_block_size_limit(&self) -> (limit: u16)
        ensures
            limit == self@.enforceable_limit(),
    {
        match &self.chain_config {
            CommittedConfig::Durable(held) => held.parameters.block_size_limit,
            _ => MAX_BLOCK_SIZE as u16,
        }
    }

    /// The locked configuration content.
    pub fn durable_chain_config_content(&self) -> (content: Option<&[u8]>)
        ensures
            match content {
                Some(c) => self@.config.durable() == Some(c@),
                None => self@.config.durable() is None,
            },
    {
        self.chain_config.durable_content()
    }

    /// The configuration content held, locked or not.
    pub fn held_chain_config_content(&self) -> (content: Option<&[u8]>)
        ensures
            match content {
                Some(c) => self@.config.held() == Some(c@),
                None => self@.config.held() is None,
            },
    {
        self.chain_config.held_content()
    }

    /// The intervals of parent recovery; none while no configuration is held,
    /// since the chain sets them.
    pub fn parent_recovery_intervals(&self) -> (intervals: Option<(u64, u64)>)
        ensures
            intervals == self@.recovery_intervals(),
    {
        match self.chain_config.active_configuration() {
            Some(parameters) => Some(
                (
                    parameters.parent_recovery_min_emit_interval_ms,
                    parameters.parent_recovery_per_head_retry_interval_ms,
                ),
            ),
            None => None,
        }
    }

    /// The exact instant at which the next parent request can be emitted.
    pub fn next_parent_recovery_call(&self) -> (next: NextCall)
        requires
            self.inv(),
        ensures
            next == self@.next_call(),
            steady_laws::steady(self@) ==> steady_laws::announces(self@, next),
    {
        proof {
            if steady_laws::steady(self@) {
                steady_laws::announced_instant_is_exact(self@);
            }
        }
        match self.parent_recovery_intervals() {
            None => NextCall::Idle,
            Some((min_emit, per_head_retry)) => {
                match self.chain_heads.earliest_recovery_deadline(per_head_retry) {
                    None => NextCall::Idle,
                    Some(head_ready) => {
                        let clear: u64 = Self::emit_cooldown_clear(
                            self.last_parent_request_emit_timestamp,
                            min_emit,
                        );
                        if head_ready > clear {
                            NextCall::At(head_ready)
                        } else {
                            NextCall::At(clear)
                        }
                    },
                }
            },
        }
    }

    fn emit_cooldown_clear(last_emit: u64, min_emit: u64) -> (at: u64)
        ensures
            at == emit_clear_at(last_emit, min_emit),
    {
        if last_emit > u64::MAX - min_emit {
            u64::MAX
        } else {
            last_emit + min_emit
        }
    }

    /// Runs what is due at `now`: at most one parent request, and none while
    /// the interval since the last one is not over. The returned instant is the
    /// first at which another call emits one.
    pub fn on_tick(&mut self, now: u64) -> (result: CallResult<TickOutcome>)
        requires
            old(self).inv(),
        ensures
            final(self).inv(),
            result.0 == old(self)@.ticked(now).0,
            final(self)@ == old(self)@.ticked(now).1,
            result.1 == final(self)@.next_call(),
            result.0 is Idle ==> final(self)@ == old(self)@,
            steady_laws::steady(old(self)@) ==> steady_laws::steady(final(self)@)
                && steady_laws::announces(final(self)@, result.1),
    {
        proof {
            tip_laws::ticks_touch_timestamps_alone(self@, now);
            if steady_laws::steady(self@) {
                steady_laws::tick_keeps_steady(self@, now);
                steady_laws::announced_instant_is_exact(self@.ticked(now).1);
            }
        }
        let (min_emit, per_head_retry): (u64, u64) = match self.parent_recovery_intervals() {
            None => {
                return (TickOutcome::Idle, NextCall::Idle);
            },
            Some(intervals) => intervals,
        };
        let clear: u64 = Self::emit_cooldown_clear(
            self.last_parent_request_emit_timestamp,
            min_emit,
        );
        let mut outcome: TickOutcome = TickOutcome::Idle;
        if clear <= now {
            match self.chain_heads.select_parent_recovery(&self.blocks, now, per_head_retry) {
                Some((slot, request)) => {
                    self.chain_heads.mark_requested(slot, now);
                    self.last_parent_request_emit_timestamp = now;
                    outcome = TickOutcome::SendParentRecoveryRequest(request);
                },
                None => {},
            }
        }
        (outcome, self.next_parent_recovery_call())
    }

    /// Transaction intake. Only a node that is not ready is served here: it
    /// classifies nothing.
    pub fn receive_transaction(&mut self, _tx: &Transaction, _now: u64) -> (result: CallResult<
        ReceiveTransactionOutcome,
    >)
        requires
            !old(self)@.ready(),
        ensures
            result == (ReceiveTransactionOutcome::NotReady, NextCall::Idle),
            *final(self) == *old(self),
    {
        (ReceiveTransactionOutcome::NotReady, NextCall::Idle)
    }

    /// Local transaction creation. Only a node that is not ready is served
    /// here: it creates nothing.
    pub fn submit_local_transaction(&mut self, _tx: &Transaction, _now: u64) -> (result: CallResult<
        LocalTransactionOutcome,
    >)
        requires
            !old(self)@.ready(),
        ensures
            result == (LocalTransactionOutcome::NotReady, NextCall::Idle),
            *final(self) == *old(self),
    {
        (LocalTransactionOutcome::NotReady, NextCall::Idle)
    }

    /// Balance query, of a node that is not ready.
    pub fn query_balance(&self, _node_id: u32) -> (result: Result<u64, BalanceQueryError>)
        requires
            !self@.ready(),
        ensures
            result == Err::<u64, BalanceQueryError>(BalanceQueryError::NotReady),
    {
        Err(BalanceQueryError::NotReady)
    }

    /// Block query by hash, of a node that is not ready.
    pub fn query_block_by_hash(&self, _hash: &BlockHash) -> (result: Result<
        ChainBlock,
        BlockQueryError,
    >)
        requires
            !self@.ready(),
        ensures
            result == Err::<ChainBlock, BlockQueryError>(BlockQueryError::NotReady),
    {
        Err(BlockQueryError::NotReady)
    }

    /// Block query by sequence, of a node that is not ready.
    pub fn query_block_by_sequence(&self, _sequence: u32) -> (result: Result<
        ChainBlock,
        BlockQueryError,
    >)
        requires
            !self@.ready(),
        ensures
            result == Err::<ChainBlock, BlockQueryError>(BlockQueryError::NotReady),
    {
        Err(BlockQueryError::NotReady)
    }

    /// Transaction query, of a node that is not ready.
    pub fn query_transaction_state(&self, _tx_hash: &BlockHash) -> (result: Result<
        TransactionState,
        TxStateQueryError,
    >)
        requires
            !self@.ready(),
        ensures
            result == Err::<TransactionState, TxStateQueryError>(TxStateQueryError::NotReady),
    {
        Err(TxStateQueryError::NotReady)
    }
}

} // verus!
