//! Block-tree, tip tracking, chain acquisition and recovery for a MoonBlokz
//! node.
//!
//! The library holds the node's authoritative interpretation of the chain and
//! decides what happens to it. It reads no clock, draws no entropy of its own
//! and performs no input or output: every outside fact (the bytes a block was
//! parsed from, the outcome of a storage write, the verdict of a signature
//! verification, the vote engine's refusal, the current time) arrives as a
//! plain argument, and every decision leaves as a plain value.

pub mod acquisition;
pub mod acquisition_laws;
pub mod admission;
pub mod ancestry;
pub mod anchor_laws;
pub mod api;
pub mod block_data;
pub mod blocks;
pub mod branching;
pub mod branching_deletion;
pub mod branching_laws;
pub mod chain_config;
pub mod chain_heads;
pub mod clock_laws;
pub mod coherence;
pub mod coherence_laws;
pub mod coherent_admission;
pub mod coherent_counts;
pub mod coherent_deletion;
pub mod coherent_rebuild;
pub mod collecting_laws;
pub mod complex_laws;
pub mod config_state;
pub mod course_laws;
pub mod currency_laws;
pub mod deletion_laws;
pub mod derivation;
pub mod eviction_laws;
pub mod founding_laws;
pub mod genesis;
pub mod hash;
pub mod intake;
pub mod intake_laws;
pub mod ledger_laws;
pub mod lifecycle;
pub mod likeness;
pub mod lock_laws;
pub mod locking_laws;
pub mod node_info;
pub mod numbering_laws;
pub mod pass_laws;
pub mod payment_laws;
pub mod prng;
pub mod processing;
pub mod record_laws;
pub mod recovery;
pub mod refusal_laws;
pub mod repeat_laws;
pub mod request_laws;
pub mod restart;
pub mod restart_laws;
pub mod retry_laws;
pub mod roster_laws;
pub mod settlement;
pub mod single_tip;
pub mod spending_laws;
pub mod spent_bits;
pub mod staged_validation;
pub mod start_laws;
pub mod status_laws;
pub mod steady_laws;
pub mod tip_laws;
pub mod tip_record_laws;

pub use api::{
    BalanceQueryError, BlockQueryError, Blockchain, CallResult, GenesisRejectReason, InitOutcome,
    LocalTransactionOutcome, NextCall, ParentRecoveryRequest, ReceiveBlockOutcome,
    ReceiveTransactionOutcome, RejectReason, RestartRejectReason, TickOutcome, TransactionState,
    TxStateQueryError,
};
pub use genesis::GenesisBlocks;
pub use lifecycle::LifecyclePhase;
