//! The fixed-value chain configuration, and the accessors it implements.

use vstd::prelude::*;

use crate::block_data::MAX_PAYLOAD_SIZE;
use crate::config_state::copy_bytes;

verus! {

/// Bytes of the largest initial chain configuration: it has to fit one block
/// payload.
pub const INITIAL_CHAIN_CONFIG_BYTES_CAPACITY: usize = MAX_PAYLOAD_SIZE;

/// Why an initial chain configuration was not retained.
#[derive(Debug, Clone, Copy, PartialEq, Eq, Structural)]
pub enum ChainConfigError {
    /// It would not fit one block payload.
    InitialChainConfigTooLarge,
    /// One has been retained already and must not be overwritten.
    InitialChainConfigAlreadyStored,
}

/// The initial chain configuration, retained once.
pub struct PendingInitialChainConfig {
    pub bytes: Vec<u8>,
    pub present: bool,
}

/// Why storing `bytes` is refused when `retained` is held.
pub open spec fn store_error(retained: Option<Seq<u8>>, bytes: Seq<u8>) -> Option<
    ChainConfigError,
> {
    if retained is Some {
        Some(ChainConfigError::InitialChainConfigAlreadyStored)
    } else if bytes.len() > INITIAL_CHAIN_CONFIG_BYTES_CAPACITY {
        Some(ChainConfigError::InitialChainConfigTooLarge)
    } else {
        None
    }
}

/// What is retained after storing `bytes`.
pub open spec fn retained_after(retained: Option<Seq<u8>>, bytes: Seq<u8>) -> Option<Seq<u8>> {
    if store_error(retained, bytes) is Some {
        retained
    } else {
        Some(bytes)
    }
}

impl View for PendingInitialChainConfig {
    type V = Option<Seq<u8>>;

    open spec fn view(&self) -> Option<Seq<u8>> {
        if self.present {
            Some(self.bytes@)
        } else {
            None
        }
    }
}

impl PendingInitialChainConfig {
    /// Nothing retained yet.
    pub fn empty() -> (pending: Self)
        ensures
            pending@ is None,
    {
        PendingInitialChainConfig { bytes: Vec::new(), present: false }
    }

    /// Retains `bytes`, unless something is retained already or they do not fit
    /// a block payload.
    pub fn store(&mut self, bytes: &[u8]) -> (result: Result<(), ChainConfigError>)
        ensures
            final(self)@ == retained_after(old(self)@, bytes@),
            match store_error(old(self)@, bytes@) {
                Some(error) => result == Err::<(), ChainConfigError>(error),
                None => result is Ok,
            },
    {
        if self.present {
            return Err(ChainConfigError::InitialChainConfigAlreadyStored);
        }
        if bytes.len() > INITIAL_CHAIN_CONFIG_BYTES_CAPACITY {
            return Err(ChainConfigError::InitialChainConfigTooLarge);
        }
        self.bytes = copy_bytes(bytes);
        self.present = true;
        Ok(())
    }

    /// The retained bytes.
    pub fn bytes(&self) -> (bytes: Option<&[u8]>)
        ensures
            match bytes {
                Some(b) => self@ == Some(b@),
                None => self@ is None,
            },
    {
        if self.present {
            Some(self.bytes.as_slice())
        } else {
            None
        }
    }
}

/// What was retained stays retained, whatever is stored after it.
pub proof fn initial_config_is_retained_once(first: Seq<u8>, second: Seq<u8>)
    requires
        first.len() <= INITIAL_CHAIN_CONFIG_BYTES_CAPACITY,
    ensures
        retained_after(None, first) == Some(first),
        retained_after(retained_after(None, first), second) == Some(first),
        store_error(retained_after(None, first), second) == Some(
            ChainConfigError::InitialChainConfigAlreadyStored,
        ),
{
}

/// The vote value of a chain: never zero, since vote interest divides by it.
#[derive(Debug, Clone, Copy, PartialEq, Eq, Structural)]
pub struct VoteScale {
    pub value: u16,
}

impl VoteScale {
    /// The value.
    pub fn get(self) -> (value: u16)
        ensures
            value == self.value,
    {
        self.value
    }
}

/// The chain-configurable parameters that a node reads.
pub trait ChainConfigTrait {
    /// The retained initial chain configuration.
    spec fn retained(&self) -> Option<Seq<u8>>;

    /// Wait between two blocks of one creator, in milliseconds.
    fn current_inter_block_interval_ms(&self) -> u64;

    /// Length of the grace period, in milliseconds.
    fn current_grace_period_window_ms(&self) -> u64;

    /// Bytes of the largest block.
    fn current_block_size_limit(&self) -> u16;

    /// Largest number of spendable outputs per block.
    fn current_max_utxo_outputs(&self) -> u8;

    /// Largest number of aggregated signatures per approval block.
    fn current_max_aggregated_signatures(&self) -> u8;

    /// Value of one vote.
    fn current_vote_scale(&self) -> (scale: VoteScale)
        ensures
            scale.value != 0,
    ;

    /// Rate of the vote interest.
    fn current_vote_interest(&self) -> u8;

    /// Whether the configuration is locked.
    fn is_durable_locked(&self) -> bool;

    /// Shortest time between two parent requests of one tip, in milliseconds.
    fn parent_recovery_per_head_retry_interval_ms(&self) -> u64;

    /// Shortest time between any two parent requests, in milliseconds.
    fn parent_recovery_min_emit_interval_ms(&self) -> u64;

    /// Retains the initial chain configuration.
    fn store_initial_chain_config_bytes(&mut self, bytes: &[u8]) -> (result: Result<
        (),
        ChainConfigError,
    >)
        ensures
            final(self).retained() == retained_after(old(self).retained(), bytes@),
            match store_error(old(self).retained(), bytes@) {
                Some(error) => result == Err::<(), ChainConfigError>(error),
                None => result is Ok,
            },
    ;

    /// The retained initial chain configuration, if there is one.
    fn initial_chain_config_bytes(&self) -> (bytes: Option<&[u8]>)
        ensures
            match bytes {
                Some(b) => self.retained() == Some(b@),
                None => self.retained() is None,
            },
    ;
}

/// A configuration with fixed values, for simulations and tests.
pub struct FixedChainConfig {
    pub initial_chain_config: PendingInitialChainConfig,
}

impl FixedChainConfig {
    /// The fixed configuration, with nothing retained yet.
    pub fn new() -> (config: Self)
        ensures
            config.retained() is None,
    {
        FixedChainConfig { initial_chain_config: PendingInitialChainConfig::empty() }
    }
}

impl ChainConfigTrait for FixedChainConfig {
    open spec fn retained(&self) -> Option<Seq<u8>> {
        self.initial_chain_config@
    }

    fn current_inter_block_interval_ms(&self) -> (value: u64)
        ensures
            value == 60_000,
    {
        60_000
    }

    fn current_grace_period_window_ms(&self) -> (value: u64)
        ensures
            value == 30_000,
    {
        30_000
    }

    fn current_block_size_limit(&self) -> (value: u16)
        ensures
            value == 2016,
    {
        2016
    }

    fn current_max_utxo_outputs(&self) -> (value: u8)
        ensures
            value == 255,
    {
        255
    }

    fn current_max_aggregated_signatures(&self) -> (value: u8)
        ensures
            value == 50,
    {
        50
    }

    fn current_vote_scale(&self) -> (scale: VoteScale)
        ensures
            scale.value == 1000,
    {
        VoteScale { value: 1000 }
    }

    fn current_vote_interest(&self) -> (value: u8)
        ensures
            value == 5,
    {
        5
    }

    fn is_durable_locked(&self) -> (locked: bool)
        ensures
            locked,
    {
        true
    }

    fn parent_recovery_per_head_retry_interval_ms(&self) -> (value: u64)
        ensures
            value == 120_000,
    {
        120_000
    }

    fn parent_recovery_min_emit_interval_ms(&self) -> (value: u64)
        ensures
            value == 10_000,
    {
        10_000
    }

    fn store_initial_chain_config_bytes(&mut self, bytes: &[u8]) -> (result: Result<
        (),
        ChainConfigError,
    >) {
        self.initial_chain_config.store(bytes)
    }

    fn initial_chain_config_bytes(&self) -> (bytes: Option<&[u8]>) {
        self.initial_chain_config.bytes()
    }
}

} // verus!
