//! The chain configuration that the node holds, and how firmly.
//!
//! A node first holds a configuration tentatively: it came with a chain-config
//! block and may be replaced or withdrawn. Once a chain carrying it has been
//! validated (or founded), the configuration is locked, and the lock is for the
//! lifetime of the chain.

use vstd::prelude::*;

verus! {

/// What the node reads from a chain configuration.
#[derive(Debug, Clone, Copy, PartialEq, Eq, Structural)]
pub struct ConfigParameters {
    /// Bytes of the largest block of this chain.
    pub block_size_limit: u16,
    /// Value of one vote, and bound of the per-block vote interest.
    pub vote_scale: u16,
    /// Rate of the vote interest.
    pub vote_interest: u8,
    /// Shortest time between any two parent requests, in milliseconds.
    pub parent_recovery_min_emit_interval_ms: u64,
    /// Shortest time between two parent requests of one tip, in milliseconds.
    pub parent_recovery_per_head_retry_interval_ms: u64,
}

/// The vote parameters of a chain configuration.
#[derive(Debug, Clone, Copy, PartialEq, Eq, Structural)]
pub struct VoteParameters {
    pub vote_scale: u16,
    pub vote_interest: u8,
}

/// A configuration: its content region and what it resolves to.
pub struct HeldConfig {
    pub content: Vec<u8>,
    pub parameters: ConfigParameters,
}

/// The configuration that the node holds.
pub enum CommittedConfig {
    /// None.
    Unloaded,
    /// One that may still be replaced or withdrawn.
    Tentative(HeldConfig),
    /// One that is locked.
    Durable(HeldConfig),
}

/// Why a configuration was not taken.
#[derive(Debug, Clone, Copy, PartialEq, Eq, Structural)]
pub enum ConfigStateError {
    /// The configuration registry refuses the content.
    ContentRefused,
    /// A configuration is locked already.
    DurableLocked,
    /// No configuration is held.
    NotLoaded,
}

/// The configuration that the node holds, by its content region.
#[verifier::ext_equal]
pub ghost enum ConfigView {
    Unloaded,
    Tentative { content: Seq<u8>, parameters: ConfigParameters },
    Durable { content: Seq<u8>, parameters: ConfigParameters },
}

impl ConfigView {
    /// The parameters in force.
    pub open spec fn active(self) -> Option<ConfigParameters> {
        match self {
            ConfigView::Unloaded => None,
            ConfigView::Tentative { content, parameters } => Some(parameters),
            ConfigView::Durable { content, parameters } => Some(parameters),
        }
    }

    /// The locked content.
    pub open spec fn durable(self) -> Option<Seq<u8>> {
        match self {
            ConfigView::Durable { content, parameters } => Some(content),
            _ => None,
        }
    }

    /// The content held tentatively.
    pub open spec fn tentative(self) -> Option<Seq<u8>> {
        match self {
            ConfigView::Tentative { content, parameters } => Some(content),
            _ => None,
        }
    }

    /// The content held, either way.
    pub open spec fn held(self) -> Option<Seq<u8>> {
        match self {
            ConfigView::Unloaded => None,
            ConfigView::Tentative { content, parameters } => Some(content),
            ConfigView::Durable { content, parameters } => Some(content),
        }
    }

    /// Why the content cannot be loaded.
    pub open spec fn load_error(self, accepted: Option<ConfigParameters>) -> Option<
        ConfigStateError,
    > {
        if self is Durable {
            Some(ConfigStateError::DurableLocked)
        } else if accepted is None {
            Some(ConfigStateError::ContentRefused)
        } else {
            None
        }
    }

    /// After the content was loaded tentatively; unchanged when it cannot be.
    pub open spec fn loaded(self, content: Seq<u8>, accepted: Option<ConfigParameters>) -> ConfigView {
        if self.load_error(accepted) is Some {
            self
        } else {
            ConfigView::Tentative { content, parameters: accepted->0 }
        }
    }

    /// After the content was loaded and locked; unchanged when it cannot be.
    pub open spec fn loaded_durable(
        self,
        content: Seq<u8>,
        accepted: Option<ConfigParameters>,
    ) -> ConfigView {
        if self.load_error(accepted) is Some {
            self
        } else {
            ConfigView::Durable { content, parameters: accepted->0 }
        }
    }

    /// After a tentative configuration was locked; unchanged otherwise.
    pub open spec fn promoted(self) -> ConfigView {
        match self {
            ConfigView::Tentative { content, parameters } => ConfigView::Durable {
                content,
                parameters,
            },
            _ => self,
        }
    }

    /// After a tentative configuration was withdrawn; unchanged otherwise.
    pub open spec fn withdrawn(self) -> ConfigView {
        match self {
            ConfigView::Tentative { content, parameters } => ConfigView::Unloaded,
            _ => self,
        }
    }
}

impl View for CommittedConfig {
    type V = ConfigView;

    open spec fn view(&self) -> ConfigView {
        match *self {
            CommittedConfig::Unloaded => ConfigView::Unloaded,
            CommittedConfig::Tentative(held) => ConfigView::Tentative {
                content: held.content@,
                parameters: held.parameters,
            },
            CommittedConfig::Durable(held) => ConfigView::Durable {
                content: held.content@,
                parameters: held.parameters,
            },
        }
    }
}

/// A copy of a byte string.
pub fn copy_bytes(bytes: &[u8]) -> (copy: Vec<u8>)
    ensures
        copy@ == bytes@,
{
    let mut copy: Vec<u8> = Vec::new();
    let mut i: usize = 0;
    while i < bytes.len()
        invariant
            i <= bytes@.len(),
            copy@ == bytes@.take(i as int),
        decreases bytes@.len() - i,
    {
        copy.push(bytes[i]);
        assert(bytes@.take(i + 1) =~= bytes@.take(i as int).push(bytes@[i as int]));
        i = i + 1;
    }
    assert(bytes@.take(i as int) =~= bytes@);
    copy
}

impl CommittedConfig {
    /// The parameters in force, if a configuration is held.
    pub fn active_configuration(&self) -> (parameters: Option<ConfigParameters>)
        ensures
            parameters == self@.active(),
    {
        match self {
            CommittedConfig::Unloaded => None,
            CommittedConfig::Tentative(held) => Some(held.parameters),
            CommittedConfig::Durable(held) => Some(held.parameters),
        }
    }

    /// The vote parameters in force, if a configuration is held.
    pub fn vote_parameters(&self) -> (parameters: Option<VoteParameters>)
        ensures
            match self@.active() {
                Some(p) => parameters == Some(
                    VoteParameters { vote_scale: p.vote_scale, vote_interest: p.vote_interest },
                ),
                None => parameters is None,
            },
    {
        match self.active_configuration() {
            Some(p) => Some(
                VoteParameters { vote_scale: p.vote_scale, vote_interest: p.vote_interest },
            ),
            None => None,
        }
    }

    /// The locked content.
    pub fn durable_content(&self) -> (content: Option<&[u8]>)
        ensures
            match content {
                Some(c) => self@.durable() == Some(c@),
                None => self@.durable() is None,
            },
    {
        match self {
            CommittedConfig::Durable(held) => Some(held.content.as_slice()),
            _ => None,
        }
    }

    /// The content held tentatively.
    pub fn tentative_content(&self) -> (content: Option<&[u8]>)
        ensures
            match content {
                Some(c) => self@.tentative() == Some(c@),
                None => self@.tentative() is None,
            },
    {
        match self {
            CommittedConfig::Tentative(held) => Some(held.content.as_slice()),
            _ => None,
        }
    }

    /// The content held, locked or not.
    pub fn held_content(&self) -> (content: Option<&[u8]>)
        ensures
            match content {
                Some(c) => self@.held() == Some(c@),
                None => self@.held() is None,
            },
    {
        match self {
            CommittedConfig::Unloaded => None,
            CommittedConfig::Tentative(held) => Some(held.content.as_slice()),
            CommittedConfig::Durable(held) => Some(held.content.as_slice()),
        }
    }

    /// Whether the configuration is locked.
    pub fn is_durable_locked(&self) -> (locked: bool)
        ensures
            locked == self@ is Durable,
            locked == self@.durable() is Some,
    {
        match self {
            CommittedConfig::Durable(_) => true,
            _ => false,
        }
    }

    /// Holds the content tentatively, in place of any other tentative one. A
    /// refusal changes nothing.
    pub fn load_tentative(
        &mut self,
        content: &[u8],
        accepted: Option<ConfigParameters>,
    ) -> (result: Result<(), ConfigStateError>)
        ensures
            final(self)@ == old(self)@.loaded(content@, accepted),
            match old(self)@.load_error(accepted) {
                Some(error) => result == Err::<(), ConfigStateError>(error),
                None => result is Ok,
            },
    {
        if self.is_durable_locked() {
            return Err(ConfigStateError::DurableLocked);
        }
        match accepted {
            None => Err(ConfigStateError::ContentRefused),
            Some(parameters) => {
                *self = CommittedConfig::Tentative(
                    HeldConfig { content: copy_bytes(content), parameters },
                );
                Ok(())
            },
        }
    }

    /// Holds the content and locks it at once. A refusal changes nothing.
    pub fn load_durable(
        &mut self,
        content: &[u8],
        accepted: Option<ConfigParameters>,
    ) -> (result: Result<(), ConfigStateError>)
        ensures
            final(self)@ == old(self)@.loaded_durable(content@, accepted),
            match old(self)@.load_error(accepted) {
                Some(error) => result == Err::<(), ConfigStateError>(error),
                None => result is Ok,
            },
    {
        if self.is_durable_locked() {
            return Err(ConfigStateError::DurableLocked);
        }
        match accepted {
            None => Err(ConfigStateError::ContentRefused),
            Some(parameters) => {
                *self = CommittedConfig::Durable(
                    HeldConfig { content: copy_bytes(content), parameters },
                );
                Ok(())
            },
        }
    }

    /// Locks the tentative configuration. The lock is set once: a second
    /// promotion is refused.
    pub fn promote_durable(&mut self) -> (result: Result<(), ConfigStateError>)
        ensures
            final(self)@ == old(self)@.promoted(),
            match old(self)@ {
                ConfigView::Unloaded => result == Err::<(), ConfigStateError>(
                    ConfigStateError::NotLoaded,
                ),
                ConfigView::Durable { .. } => result == Err::<(), ConfigStateError>(
                    ConfigStateError::DurableLocked,
                ),
                ConfigView::Tentative { .. } => result is Ok,
            },
    {
        match self {
            CommittedConfig::Unloaded => Err(ConfigStateError::NotLoaded),
            CommittedConfig::Durable(_) => Err(ConfigStateError::DurableLocked),
            CommittedConfig::Tentative(held) => {
                let locked: HeldConfig = HeldConfig {
                    content: copy_bytes(held.content.as_slice()),
                    parameters: held.parameters,
                };
                *self = CommittedConfig::Durable(locked);
                Ok(())
            },
        }
    }

    /// Withdraws a tentative configuration; a locked one stays.
    pub fn discard_tentative(&mut self)
        ensures
            final(self)@ == old(self)@.withdrawn(),
    {
        let tentative: bool = match self {
            CommittedConfig::Tentative(_) => true,
            _ => false,
        };
        if tentative {
            *self = CommittedConfig::Unloaded;
        }
    }
}

/// A locked configuration survives every operation, unchanged.
pub proof fn lock_is_irrevocable(
    config: ConfigView,
    content: Seq<u8>,
    accepted: Option<ConfigParameters>,
)
    requires
        config is Durable,
    ensures
        config.loaded(content, accepted) == config,
        config.loaded_durable(content, accepted) == config,
        config.promoted() == config,
        config.withdrawn() == config,
{
}

/// Promotion locks exactly what was held, and nothing else becomes locked.
pub proof fn promotion_locks_what_was_held(config: ConfigView)
    ensures
        config.tentative() is Some ==> config.promoted().durable() == config.tentative()
            && config.promoted().active() == config.active(),
        config.promoted().held() == config.held(),
        config is Unloaded ==> config.promoted() is Unloaded,
{
}

} // verus!
