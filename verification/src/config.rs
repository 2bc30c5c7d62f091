//! Settings of the client: network, program accounts, limits.

use crate::rate_limiter::NANOS_PER_SEC;
use vstd::prelude::*;

verus! {

/// The 32 bytes of an account address.
#[derive(Debug, Clone, Copy)]
pub struct Pubkey {
    pub bytes: [u8; 32],
}

impl View for Pubkey {
    type V = Seq<u8>;

    open spec fn view(&self) -> Seq<u8> {
        self.bytes@
    }
}

impl Pubkey {
    /// The address of 32 zero bytes.
    pub open spec fn zero() -> Seq<u8> {
        Seq::new(32, |i: int| 0u8)
    }

    /// Wraps the bytes of an address.
    pub fn new(bytes: [u8; 32]) -> (key: Pubkey)
        ensures
            key@ == bytes@,
    {
        Pubkey { bytes }
    }
}

impl Default for Pubkey {
    /// The address of 32 zero bytes.
    fn default() -> (key: Pubkey)
        ensures
            key@ == Pubkey::zero(),
    {
        let key = Pubkey { bytes: [0u8; 32] };
        assert(key@ =~= Pubkey::zero());
        key
    }
}

/// How often and in what bursts an endpoint may be called.
#[derive(Debug, Clone, Copy, PartialEq, Eq, Structural)]
pub struct RateLimit {
    pub requests_per_second: u32,
    pub burst_size: u32,
    pub token_bucket_size: u32,
}

/// The kind of network a model holds.
#[derive(Debug, Clone, Copy, PartialEq, Eq, Structural)]
pub enum ModelType {
    ValueNetwork,
    PolicyNetwork,
    Combined,
}

/// How settled a transaction must be to count as confirmed.
#[derive(Debug, Clone, Copy, PartialEq, Eq, Structural)]
pub enum CommitmentLevel {
    Processed,
    Confirmed,
    Finalized,
}

/// Why a configuration was refused.
#[derive(Debug, Clone, Copy, PartialEq, Eq, Structural)]
pub enum ConfigError {
    InvalidQueueSize,
    InvalidBatchSize,
    InvalidComputeBudget,
}

impl ConfigError {
    /// The text a user is shown for this error.
    pub open spec fn message_spec(self) -> Seq<char> {
        match self {
            ConfigError::InvalidQueueSize => "Invalid queue size"@,
            ConfigError::InvalidBatchSize => "Invalid batch size (must be between 1 and 64)"@,
            ConfigError::InvalidComputeBudget => "Invalid compute budget"@,
        }
    }

    /// Renders the error as text.
    pub fn message(&self) -> (text: String)
        ensures
            text@ == self.message_spec(),
    {
        match self {
            ConfigError::InvalidQueueSize => "Invalid queue size".to_string(),
            ConfigError::InvalidBatchSize => "Invalid batch size (must be between 1 and 64)".to_string(),
            ConfigError::InvalidComputeBudget => "Invalid compute budget".to_string(),
        }
    }
}

/// The settings of a client.
#[derive(Debug, Clone)]
pub struct NetworkConfig {
    /// `mainnet-beta`, `testnet` or `devnet`.
    pub network: String,
    pub rpc_timeout_ms: u64,
    pub max_retries: u32,
    pub commitment_level: CommitmentLevel,
    pub program_id: Pubkey,
    pub model_account: Pubkey,
    pub state_account: Pubkey,
    pub compute_budget: u32,
    pub priority_fee: u64,
    pub max_tx_size: usize,
    pub rate_limit: RateLimit,
    /// How long a disabled endpoint stays out of rotation, in nanoseconds.
    pub cooldown_period: u64,
    pub queue_size: usize,
    pub batch_size: usize,
}

impl NetworkConfig {
    /// Whether every setting that the named networks share has the value
    /// they share it with: all but the network's name, the commitment level,
    /// the compute budget and the priority fee.
    pub open spec fn has_shared_defaults(&self) -> bool {
        &&& self.rpc_timeout_ms == 30000
        &&& self.max_retries == 3
        &&& self.program_id@ == Pubkey::zero()
        &&& self.model_account@ == Pubkey::zero()
        &&& self.state_account@ == Pubkey::zero()
        &&& self.max_tx_size == 1232
        &&& self.rate_limit == (RateLimit {
            requests_per_second: 10,
            burst_size: 20,
            token_bucket_size: 100,
        })
        &&& self.cooldown_period == 60 * NANOS_PER_SEC
        &&& self.queue_size == 1000
        &&& self.batch_size == 16
    }

    /// Whether `validate` accepts these settings.
    pub open spec fn valid(&self) -> bool {
        self.queue_size != 0 && 1 <= self.batch_size <= 64
    }

    /// The settings for the main network.
    pub fn mainnet() -> (config: Self)
        ensures
            config.network@ == "mainnet-beta"@,
            config.commitment_level == CommitmentLevel::Finalized,
            config.compute_budget == 1_400_000,
            config.priority_fee == 1000,
            config.has_shared_defaults(),
            config.valid(),
    {
        let mut config = Self::default();
        config.network = "mainnet-beta".to_string();
        config.commitment_level = CommitmentLevel::Finalized;
        config.compute_budget = 1_400_000;
        config.priority_fee = 1000;
        config
    }

    /// The settings for the test network.
    pub fn testnet() -> (config: Self)
        ensures
            config.network@ == "testnet"@,
            config.commitment_level == CommitmentLevel::Confirmed,
            config.compute_budget == 200_000,
            config.priority_fee == 0,
            config.has_shared_defaults(),
            config.valid(),
    {
        let mut config = Self::default();
        config.network = "testnet".to_string();
        config
    }

    /// The same settings for another program.
    pub fn with_program_id(self, program_id: Pubkey) -> (config: Self)
        ensures
            config == (NetworkConfig { program_id, ..self }),
    {
        let mut config = self;
        config.program_id = program_id;
        config
    }

    /// Checks the sizes: the queue must hold at least one request, and a
    /// batch between 1 and 64.
    pub fn validate(&self) -> (checked: Result<(), ConfigError>)
        ensures
            self.queue_size == 0 ==> checked == Err::<(), ConfigError>(
                ConfigError::InvalidQueueSize,
            ),
            self.queue_size != 0 && !(1 <= self.batch_size <= 64) ==> checked == Err::<
                (),
                ConfigError,
            >(ConfigError::InvalidBatchSize),
            self.valid() == (checked is Ok),
    {
        if self.queue_size == 0 {
            return Err(ConfigError::InvalidQueueSize);
        }
        if self.batch_size == 0 || self.batch_size > 64 {
            return Err(ConfigError::InvalidBatchSize);
        }
        Ok(())
    }
}

impl Default for NetworkConfig {
    /// The settings for the development network.
    fn default() -> (config: Self)
        ensures
            config.network@ == "devnet"@,
            config.commitment_level == CommitmentLevel::Confirmed,
            config.compute_budget == 200_000,
            config.priority_fee == 0,
            config.has_shared_defaults(),
            config.valid(),
    {
        NetworkConfig {
            network: "devnet".to_string(),
            rpc_timeout_ms: 30000,
            max_retries: 3,
            commitment_level: CommitmentLevel::Confirmed,
            program_id: Pubkey::default(),
            model_account: Pubkey::default(),
            state_account: Pubkey::default(),
            compute_budget: 200_000,
            priority_fee: 0,
            max_tx_size: 1232,
            rate_limit: RateLimit { requests_per_second: 10, burst_size: 20, token_bucket_size: 100 },
            cooldown_period: 60_000_000_000,
            queue_size: 1000,
            batch_size: 16,
        }
    }
}

} // verus!
