use vstd::prelude::*;

verus! {

/// The engine's settings; app/ reads them from a TOML document.
#[derive(Clone, Debug)]
pub struct Config {
    pub network: NetworkConfig,
    pub contracts: ContractsConfig,
    pub sync: SyncConfig,
    pub matching: MatchingConfig,
    pub executor: ExecutorConfig,
}

#[derive(Clone, Debug)]
pub struct NetworkConfig {
    /// The WebSocket endpoint.
    pub rpc_url: String,
    pub chain_id: u64,
}

/// Hex addresses of the contracts.
#[derive(Clone, Debug)]
pub struct ContractsConfig {
    pub sequencer: String,
    pub orderbook: String,
    pub account: String,
}

#[derive(Clone, Copy, Debug, PartialEq, Eq, Structural)]
pub struct SyncConfig {
    /// Zero: start at the latest block.
    pub start_block: u64,
    pub sync_historical: bool,
}

#[derive(Clone, Copy, Debug, PartialEq, Eq, Structural)]
pub struct MatchingConfig {
    pub max_batch_size: usize,
    pub matching_interval_ms: u64,
}

#[derive(Clone, Debug)]
pub struct ExecutorConfig {
    pub private_key: String,
    pub gas_price_gwei: u64,
    pub gas_limit: u64,
}

/// Wei in one gwei.
pub const WEI_PER_GWEI: u64 = 1_000_000_000;

impl ExecutorConfig {
    /// The gas price of a batch transaction in wei; `None` where it does not fit in 64 bits.
    pub fn gas_price_wei(&self) -> (r: Option<u64>)
        ensures
            r == if self.gas_price_gwei * WEI_PER_GWEI <= u64::MAX {
                Some((self.gas_price_gwei * WEI_PER_GWEI) as u64)
            } else {
                None::<u64>
            },
    {
        self.gas_price_gwei.checked_mul(WEI_PER_GWEI)
    }
}

} // verus!
