//! Configuration of the engines: limits, stack size hint and PRNG seed.

use vstd::prelude::*;

verus! {

/// Configuration for the WASM ternary engine.
#[derive(Debug, Clone)]
pub struct WasmConfig {
    /// Maximum number of ternary agents (cells) the engine can hold.
    pub max_agents: usize,
    /// Maximum memory in bytes the engine may allocate.
    pub memory_limit: usize,
    /// Stack size hint for the WASM module (used by the JS host).
    pub stack_size: usize,
    /// Seed for the deterministic PRNG.
    pub prng_seed: u64,
    /// Maximum evaluation depth for cell recursion.
    pub max_eval_depth: u32,
}

/// The default configuration: 10 000 agents, 16 MiB of memory, a 64 KiB
/// stack, seed 0xDEADBEEF_CAFEBABE and an evaluation depth of 64.
pub open spec fn default_config() -> WasmConfig {
    WasmConfig {
        max_agents: 10_000,
        memory_limit: 16_777_216,
        stack_size: 65_536,
        prng_seed: 0xDEADBEEF_CAFEBABE,
        max_eval_depth: 64,
    }
}

impl Default for WasmConfig {
    fn default() -> (r: Self)
        ensures
            r == default_config(),
    {
        Self {
            max_agents: 10_000,
            memory_limit: 16 * 1024 * 1024,  // 16 MB
            stack_size: 64 * 1024,  // 64 KB
            prng_seed: 0xDEADBEEF_CAFEBABE,
            max_eval_depth: 64,
        }
    }
}

impl WasmConfig {
    /// Whether every limit lies within sane bounds.
    pub open spec fn valid(&self) -> bool {
        &&& self.max_agents > 0
        &&& self.max_agents <= 1_000_000
        &&& self.memory_limit >= 1024
        &&& self.stack_size >= 1024
        &&& self.max_eval_depth > 0
        &&& self.max_eval_depth <= 1024
    }

    /// Create a new config with a specific PRNG seed and default limits.
    pub fn with_seed(seed: u64) -> (r: Self)
        ensures
            r == (WasmConfig { prng_seed: seed, ..default_config() }),
    {
        Self { prng_seed: seed, ..Self::default() }
    }

    /// Validate configuration; returns true if all values are within sane bounds.
    pub fn is_valid(&self) -> (r: bool)
        ensures
            r == self.valid(),
    {
        self.max_agents > 0 && self.max_agents <= 1_000_000 && self.memory_limit >= 1024
            && self.stack_size >= 1024 && self.max_eval_depth > 0 && self.max_eval_depth <= 1024
    }

    /// Estimate memory usage per agent in bytes (rough): the memory limit
    /// divided by the agent limit, or by 1 when the agent limit is 0.
    pub fn bytes_per_agent(&self) -> (r: usize)
        ensures
            r == self.memory_limit / (if self.max_agents > 1 { self.max_agents } else { 1 }),
    {
        self.memory_limit / self.max_agents.max(1)
    }
}

/// The default configuration, and one made from any seed, is valid.
pub proof fn default_config_valid(seed: u64)
    ensures
        default_config().valid(),
        (WasmConfig { prng_seed: seed, ..default_config() }).valid(),
{
}

} // verus!
