use vstd::prelude::*;

verus! {

/// Per-transaction mainnet resource limits.
///
/// These values are periodically adjusted by network vote; the defaults are
/// those published for mainnet at the time of writing.
pub struct SorobanLimits {
    pub max_cpu_instructions: u64,
    pub max_memory_bytes: u64,
    pub max_disk_read_bytes: u64,
    pub max_disk_write_bytes: u64,
    pub max_tx_size_bytes: u64,
    pub max_events_return_bytes: u64,
}

impl Default for SorobanLimits {
    fn default() -> (limits: Self)
        ensures
            limits.max_cpu_instructions == 100_000_000,
            limits.max_memory_bytes == 40 * 1024 * 1024,
            limits.max_disk_read_bytes == 200 * 1024,
            limits.max_disk_write_bytes == 132 * 1024,
            limits.max_tx_size_bytes == 132 * 1024,
            limits.max_events_return_bytes == 16 * 1024,
    {
        SorobanLimits {
            max_cpu_instructions: 100_000_000,
            max_memory_bytes: 40 * 1024 * 1024,
            max_disk_read_bytes: 200 * 1024,
            max_disk_write_bytes: 132 * 1024,
            max_tx_size_bytes: 132 * 1024,
            max_events_return_bytes: 16 * 1024,
        }
    }
}

} // verus!
