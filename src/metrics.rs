//! The records that a benchmark run reports.
use vstd::prelude::*;

verus! {

/// One timed sort: which backend, how many elements of what length, time and peak memory.
pub struct RunMetrics<'a> {
    pub mode: &'a str,
    pub n: usize,
    pub len: usize,
    pub elapsed_ms: u128,
    pub peak_mem_kb: u64,
}

/// The machine a benchmark ran on.
pub struct SystemInfo {
    pub os: String,
    pub arch: String,
    pub kernel_version: Option<String>,
    pub long_os_version: Option<String>,
    pub host_name: Option<String>,
    pub total_memory_kb: u64,
    pub cpu_brand: String,
    pub cpu_frequency_mhz: u64,
    pub cpu_cores_logical: usize,
}

} // verus!
