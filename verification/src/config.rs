//! Configuration errors.
//!
//! Invalid configuration is rejected before a pipeline starts, never
//! mid-stream: every constructor and pipeline entry point reports one of
//! these values instead of running on parameters it cannot honour.

use vstd::prelude::*;

verus! {

/// Why a pipeline or filter configuration was rejected.
#[derive(Clone, Copy, PartialEq, Eq, Structural, Debug)]
pub enum ConfigError {
    /// A narrowband window size of zero.
    ZeroWindow,
    /// A narrowband window size beyond the supported maximum.
    WindowTooLarge,
    /// A correlation coefficient outside the fixed-point unit range.
    CoeffOutOfRange,
    /// An edge-filter history length of zero.
    ZeroHistory,
    /// An edge-filter history length beyond the supported maximum.
    HistoryTooLarge,
    /// An input or output sample rate of zero, or a chunk rate that
    /// truncates to zero because the window outweighs the input rate.
    ZeroRate,
    /// A conversion whose output would not fit in memory.
    OutputTooLong,
}

} // verus!
