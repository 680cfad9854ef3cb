use vstd::prelude::*;

verus! {

/// Reasons for which a configuration is refused at construction time.
#[derive(Debug, Clone, Copy, PartialEq, Eq, Structural)]
pub enum ConfigError {
    ZeroWindowSize,
    ZeroHopSize,
    HopSizeTooLarge,
    ZeroDownsampling,
    WindowSizeNotDivisible,
    HopSizeNotDivisible,
    LagCountTooLarge,
    /// The autocorrelation would need a transform larger than the spectral
    /// kernel supports.
    WindowTooLarge,
}

} // verus!
