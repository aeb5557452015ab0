//! What construction and lookups refuse.

use vstd::prelude::*;

verus! {

/// Why a configuration was refused.
#[derive(Clone, Copy, Debug, PartialEq, Eq, Structural)]
pub enum ConfigError {
    /// The radius is zero: cells would have no size.
    ZeroRadius,
    /// No candidate would be thrown in a step.
    ZeroSamples,
    /// The width or the height is zero: the domain holds no point.
    EmptyDomain,
    /// The area of the domain is above `MAX_AREA`.
    DomainTooLarge,
}

/// A lookup past the end of the samples.
#[derive(Clone, Copy, Debug, PartialEq, Eq, Structural)]
pub struct OutOfRange {
    /// The position that was asked for.
    pub index: usize,
    /// The number of samples at the time.
    pub len: usize,
}

} // verus!
