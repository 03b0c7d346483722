//! Errors reported by the sample-rate converter.

use vstd::prelude::*;

verus! {

/// Failures of the converter.  All of them are construction-time
/// configuration errors: once a converter has been built, processing
/// itself cannot fail.
#[derive(Debug, Clone, Copy, PartialEq, Eq, Structural)]
pub enum Error {
    /// Placeholder for an absent error.
    NoError,
    /// A sampling rate was zero.
    BadRate,
    /// The channel count was zero.
    BadChannels,
    /// The filter bank was empty, its length was not a multiple of the
    /// filter length, or the filter offset was out of range.
    BadFilter,
    /// The configuration was so large that internal index arithmetic
    /// could overflow the machine word.
    TooLarge,
}

} // verus!
