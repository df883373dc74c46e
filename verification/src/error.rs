//! Errors reported by the scan engine.
use vstd::prelude::*;

verus! {

/// The setting that made a configuration unusable.
#[derive(Debug, Clone, Copy, PartialEq, Eq)]
pub enum ConfigFault {
    /// The window size is zero.
    ZeroWindowSize,
    /// The number of bytes per hex row is zero.
    ZeroBytesPerRow,
    /// The signature at this position of the signature list has no bytes.
    EmptySignature(usize),
    /// The cap on the length of a printable run is below the minimum run length.
    RunLimitBelowMinimum,
}

/// Why a scan could not start or could not go on.
#[derive(Debug, Clone, PartialEq, Eq)]
pub enum ScanError {
    /// The byte source could not be opened or read.  Fatal: nothing is retried.
    SourceUnavailable { cause: String },
    /// The configuration was refused before any byte was scanned.
    InvalidConfiguration(ConfigFault),
}

} // verus!
