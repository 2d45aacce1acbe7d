//! Points in time and amounts of CPU time.

use vstd::prelude::*;

verus! {

/// A point in time, relative to the reference timestamp of the profile.
#[derive(Debug, Clone, Copy, PartialEq, Eq, PartialOrd, Ord, Hash, Structural)]
pub struct Timestamp {
    pub nanos: u64,
}

impl Timestamp {
    /// The point in time that is `nanos` nanoseconds after the reference timestamp.
    pub fn from_nanos_since_reference(nanos: u64) -> (timestamp: Self)
        ensures
            timestamp.nanos == nanos,
    {
        Timestamp { nanos }
    }
}

/// The absolute point in time that all timestamps of a profile are relative to.
#[derive(Debug, Clone, Copy, PartialEq, Eq, PartialOrd, Ord, Hash, Structural)]
pub struct ReferenceTimestamp {
    pub nanos_since_unix_epoch: u64,
}

impl ReferenceTimestamp {
    /// The point in time that is `nanos` nanoseconds after the unix epoch.
    pub fn from_nanos_since_unix_epoch(nanos: u64) -> (timestamp: Self)
        ensures
            timestamp.nanos_since_unix_epoch == nanos,
    {
        ReferenceTimestamp { nanos_since_unix_epoch: nanos }
    }
}

/// The amount of CPU time that a thread used between two samples.
#[derive(Debug, Clone, Copy, PartialEq, Eq, PartialOrd, Ord, Hash, Structural)]
pub struct CpuDelta {
    pub micros: u64,
}

impl CpuDelta {
    /// No CPU time.
    pub fn zero() -> (delta: Self)
        ensures
            delta.micros == 0,
    {
        CpuDelta { micros: 0 }
    }

    /// The amount of `micros` microseconds.
    pub fn from_micros(micros: u64) -> (delta: Self)
        ensures
            delta.micros == micros,
    {
        CpuDelta { micros }
    }
}

} // verus!
