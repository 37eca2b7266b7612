//! The errors that signal updates report.
use vstd::prelude::*;

verus! {

/// Why a waveform operation was refused.
#[derive(Clone, Copy, Debug, PartialEq, Eq, Structural)]
pub enum WaveformError {
    /// A timestamp earlier than the last one.
    DecreasingTimestamp { timestamp: u64 },
    /// No signal has this id.
    InvalidId { id: usize },
    /// A value wider than its signal.
    InvalidWidth { id: usize, expected: usize, actual: usize },
    /// Shards whose timestamps differ.
    MismatchedTimestamps,
}

/// The result of a waveform operation.
pub type WaveformResult<T> = Result<T, WaveformError>;

} // verus!
