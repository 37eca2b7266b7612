//! The `(timestamp index, value index)` pair of one change.
use vstd::prelude::*;

verus! {

/// One change of a signal: when it happened (an index into the timestamps)
/// and which stored value it set (an index into the signal's values).
#[derive(Clone, Copy, Debug, PartialEq, Eq, Structural)]
pub struct WaveformHistoryIndex {
    pub timestamp_index: usize,
    pub value_index: usize,
}

impl WaveformHistoryIndex {
    pub fn get_timestamp_index(&self) -> (r: usize)
        ensures
            r == self.timestamp_index,
    {
        self.timestamp_index
    }

    pub fn get_value_index(&self) -> (r: usize)
        ensures
            r == self.value_index,
    {
        self.value_index
    }
}

} // verus!
