//! An in-memory compressed waveform database: four-state bit-vectors and a
//! run-length encoded per-signal change history, with verified contracts.
use vstd::prelude::*;

mod bits;
pub mod bitvector;
pub mod errors;
pub mod history;
pub mod logic;
pub mod search;
pub mod signal_real;
pub mod vector;
pub mod waveform;

pub use crate::search::WaveformSearchMode;
pub use crate::waveform::{Waveform, WaveformSignalResult};
