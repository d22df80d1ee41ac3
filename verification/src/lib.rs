//! Read, write, and reshape precomputed audio waveform peak data in the
//! `audiowaveform` binary and JSON layouts.
use vstd::prelude::*;

pub mod bytes;
pub mod channel;
pub mod concat;
pub mod error;
pub mod generator;
pub mod header;
pub mod json;
pub mod laws;
pub mod layout;
pub mod resample;
pub mod slice;
pub mod waveform;

pub use channel::{WaveformDataChannel, WaveformDataChannelMut};
pub use error::Error;
pub use generator::{calculate_waveform_data_length, generate_peaks, PeakOptions};
pub use json::JsonWaveformData;
pub use resample::ResampleOption;
pub use waveform::WaveformData;

verus! {

} // verus!
