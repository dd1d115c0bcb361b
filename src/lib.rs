//! Telemetry frames: turns per-sample rows of a telemetry table into a
//! fixed-slot sequence of frames, and encodes that sequence in a compact
//! structured-text form and in a dense binary form, each of which decodes
//! back to the same sequence.
use vstd::prelude::*;

pub mod model;
pub mod builder;
pub mod binary;
pub mod text;
pub mod consistency;

pub use model::{ConvertError, DecodeError, DriverData, UpdateFrame, VisualizationData, SLOTS};
pub use builder::{build_frame, build_sequence, parse_field};
pub use binary::{decode_binary, decode_binary_expecting, encode_binary};
pub use text::{decode_text, decode_text_expecting, encode_text};
pub use consistency::{check_consistency, same_sequence, ConsistencyError};

verus! {

} // verus!
