//! Temporal dithering: the frame bookkeeping, pattern tables and pixel layout logic of a
//! video filter that turns cells of pixels spread over consecutive frames into black and
//! white patterns conveying the grey level of the input.
use vstd::prelude::*;

pub mod activation;
pub mod frame_number;
pub mod frames;
pub mod pattern;
pub mod pipeline;
pub mod progress;
pub mod readback;
pub mod regex_match;
pub mod text;

verus! {

} // verus!
