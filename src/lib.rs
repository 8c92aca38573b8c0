//! Animation model for a 5x5 LED matrix: frames, the `.byte` text format,
//! and a poll-driven playback clock.
use vstd::prelude::*;

pub mod frame;
pub mod text;
pub mod document;
pub mod laws;

verus! {

} // verus!
