//! Lyric parsing, timing and matching for a desktop lyrics overlay.
use vstd::prelude::*;

pub mod text;
pub mod timestamp;
pub mod lyrics;
pub mod lrc;
pub mod yrc;
pub mod progress;
pub mod display;
pub mod track;
pub mod matching;
pub mod color;
pub mod settings;
pub mod source;
pub mod cache;
pub mod icon;

verus! {

} // verus!
