//! Push-to-talk dictation: the verified core.
use vstd::prelude::*;

pub mod audio;
pub mod config;
pub mod editor;
pub mod extract;
pub mod fvad;
pub mod hotkey;
pub mod pipeline;
pub mod platform;
pub mod state;
pub mod terms;
pub mod vad;
pub mod winkeys;
pub mod webrtc;
pub mod wizard;
pub mod text;

verus! {

} // verus!
