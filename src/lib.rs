//! Decoding, session negotiation and playback scheduling for a relay that
//! receives PCM audio over UDP and drives a local audio sink.

pub mod wire;
pub mod session;
pub mod listener;
pub mod playback;
