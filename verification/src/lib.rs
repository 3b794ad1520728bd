//! Speaker Studio's verified core: transcript and session rules, text
//! cleaning, WAV framing and the selection merge.

pub mod chars;
pub mod text;
pub mod outside;
pub mod wav;
pub mod speakers;
pub mod session;
pub mod merge;
pub mod transcript;
pub mod events;
pub mod studio;
pub mod page;
pub mod capture;
pub mod peaks;
pub mod waveform;
pub mod laws;
