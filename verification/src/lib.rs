//! Press/release resolution for rendering MIDI note streams as piano-roll
//! holes: pitch validation against the roll's playable range, pairing of
//! note-on with note-off events per hole, and the surrounding bookkeeping
//! (selector parsing, track/channel info, MIDI file message encoding).

pub mod config;
pub mod decode;
pub mod encode;
pub mod laws;
pub mod midi;
pub mod midi_impl;
pub mod note;
pub mod resolve;
