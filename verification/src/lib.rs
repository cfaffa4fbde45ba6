//! Midi Bounce: a square that bounces on every note of a MIDI file.
//!
//! The verified core of the game: reading note times out of a Standard MIDI
//! File, planning the level by backtracking search, building index meshes,
//! and the decisions the window loop takes on input and surface events.

pub mod control;
pub mod event_bytes;
pub mod midi;
pub mod timeline_laws;
pub mod level;
pub mod mesh;
