//! Playback core of a Standard MIDI File player: turns a parsed MIDI file
//! into a time-ordered event stream, a bar (measure) map and a list of note
//! intervals, drives a play/pause/seek state machine over that stream, and
//! encodes events into raw MIDI bytes.
//!
//! All times are whole nanoseconds measured from the start of the song.

pub mod event;
pub mod order;
pub mod timing;
pub mod measures;
pub mod smf;
pub mod flatten;
pub mod notes;
pub mod engine;
pub mod page;
pub mod ui;
