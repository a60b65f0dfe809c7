//! The logic of a piano continuation recorder: capturing MIDI input, keeping the note
//! timeline, talking to the continuation model, and planning playback.

pub mod config;
pub mod generated;
pub mod headers;
pub mod keys;
pub mod midi;
pub mod midi_export;
pub mod midi_file;
pub mod midi_roundtrip;
pub mod midi_timing;
pub mod model;
pub mod order;
pub mod performance;
pub mod playback;
pub mod replay;
pub mod smf;
pub mod state;
pub mod text;
pub mod timeline;
pub mod ui;
