//! Capturing what is played on an input device.

use midi_autocomplete::midi::{check_keys, note_message, silence_messages, Capture, InputSession};
use midi_autocomplete::state::{Note, Shared};

fn note(pitch: u8, onset_ms: u64, duration_ms: u64, velocity: u8) -> Note {
    Note { pitch, onset_ms, duration_ms, velocity, generated: false }
}

#[test]
fn keys_become_notes_when_they_are_let_go() {
    let mut capture = Capture::new();
    let mut shared = Shared::default();
    capture.receive(&[0x90, 60, 100], 10, &mut shared);
    assert!(shared.notes.is_empty());
    assert!(capture.is_sounding());
    capture.receive(&[0x85, 60, 64], 250, &mut shared);
    assert_eq!(shared.notes, vec![note(60, 10, 240, 100)]);
    assert!(!capture.is_sounding());
}

#[test]
fn silent_strikes_let_go_and_every_note_lasts() {
    let mut capture = Capture::new();
    let mut shared = Shared::default();
    capture.receive(&[0x91, 60, 1], 10, &mut shared);
    capture.receive(&[0x9f, 60, 0], 10, &mut shared);
    assert_eq!(shared.notes, vec![note(60, 10, 1, 1)]);
}

#[test]
fn striking_a_held_key_ends_its_note() {
    let mut capture = Capture::new();
    let mut shared = Shared::default();
    capture.receive(&[0x90, 60, 100], 0, &mut shared);
    capture.receive(&[0x90, 60, 50], 30, &mut shared);
    capture.finish(60, 50, &mut shared);
    capture.finish(61, 50, &mut shared);
    assert_eq!(shared.notes, vec![note(60, 0, 30, 100), note(60, 30, 20, 50)]);
}

#[test]
fn the_sustain_pedal_prolongs_notes() {
    let mut capture = Capture::new();
    let mut shared = Shared::default();
    capture.receive(&[0xb0, 64, 127], 0, &mut shared);
    capture.receive(&[0x90, 62, 90], 0, &mut shared);
    capture.receive(&[0x90, 60, 100], 10, &mut shared);
    capture.receive(&[0x80, 60, 0], 100, &mut shared);
    assert!(shared.notes.is_empty());
    capture.receive(&[0xb0, 64, 63], 400, &mut shared);
    assert_eq!(shared.notes, vec![note(60, 10, 390, 100)]);
    assert!(capture.is_sounding());
    capture.receive(&[0x80, 62, 0], 500, &mut shared);
    assert_eq!(shared.notes, vec![note(60, 10, 390, 100), note(62, 0, 500, 90)]);
}

#[test]
fn every_strike_becomes_one_note() {
    let mut capture = Capture::new();
    let mut shared = Shared::default();
    let strikes = [[0x90, 60, 1], [0x90, 62, 1], [0x90, 60, 2], [0x90, 64, 3]];
    capture.receive(&[0xb0, 64, 127], 0, &mut shared);
    for message in strikes {
        capture.receive(&message, 5, &mut shared);
        capture.receive(&[0x80, message[1], 0], 6, &mut shared);
    }
    let held = capture.held.iter().filter(|key| key.is_some()).count();
    assert_eq!(shared.notes.len() + held, strikes.len());
    capture.receive(&[0xb0, 64, 0], 9, &mut shared);
    assert!(!capture.is_sounding());
    assert_eq!(shared.notes.len(), strikes.len());
}

#[test]
fn other_messages_are_ignored() {
    let mut capture = Capture::new();
    let mut shared = Shared::default();
    capture.receive(&[0x90, 60], 0, &mut shared);
    capture.receive(&[], 0, &mut shared);
    capture.receive(&[0xb0, 7, 127], 0, &mut shared);
    capture.receive(&[0xe0, 0, 64], 0, &mut shared);
    assert!(!capture.is_sounding());
    assert!(!capture.sustain);
    assert!(shared.notes.is_empty());
}

#[test]
fn messages_count_only_while_recording() {
    let mut input = InputSession::new();
    let mut shared = Shared::default();
    input.receive(&[0x90, 60, 100], 5, &mut shared);
    assert!(!input.capture.is_sounding());
    assert!(shared.toggle_capture(1_000, Some(300)));
    input.receive(&[0x90, 60, 100], 1_100, &mut shared);
    assert!(shared.input_active);
    assert_eq!(shared.last_input_ms, 1_100);
    input.receive(&[0x80, 60, 0], 1_150, &mut shared);
    assert_eq!(shared.notes, vec![note(60, 400, 50, 100)]);
    assert!(!shared.input_active);
    assert_eq!(shared.last_input_ms, 1_150);
}

#[test]
fn silence_is_counted_from_the_end_of_sustain() {
    let mut input = InputSession::new();
    let mut shared = Shared::default();
    assert!(shared.toggle_capture(0, None));
    input.receive(&[0xb0, 64, 127], 10, &mut shared);
    assert!(!shared.input_active);
    assert_eq!(shared.last_input_ms, 0);
    input.receive(&[0x90, 60, 100], 20, &mut shared);
    input.receive(&[0x80, 60, 0], 30, &mut shared);
    assert!(shared.input_active);
    input.receive(&[0xb0, 64, 0], 900, &mut shared);
    assert!(!shared.input_active);
    assert_eq!(shared.last_input_ms, 900);
    input.receive(&[0xe0, 0, 64], 2_000, &mut shared);
    assert_eq!(shared.last_input_ms, 900);
}

#[test]
fn held_keys_are_forgotten_when_recording_moves_on() {
    let mut input = InputSession::new();
    let mut shared = Shared::default();
    assert!(shared.toggle_capture(0, None));
    input.receive(&[0x90, 60, 100], 20, &mut shared);
    shared.clear_timeline(30);
    input.receive(&[0x80, 60, 0], 40, &mut shared);
    assert!(shared.notes.is_empty());
    assert_eq!(input.capture_generation, 2);
}

#[test]
fn outputs_are_silenced_with_two_messages() {
    assert_eq!(silence_messages(), [[0xb0, 120, 0], [0xb0, 123, 0]]);
    assert_eq!(note_message(true, 60, 80), [0x90, 60, 80]);
    assert_eq!(note_message(false, 60, 0), [0x80, 60, 0]);
}

#[test]
fn keys_that_do_not_exist_are_noticed() {
    assert!(check_keys(&[0x90, 127, 1]));
    assert!(!check_keys(&[0x90, 128, 1]));
    assert!(!check_keys(&[0x8f, 200, 0]));
    assert!(check_keys(&[0xb0, 200, 0]));
    assert!(check_keys(&[0x90, 200]));
}
