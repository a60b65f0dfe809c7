//! Prompts, replies and continuations.

use midi_autocomplete::generated::{add_generated, apply_generated, GeneratedUpdate};
use midi_autocomplete::model::{
    check_ready, generation_command, is_remote_url, join_path, parse_generated_notes, parse_reply,
    prompt, prompt_notes, resolve_model_path, ModelNote,
};
use midi_autocomplete::state::{Note, Shared};

fn steps_per_quarter(ms: u64, bpm: f64) -> u64 {
    let step_ms = 60_000.0 / bpm / 24.0;
    (ms as f64 / step_ms).round() as u64
}

fn quantized(notes: Vec<ModelNote>, bpm: f64) -> Vec<ModelNote> {
    notes
        .into_iter()
        .map(|(pitch, delta, duration, velocity)| {
            (pitch, steps_per_quarter(delta, bpm), steps_per_quarter(duration, bpm), velocity)
        })
        .collect()
}

fn scaled(notes: Vec<ModelNote>, bpm: f64) -> Vec<ModelNote> {
    let step_ms = 60_000.0 / bpm / 24.0;
    notes
        .into_iter()
        .map(|(pitch, delta, duration, velocity)| {
            (
                pitch,
                (delta as f64 * step_ms).round() as u64,
                (duration as f64 * step_ms).round() as u64,
                velocity,
            )
        })
        .collect()
}

#[test]
fn model_path_passes_urls_through_and_resolves_locals_from_repo_root() {
    let root = "/home/user/midi-autocomplete";
    let url = "https://huggingface.co/Grizzlykw/midilm/resolve/main/medium.resume.pt?download=true";
    assert_eq!(resolve_model_path(url, root), url);
    let missing = "midilm/checkpoints/nope.pt";
    assert_eq!(resolve_model_path(missing, root), join_path(root, "midilm/checkpoints/nope.pt"));
    assert_eq!(
        resolve_model_path(missing, root),
        "/home/user/midi-autocomplete/midilm/checkpoints/nope.pt"
    );
}

#[test]
fn generated_notes_wait_for_soundfont_playback() {
    let mut state = Shared::default();
    add_generated(&scaled(vec![(64, 0, 12, 90)], 120.0), None, &mut state);

    assert_eq!(state.notes.len(), 1);
    assert!(state.notes[0].generated);
    assert_eq!(
        state.status,
        "Generated 1 notes. Click Play to render them."
    );
}

#[test]
fn autocomplete_replaces_generated_notes_after_cursor() {
    let mut state = Shared {
        notes: vec![
            Note {
                pitch: 60,
                onset_ms: 0,
                duration_ms: 100,
                velocity: 80,
                generated: false,
            },
            Note {
                pitch: 62,
                onset_ms: 1_000,
                duration_ms: 100,
                velocity: 80,
                generated: true,
            },
        ],
        ..Default::default()
    };
    add_generated(&scaled(vec![(64, 0, 12, 90)], 120.0), Some(500), &mut state);

    assert_eq!(state.notes.len(), 2);
    assert_eq!(state.notes[1].pitch, 64);
    assert_eq!(state.notes[1].onset_ms, 500);
}

#[test]
fn prompt_stops_at_the_cursor() {
    let notes = [
        Note {
            pitch: 60,
            onset_ms: 0,
            duration_ms: 250,
            velocity: 80,
            generated: false,
        },
        Note {
            pitch: 64,
            onset_ms: 1_000,
            duration_ms: 250,
            velocity: 90,
            generated: false,
        },
    ];
    assert_eq!(prompt(&quantized(prompt_notes(&notes, Some(500)), 120.0)), "60,0,12,80");
}

#[test]
fn prompt_quantizes_at_24_steps_per_quarter() {
    let notes = [Note {
        pitch: 60,
        onset_ms: 500,
        duration_ms: 250,
        velocity: 80,
        generated: false,
    }];
    assert_eq!(prompt(&quantized(prompt_notes(&notes, None), 120.0)), "60,0,12,80");
}

fn played(pitch: u8, onset_ms: u64, duration_ms: u64) -> Note {
    Note { pitch, onset_ms, duration_ms, velocity: 80, generated: false }
}

fn made(pitch: u8, onset_ms: u64, duration_ms: u64) -> Note {
    Note { pitch, onset_ms, duration_ms, velocity: 80, generated: true }
}

#[test]
fn prompts_are_ordered_and_leave_out_generated_notes() {
    let notes = [played(64, 700, 100), made(61, 100, 100), played(67, 200, 50), played(60, 200, 20)];
    assert_eq!(
        prompt_notes(&notes, None),
        vec![(60, 0, 20, 80), (67, 0, 50, 80), (64, 500, 100, 80)]
    );
    assert_eq!(prompt_notes(&notes, Some(200)), vec![(60, 0, 20, 80), (67, 0, 50, 80)]);
    assert!(prompt_notes(&notes, Some(199)).is_empty());
}

#[test]
fn prompts_are_read_back_as_they_were_written() {
    let notes = vec![(60, 0, 0, 80), (127, 18_446_744_073_709_551_615, 7, 0)];
    let text = prompt(&notes);
    assert_eq!(text, "60,0,1,80;127,18446744073709551615,7,0");
    assert_eq!(
        parse_generated_notes(&text).unwrap(),
        vec![(60, 0, 1, 80), (127, 18_446_744_073_709_551_615, 7, 0)]
    );
    assert_eq!(prompt(&vec![]), "");
    assert_eq!(parse_generated_notes("").unwrap(), vec![]);
}

#[test]
fn notes_of_the_model_are_checked() {
    let error = |body: &str| parse_generated_notes(body).unwrap_err();
    assert_eq!(error("60,0,1"), "invalid model note");
    assert_eq!(error("60,0,1,80,5"), "invalid model note");
    assert_eq!(error("128,0,1,80"), "model pitch is outside 0..127");
    assert_eq!(error("300,0,1,80"), "model pitch is outside 0..127");
    assert_eq!(error("60,0,1,128"), "model velocity is outside 0..127");
    assert_eq!(error("60,0,x,80"), "invalid digit found in string");
    assert_eq!(error("60,-1,1,80"), "invalid digit found in string");
    assert_eq!(error("60,,1,80"), "cannot parse integer from empty string");
    assert_eq!(error("60,0,1,80;"), "cannot parse integer from empty string");
    assert_eq!(
        error("60,18446744073709551616,1,80"),
        "number too large to fit in target type"
    );
    assert_eq!(parse_generated_notes("+60,007,1,80").unwrap(), vec![(60, 7, 1, 80)]);
    assert_eq!(error("60,+,1,80"), "invalid digit found in string");
}

#[test]
fn numbers_are_read_as_the_standard_library_reads_them() {
    for text in [
        "", "+", "-", "0", "+0", "00012", "18446744073709551615", "18446744073709551616", "1 ", "١",
        "99999999999999999999x", "1x99999999999999999999", "+-1", "184467440737095516150",
    ] {
        let body = format!("1,{text},1,1");
        match text.parse::<u64>() {
            Ok(value) => assert_eq!(parse_generated_notes(&body).unwrap(), vec![(1, value, 1, 1)]),
            Err(error) => {
                assert_eq!(parse_generated_notes(&body).unwrap_err(), error.to_string())
            }
        }
    }
}

#[test]
fn replies_hold_notes_or_an_error() {
    assert_eq!(parse_reply("notes\t60,0,12,80\n").unwrap(), vec![(60, 0, 12, 80)]);
    assert_eq!(parse_reply("notes\t\n").unwrap_err(), "empty response");
    assert_eq!(parse_reply("error\tout of memory\r\n").unwrap_err(), "out of memory");
    assert_eq!(parse_reply("").unwrap_err(), "empty response");
    assert_eq!(parse_reply("notes\n").unwrap_err(), "empty response");
    assert_eq!(parse_reply("notesx\t60,0,12,80").unwrap_err(), "60,0,12,80");
    assert_eq!(parse_reply("error\ta\tb").unwrap_err(), "a\tb");
    assert_eq!(parse_reply("notes\t60,0").unwrap_err(), "invalid model note");
}

#[test]
fn the_model_announces_itself() {
    assert_eq!(check_ready("ready\tmedium.pt\n"), Ok(()));
    assert_eq!(
        check_ready("  no such file \u{2028}\n"),
        Err("Model failed to start: no such file".to_string())
    );
    assert_eq!(check_ready("ready"), Err("Model failed to start: ready".to_string()));
    assert_eq!(check_ready(""), Err("Model failed to start: ".to_string()));
}

#[test]
fn requests_ask_for_a_continuation() {
    assert_eq!(generation_command("60,0,12,80"), "generate\t32\t0.9\t16\t60,0,12,80\n");
}

#[test]
fn checkpoints_may_be_remote() {
    assert!(is_remote_url("http://host/a.pt"));
    assert!(is_remote_url("https://"));
    assert!(!is_remote_url("/http://"));
    assert!(!is_remote_url("http:/a"));
    assert_eq!(resolve_model_path("/models/a.pt", "/repo"), "/models/a.pt");
    assert_eq!(join_path("/repo/", "a"), "/repo/a");
    assert_eq!(join_path("", "a"), "a");
}

#[test]
fn continuations_start_at_the_last_played_note() {
    let mut state = Shared {
        notes: vec![played(60, 300, 100), played(62, 700, 100), made(64, 900, 100)],
        ..Default::default()
    };
    let start = add_generated(&vec![(65, 100, 50, 70), (67, 200, 0, 71)], None, &mut state);
    assert_eq!(start, Some(800));
    assert_eq!(
        state.notes,
        vec![
            played(60, 300, 100),
            played(62, 700, 100),
            Note { pitch: 65, onset_ms: 800, duration_ms: 50, velocity: 70, generated: true },
            Note { pitch: 67, onset_ms: 1_000, duration_ms: 1, velocity: 71, generated: true },
        ]
    );
    assert_eq!(state.status, "Generated 2 notes. Click Play to render them.");
}

#[test]
fn continuations_cut_what_was_generated_before() {
    let mut state =
        Shared { notes: vec![made(64, 100, 900), played(60, 0, 900)], ..Default::default() };
    assert_eq!(add_generated(&vec![], Some(500), &mut state), None);
    assert_eq!(state.notes, vec![made(64, 100, 400), played(60, 0, 900)]);
    assert_eq!(state.status, "Model generated no notes");
}

#[test]
fn generated_notes_of_one_pitch_do_not_overlap() {
    let mut state = Shared::default();
    add_generated(
        &vec![(60, 0, 500, 80), (62, 100, 500, 80), (60, 100, 500, 80), (60, 0, 500, 80)],
        Some(0),
        &mut state,
    );
    assert_eq!(
        state.notes,
        vec![made(60, 0, 200), made(62, 100, 500), made(60, 200, 1), made(60, 200, 500)]
    );
}

#[test]
fn outdated_continuations_change_nothing() {
    let mut state = Shared { generation_revision: 4, ..Default::default() };
    let generated = vec![(60, 5, 500, 80)];
    assert_eq!(apply_generated(&generated, Some(10), 3, &mut state), GeneratedUpdate::Stale);
    assert!(state.notes.is_empty());
    assert_eq!(
        apply_generated(&generated, Some(10), 4, &mut state),
        GeneratedUpdate::Applied(Some(15))
    );
    assert_eq!(state.notes, vec![made(60, 15, 500)]);
    assert_eq!(
        apply_generated(&vec![], Some(10), 4, &mut state),
        GeneratedUpdate::Applied(None)
    );
}
