//! The recorder, the playhead and the timeline.

use midi_autocomplete::playback::{PlaybackControl, PlaybackPhase};
use midi_autocomplete::replay::{
    begin_replay, check_render, end_replay, fail_replay, interleave, render_plan,
    replay_events_from, replay_start, run_replay, shift_events, MidiSender, RenderStep, SendStep,
};
use midi_autocomplete::state::{check_ends, first_onset, last_end, Note, Shared};
use midi_autocomplete::timeline::{seek_position, timeline_bounds};

fn note(pitch: u8, onset_ms: u64, duration_ms: u64, generated: bool) -> Note {
    Note { pitch, onset_ms, duration_ms, velocity: 80, generated }
}

#[test]
fn playhead_maps_wall_time_to_musical_time() {
    let mut playback: PlaybackControl<u8> = PlaybackControl::default();
    let generation = playback.begin_rendering();
    assert!(playback.start_playback(generation));
    playback.set_timeline(generation, 1_000, 500, 900);
    assert_eq!(playback.position(1_200), Some(700));
    assert_eq!(playback.position(2_000), Some(900));
    playback.finish(generation);
    assert_eq!(playback.position(2_000), None);
}

#[test]
fn soundfont_rendering_is_not_playback() {
    let mut playback: PlaybackControl<u8> = PlaybackControl::default();
    let generation = playback.begin_rendering();
    assert!(playback.is_rendering());
    assert!(!playback.is_playing());

    assert!(playback.start_playback(generation));
    assert!(!playback.is_rendering());
    assert!(playback.is_playing());
}

#[test]
fn pause_and_seek_preserve_the_cursor() {
    let mut playback: PlaybackControl<u8> = PlaybackControl::default();
    let generation = playback.begin_rendering();
    assert!(playback.start_playback(generation));
    playback.set_timeline(generation, 1_000, 500, 2_000);

    assert!(playback.pause(1_250));
    assert_eq!(playback.cursor(), Some(750));
    assert!(playback.is_paused());
    assert!(!playback.is_playing());

    assert!(!playback.seek(1_500));
    assert_eq!(playback.cursor(), Some(1_500));
    assert!(playback.is_paused());
}

#[test]
fn timeline_bounds_include_playhead() {
    let notes = [Note {
        pitch: 60,
        onset_ms: 500,
        duration_ms: 250,
        velocity: 80,
        generated: false,
    }];
    assert_eq!(timeline_bounds(&notes, Some(1_000)), Some((500, 1_000)));
}

#[test]
fn recording_resumes_from_its_frozen_position() {
    let mut state = Shared::default();
    assert!(state.toggle_capture(100, None));
    assert_eq!(state.capture_position(250), 150);
    assert!(!state.toggle_capture(250, None));
    assert_eq!(state.capture_position(5_000), 150);
    assert!(state.toggle_capture(5_000, None));
    assert_eq!(state.capture_position(5_100), 250);
    assert_eq!(state.capture_generation, 3);
}

#[test]
fn recording_starts_from_the_selected_timeline_position() {
    let mut state = Shared {
        notes: vec![Note {
            pitch: 60,
            onset_ms: 1_000,
            duration_ms: 500,
            velocity: 80,
            generated: false,
        }],
        ..Default::default()
    };

    assert!(state.toggle_capture(100, Some(250)));
    assert_eq!(state.capture_position(200), 350);
}

#[test]
fn replay_normalizes_the_musical_timeline() {
    let notes = [
        Note {
            pitch: 60,
            onset_ms: 500,
            duration_ms: 250,
            velocity: 80,
            generated: false,
        },
        Note {
            pitch: 64,
            onset_ms: 1_000,
            duration_ms: 100,
            velocity: 90,
            generated: true,
        },
    ];
    assert_eq!(
        replay_events_from(&notes, 500).unwrap(),
        vec![
            (100, true, 60, 80),
            (350, false, 60, 0),
            (600, true, 64, 90),
            (700, false, 64, 0),
        ]
    );
}

#[test]
fn replay_from_cursor_clips_notes_already_in_progress() {
    let notes = [
        Note {
            pitch: 60,
            onset_ms: 500,
            duration_ms: 500,
            velocity: 80,
            generated: false,
        },
        Note {
            pitch: 64,
            onset_ms: 1_200,
            duration_ms: 100,
            velocity: 90,
            generated: true,
        },
    ];
    assert_eq!(
        replay_events_from(&notes, 750).unwrap(),
        vec![
            (100, true, 60, 80),
            (350, false, 60, 0),
            (550, true, 64, 90),
            (650, false, 64, 0),
        ]
    );
}

#[test]
fn stop_cancels_scheduled_midi_without_waiting() {
    let mut playback: PlaybackControl<u8> = PlaybackControl::default();
    let generation = playback.begin_rendering();
    assert!(playback.start_playback(generation));
    assert!(playback.is_playing());
    playback.stop(0);
    assert!(!playback.is_playing());
    let mut sender = MidiSender::new(vec![(10_000, true, 60, 80)]);
    assert_eq!(sender.step(playback.is_active(generation), 100), SendStep::Cancel);
}

#[test]
fn recording_resumes_behind_the_last_note() {
    let mut state = Shared { notes: vec![note(60, 1_000, 500, true)], ..Default::default() };
    assert!(state.toggle_capture(10, None));
    assert_eq!(state.capture_position(10), 1_500);
    assert_eq!(state.status, "Recording MIDI prompt...");
    assert!(!state.toggle_capture(30, None));
    assert_eq!(state.status, "Recording stopped.");
    assert_eq!(state.capture_position_ms, 1_520);
    assert_eq!(state.generation_revision, 2);
    assert_eq!(state.last_input_ms, 30);
}

#[test]
fn clearing_resets_the_notes_and_the_position() {
    let mut state = Shared { notes: vec![note(60, 1_000, 500, false)], ..Default::default() };
    assert!(state.toggle_capture(0, None));
    state.clear_timeline(700);
    assert!(state.notes.is_empty());
    assert_eq!(state.capture_position(700), 0);
    assert!(state.capturing);
    assert_eq!(state.capture_generation, 2);
    assert_eq!(state.generation_revision, 2);
}

#[test]
fn replacing_notes_freezes_recording_at_their_end() {
    let mut state = Shared::default();
    assert!(state.toggle_capture(0, None));
    state.replace_notes(vec![note(60, 0, 300, false), note(62, 100, 50, false)], 40);
    assert!(!state.capturing);
    assert_eq!(state.capture_position(9_999), 300);
    assert_eq!(state.notes.len(), 2);
    state.replace_notes(Vec::new(), 50);
    assert_eq!(state.capture_position(9_999), 0);
}

#[test]
fn every_change_outdates_the_continuation() {
    let mut state = Shared { generation_revision: u64::MAX, ..Default::default() };
    assert!(state.generation_is_current(u64::MAX));
    assert_eq!(state.invalidate_generation(), 0);
    assert!(!state.generation_is_current(u64::MAX));
    state.add_input_note(note(60, 0, 10, false));
    assert!(state.generation_is_current(1));
    assert_eq!(state.notes, vec![note(60, 0, 10, false)]);
}

#[test]
fn ends_and_onsets_of_a_timeline() {
    let notes = [note(60, 500, 100, false), note(61, 200, 900, true)];
    assert_eq!(last_end(&notes), 1_100);
    assert_eq!(first_onset(&notes), Some(200));
    assert_eq!(last_end(&[]), 0);
    assert_eq!(first_onset(&[]), None);
    assert!(check_ends(&notes));
    assert!(!check_ends(&[note(60, u64::MAX, 1, false)]));
    assert!(check_ends(&[note(60, u64::MAX - 1, 1, false)]));
    let recording =
        Shared { capturing: true, capture_position_ms: u64::MAX - 5, ..Default::default() };
    assert!(recording.check_position(5));
    assert!(!recording.check_position(6));
}

#[test]
fn bounds_of_an_empty_timeline() {
    assert_eq!(timeline_bounds(&[], None), None);
    assert_eq!(timeline_bounds(&[], Some(70)), Some((70, 70)));
    assert_eq!(timeline_bounds(&[note(60, 20, 5, false)], None), Some((20, 25)));
    assert_eq!(timeline_bounds(&[note(60, 20, 5, false)], Some(3)), Some((20, 25)));
}

#[test]
fn clicks_select_a_position_within_the_bounds() {
    assert_eq!(seek_position((500, 1_000), 125), 625);
    assert_eq!(seek_position((500, 1_000), 9_000), 1_000);
    assert_eq!(seek_position((500, 1_000), u64::MAX), 1_000);
}

#[test]
fn stopping_keeps_the_cursor_for_the_next_request() {
    let mut playback: PlaybackControl<u8> = PlaybackControl::default();
    let generation = playback.begin_rendering();
    playback.set_player(generation, 7);
    assert!(playback.start_playback(generation));
    playback.set_timeline(generation, 100, 0, 1_000);
    playback.stop(350);
    assert_eq!(playback.cursor(), Some(250));
    assert_eq!(playback.playback_start(), None);
    assert_eq!(playback.take_retired(), vec![7]);
    assert!(playback.take_retired().is_empty());
    playback.stop(900);
    assert_eq!(playback.cursor(), Some(250));
}

#[test]
fn a_new_run_ends_the_one_before() {
    let mut playback: PlaybackControl<u8> = PlaybackControl::default();
    let first = playback.begin_rendering();
    playback.set_player(first, 1);
    let second = playback.begin_rendering();
    assert_eq!(playback.take_retired(), vec![1]);
    assert!(!playback.is_active(first));
    assert!(playback.is_active(second));
    assert!(!playback.start_playback(first));
    playback.set_player(first, 2);
    assert_eq!(playback.take_retired(), vec![2]);
    playback.set_timeline(first, 0, 0, 10);
    assert!(playback.start_playback(second));
    assert_eq!(playback.position(5), None);
    assert!(!playback.pause(5));
    playback.finish(first);
    assert!(playback.is_playing());
}

#[test]
fn seeking_while_playing_restarts_at_the_new_place() {
    let mut playback: PlaybackControl<u8> = PlaybackControl::default();
    let generation = playback.begin_rendering();
    assert!(playback.start_playback(generation));
    assert!(playback.seek(40));
    assert_eq!(playback.state.phase, PlaybackPhase::Idle);
    assert_eq!(playback.playback_start(), Some(40));
    playback.reset();
    assert_eq!(playback.cursor(), None);
    assert_eq!(playback.playback_start(), None);
}

#[test]
fn replay_refuses_what_it_cannot_play() {
    assert_eq!(
        replay_events_from(&[note(60, 0, 100, false)], 100).unwrap_err(),
        "Nothing to play from this position"
    );
    assert_eq!(
        replay_events_from(&[], 0).unwrap_err(),
        "Nothing to play from this position"
    );
    assert_eq!(
        replay_events_from(&[note(60, 300_000, 1, false)], 0).unwrap_err(),
        "Playback is limited to five minutes. Clear older notes first."
    );
    assert_eq!(
        replay_events_from(&[note(60, 299_999, 1, false)], 0).unwrap(),
        vec![(300_099, true, 60, 80), (300_100, false, 60, 0)]
    );
}

#[test]
fn notes_end_before_others_start_at_the_same_time() {
    let notes = [note(60, 0, 100, false), note(60, 100, 100, false)];
    assert_eq!(
        replay_events_from(&notes, 0).unwrap(),
        vec![(100, true, 60, 80), (200, false, 60, 0), (200, true, 60, 80), (300, false, 60, 0)]
    );
}

#[test]
fn playback_starts_at_the_first_note_unless_told_otherwise() {
    let notes = [note(60, 900, 100, false), note(62, 400, 100, false)];
    assert_eq!(replay_start(&notes, None), 400);
    assert_eq!(replay_start(&notes, Some(7)), 7);
    assert_eq!(replay_start(&[], None), 0);
}

#[test]
fn messages_are_sent_at_their_time() {
    let mut sender = MidiSender::new(vec![(50, true, 60, 80), (60, false, 60, 0)]);
    assert_eq!(sender.step(true, 20), SendStep::Wait(10));
    assert_eq!(sender.step(true, 47), SendStep::Wait(3));
    assert_eq!(sender.step(true, 50), SendStep::Send([0x90, 60, 80]));
    assert_eq!(sender.step(true, 70), SendStep::Send([0x80, 60, 0]));
    assert_eq!(sender.step(true, 70), SendStep::Done);
    assert_eq!(sender.step(false, 70), SendStep::Done);
}

#[test]
fn rendering_covers_every_sample() {
    let plan = render_plan(&[(100, true, 60, 100), (350, false, 60, 0)]);
    assert_eq!(plan.sample_count, 112_800);
    assert_eq!(
        plan.steps,
        vec![
            RenderStep::Render { from: 0, to: 4_800 },
            RenderStep::NoteOn { pitch: 60, velocity: 100 },
            RenderStep::Render { from: 4_800, to: 16_800 },
            RenderStep::NoteOff { pitch: 60 },
            RenderStep::Render { from: 16_800, to: 112_800 },
        ]
    );
    let silence = render_plan(&[]);
    assert_eq!(silence.sample_count, 96_000);
    assert_eq!(silence.steps, vec![RenderStep::Render { from: 0, to: 96_000 }]);
}

#[test]
fn only_events_within_reach_can_be_rendered() {
    assert!(check_render(&[]));
    assert!(check_render(&[(100, true, 60, 100), (350, false, 60, 0)]));
    assert!(check_render(&[(2_350, true, 60, 100), (350, false, 60, 0)]));
    assert!(!check_render(&[(2_351, true, 60, 100), (350, false, 60, 0)]));
    assert!(!check_render(&[(u64::MAX, true, 60, 100)]));
}

#[test]
fn channels_are_interleaved() {
    assert_eq!(interleave(&[1.0, 2.0], &[3.0, 4.0]), vec![1.0, 3.0, 2.0, 4.0]);
    assert_eq!(interleave(&[1, 2, 3], &[4]), vec![1, 4]);
}

#[test]
fn events_are_shifted_to_wall_time() {
    assert_eq!(
        shift_events(&vec![(100, true, 60, 80), (350, false, 60, 0)], 1_000),
        vec![(1_100, true, 60, 80), (1_350, false, 60, 0)]
    );
}

#[test]
fn a_run_goes_from_rendering_to_its_end() {
    let notes = [note(60, 500, 250, false)];
    let mut playback: PlaybackControl<u8> = PlaybackControl::default();
    let mut shared = Shared::default();
    let (generation, start) = begin_replay(&notes, None, &mut playback, &mut shared);
    assert_eq!(start, 500);
    assert_eq!(shared.status, "Rendering SoundFont...");
    let events = replay_events_from(&notes, start).unwrap();
    assert!(playback.start_playback(generation));
    let messages =
        run_replay(&notes, start, &events, generation, 2_000, &mut playback, &mut shared);
    assert_eq!(messages, Some(vec![(2_100, true, 60, 80), (2_350, false, 60, 0)]));
    assert_eq!(shared.status, "Playing 1 notes");
    assert_eq!(playback.position(2_150), Some(550));
    end_replay(generation, &mut playback, &mut shared);
    assert_eq!(shared.status, "Ready");
    assert_eq!(playback.state.phase, PlaybackPhase::Idle);
}

#[test]
fn nothing_is_sent_before_a_run_is_rendered() {
    let notes = [note(60, 500, 250, false)];
    let mut playback: PlaybackControl<u8> = PlaybackControl::default();
    let mut shared = Shared::default();
    let (generation, start) = begin_replay(&notes, None, &mut playback, &mut shared);
    let events = replay_events_from(&notes, start).unwrap();
    assert!(playback.is_active(generation));
    assert!(!playback.is_run_playing(generation));
    let messages =
        run_replay(&notes, start, &events, generation, 2_000, &mut playback, &mut shared);
    assert_eq!(messages, None);
    assert_eq!(shared.status, "Rendering SoundFont...");
    assert!(playback.start_playback(generation));
    assert!(playback.is_run_playing(generation));
    assert!(!playback.is_run_playing(generation + 1));
    let messages =
        run_replay(&notes, start, &events, generation, 2_000, &mut playback, &mut shared);
    assert_eq!(messages.map(|messages| messages.len()), Some(2));
}

#[test]
fn ended_runs_do_not_go_on() {
    let mut playback: PlaybackControl<u8> = PlaybackControl::default();
    let first = playback.begin_rendering();
    assert!(playback.start_playback(first));
    playback.finish(first);
    assert!(!playback.start_playback(first));
    playback.seek(10);
    let second = playback.begin_rendering();
    assert!(!playback.start_playback(first));
    playback.stop(20);
    assert!(!playback.start_playback(second));
    assert!(!playback.is_active(first));
    assert!(!playback.is_active(second));
}

#[test]
fn a_run_that_is_over_changes_nothing() {
    let notes = [note(60, 500, 250, false)];
    let mut playback: PlaybackControl<u8> = PlaybackControl::default();
    let mut shared = Shared::default();
    let (generation, start) = begin_replay(&notes, Some(600), &mut playback, &mut shared);
    assert_eq!(start, 600);
    playback.stop(0);
    shared.status = "Stopped".to_string();
    let messages = run_replay(&notes, start, &vec![], generation, 0, &mut playback, &mut shared);
    assert_eq!(messages, None);
    fail_replay(generation, "No device".to_string(), &mut playback, &mut shared);
    end_replay(generation, &mut playback, &mut shared);
    assert_eq!(shared.status, "Stopped");
}

#[test]
fn a_failed_run_shows_its_error() {
    let mut playback: PlaybackControl<u8> = PlaybackControl::default();
    let mut shared = Shared::default();
    let (generation, _) = begin_replay(&[], None, &mut playback, &mut shared);
    fail_replay(generation, "No device".to_string(), &mut playback, &mut shared);
    assert_eq!(shared.status, "No device");
    assert!(!playback.is_rendering());
}
