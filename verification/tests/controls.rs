//! What the controls of the program do.

use midi_autocomplete::config::{config_path, AppConfig};
use midi_autocomplete::replay::{begin_replay, end_replay};
use midi_autocomplete::state::Note;
use midi_autocomplete::ui::{
    auto_generation_due, count_played, preferred_index, ControlView, Session, TimelineView,
};

fn note(pitch: u8, onset_ms: u64, duration_ms: u64, generated: bool) -> Note {
    Note { pitch, onset_ms, duration_ms, velocity: 80, generated }
}

fn session() -> Session<u8> {
    Session::new("Connect MIDI devices".to_string())
}

fn playing(notes: Vec<Note>) -> (Session<u8>, u64) {
    let mut session = session();
    session.shared.notes = notes;
    let generation = session.playback.begin_rendering();
    session.playback.set_player(generation, 7);
    assert!(session.playback.start_playback(generation));
    session.playback.set_timeline(generation, 1_000, 0, 5_000);
    (session, generation)
}

#[test]
fn auto_generation_waits_for_a_complete_idle_pause() {
    assert!(!auto_generation_due(799, 0, false, 1, 0));
    assert!(!auto_generation_due(800, 0, true, 1, 0));
    assert!(!auto_generation_due(800, 0, false, 1, 1));
    assert!(auto_generation_due(800, 0, false, 1, 0));
}

#[test]
fn device_selection_follows_names_after_refresh() {
    let names = vec!["Other".to_string(), "Piano".to_string()];
    assert_eq!(preferred_index(&names, Some("Piano")), Some(1));
    assert_eq!(preferred_index(&names, Some("Missing")), None);
}

#[test]
fn the_first_device_of_a_name_is_preferred() {
    let names = vec!["Piano".to_string(), "Piano".to_string()];
    assert_eq!(preferred_index(&names, Some("Piano")), Some(0));
    assert_eq!(preferred_index(&names, None), None);
    assert_eq!(preferred_index(&[], Some("Piano")), None);
}

#[test]
fn a_pause_is_not_counted_backwards() {
    assert!(!auto_generation_due(100, 2_000, false, 1, 0));
}

#[test]
fn played_notes_are_counted() {
    assert_eq!(
        count_played(&vec![note(60, 0, 1, false), note(61, 0, 1, true), note(62, 0, 1, false)]),
        2
    );
}

#[test]
fn recording_needs_devices() {
    let mut session = session();
    session.record_clicked(10);
    assert_eq!(session.shared.status, "Connect MIDI devices before recording.");
    assert!(!session.shared.capturing);
    session.devices_connected("MIDI connected. Click Rec to capture a prompt.".to_string());
    assert_eq!(session.shared.capture_generation, 1);
    session.record_clicked(20);
    assert!(session.shared.capturing);
    session.devices_refreshed(1, 2);
    assert!(!session.shared.connected);
    assert!(!session.shared.capturing);
    assert_eq!(session.shared.status, "Found 1 inputs and 2 outputs. Click Connect.");
}

#[test]
fn recording_starts_at_the_cursor_and_uses_it_up() {
    let mut session = session();
    session.devices_connected("Connected".to_string());
    session.position_clicked(400, "Position: 0.40s".to_string());
    assert_eq!(session.shared.status, "Position: 0.40s");
    session.record_clicked(1_000);
    assert_eq!(session.playhead(1_100), Some(500));
    assert_eq!(session.playback.cursor(), None);
    session.record_clicked(1_200);
    assert!(!session.shared.capturing);
    assert_eq!(session.shared.capture_position_ms, 600);
}

#[test]
fn clearing_forgets_notes_and_cursor() {
    let (mut session, _) = playing(vec![note(60, 0, 5_000, false)]);
    session.auto_resume = true;
    session.clear_clicked(2_000);
    assert!(session.shared.notes.is_empty());
    assert_eq!(session.playback.cursor(), None);
    assert!(!session.auto_resume);
    assert_eq!(session.playback.take_retired(), vec![7]);
}

#[test]
fn imports_replace_the_timeline() {
    let (mut session, _) = playing(vec![note(60, 0, 5_000, true)]);
    session.auto_resume = true;
    session.notes_imported(vec![note(62, 0, 300, false)], 2_000, "/tmp/a.mid");
    assert_eq!(session.shared.status, "Imported 1 notes from /tmp/a.mid");
    assert_eq!(session.shared.notes, vec![note(62, 0, 300, false)]);
    assert_eq!(session.shared.capture_position_ms, 300);
    assert!(!session.auto_resume);
    assert!(!session.playback.is_playing());
}

#[test]
fn exports_need_notes() {
    let mut session = session();
    assert!(!session.can_export());
    assert_eq!(session.shared.status, "Nothing to export");
    session.shared.notes = vec![note(60, 0, 1, true)];
    assert!(session.can_export());
    session.notes_exported(12, "/tmp/a.mid");
    assert_eq!(session.shared.status, "Exported 12 notes to /tmp/a.mid");
}

#[test]
fn playing_is_refused_with_a_reason() {
    let mut session = session();
    assert!(!session.may_play(""));
    assert_eq!(session.shared.status, "Choose a .sf2 SoundFont first");
    assert!(session.may_play("piano.sf2"));
    assert!(!session.has_notes());
    assert_eq!(session.shared.status, "Nothing to play");
    session.playback.begin_rendering();
    assert!(!session.may_play(""));
    assert_eq!(session.shared.status, "SoundFont is still rendering...");
    session.generation_busy = true;
    assert!(!session.may_play(""));
    assert_eq!(session.shared.status, "Wait for generation to finish");
    assert!(!session.has_soundfont(""));
    assert_eq!(session.shared.status, "Choose a .sf2 SoundFont first");
    assert!(session.has_soundfont("a.sf2"));
}

#[test]
fn pausing_freezes_and_stopping_keeps_the_place() {
    let (mut session, _) = playing(vec![note(60, 0, 5_000, false)]);
    session.pause_clicked(1_700);
    assert_eq!(session.shared.status, "Paused");
    assert_eq!(session.playback.playback_start(), Some(700));
    assert_eq!(session.shared.generation_revision, 1);
    session.pause_clicked(1_800);
    assert_eq!(session.shared.generation_revision, 1);
    session.auto_resume = true;
    session.stop_clicked(1_900);
    assert_eq!(session.shared.status, "Stopped");
    assert_eq!(session.playback.cursor(), Some(700));
    assert_eq!(session.playback.playback_start(), None);
    assert!(!session.auto_resume);
    assert_eq!(session.shared.generation_revision, 2);
}

#[test]
fn clicks_tell_whether_something_was_played() {
    let (mut session, _) = playing(vec![note(60, 0, 5_000, false)]);
    assert!(session.position_clicked(900, "Position: 0.90s".to_string()));
    assert!(!session.position_clicked(950, "Position: 0.95s".to_string()));
    assert_eq!(session.playback.cursor(), Some(950));
    assert_eq!(session.shared.generation_revision, 2);
}

#[test]
fn the_timeline_follows_the_playhead() {
    let (session, _) = playing(vec![note(60, 200, 300, false)]);
    assert_eq!(
        session.timeline_view(1_900),
        TimelineView { playhead: Some(900), bounds: Some((200, 900)), follow_playhead: true }
    );
    assert_eq!(session.click_bounds(1_900), Some((200, 900)));
}

#[test]
fn an_idle_timeline_shows_where_recording_stands() {
    let mut session = session();
    assert_eq!(
        session.timeline_view(100),
        TimelineView { playhead: None, bounds: None, follow_playhead: false }
    );
    session.shared.connected = true;
    session.shared.capture_position_ms = 40;
    assert_eq!(
        session.timeline_view(100),
        TimelineView { playhead: None, bounds: Some((40, 40)), follow_playhead: false }
    );
    assert_eq!(session.click_bounds(100), None);
    session.record_clicked(100);
    assert_eq!(session.click_bounds(130), Some((70, 70)));
}

#[test]
fn times_beyond_the_clock_matter_only_where_they_are_shown() {
    let (mut session, _) = playing(vec![note(60, u64::MAX, 1, true)]);
    session.shared.capturing = true;
    session.shared.capture_position_ms = u64::MAX;
    assert!(!session.shared.check_position(1_900));
    assert_eq!(session.playhead(1_900), Some(900));
    session.shared.capturing = false;
    session.record_clicked(1_900);
    assert_eq!(session.shared.status, "Connect MIDI devices before recording.");
    session.devices_connected("Connected".to_string());
    session.position_clicked(400, "Position: 0.40s".to_string());
    session.record_clicked(2_000);
    assert_eq!(session.shared.capture_position(2_000), 400);
}

#[test]
fn the_status_line_counts_notes() {
    let mut session = session();
    session.shared.notes = vec![note(60, 0, 1, false); 10];
    session.report("Ready".to_string());
    assert_eq!(session.status_line(), "Ready  |  10 notes");
}

#[test]
fn controls_show_what_can_be_done() {
    let (mut session, generation) = playing(vec![note(60, 0, 5_000, false)]);
    let playing = ControlView {
        record_label: "Rec",
        play_label: "Play",
        play_visible: false,
        play_sensitive: true,
        pause_visible: true,
        stop_visible: true,
        generate_sensitive: true,
    };
    assert_eq!(session.control_view(), playing);
    session.pause_clicked(1_500);
    session.generation_busy = true;
    session.shared.capturing = true;
    assert_eq!(
        session.control_view(),
        ControlView {
            record_label: "Stop Rec",
            play_label: "Resume",
            play_visible: true,
            play_sensitive: false,
            pause_visible: false,
            stop_visible: true,
            generate_sensitive: false,
        }
    );
    assert!(!session.playback.is_active(generation));
}

#[test]
fn requests_carry_the_prompt_up_to_the_playhead() {
    let (mut session, _) =
        playing(vec![note(60, 100, 50, false), note(62, 600, 50, false), note(64, 650, 5, true)]);
    let ticket = session.request_generation(1_600, false).unwrap();
    assert_eq!(ticket.notes, vec![(60, 0, 50, 80), (62, 500, 50, 80)]);
    assert_eq!(ticket.musical_start_ms, Some(600));
    assert_eq!(ticket.revision, 1);
    assert!(session.generation_busy);
    session.request_queued();
    assert_eq!(session.shared.status, "Generating...");
    assert!(session.request_generation(1_600, false).is_none());
    assert_eq!(session.shared.status, "Generation is already in progress");
    session.request_failed("Model worker stopped".to_string());
    assert!(!session.generation_busy);
    assert_eq!(session.shared.status, "Model worker stopped");
}

#[test]
fn requests_from_silence_must_be_allowed() {
    let mut session = session();
    assert!(session.request_generation(0, false).is_none());
    assert_eq!(
        session.shared.status,
        "Play at least one complete note before this position"
    );
    assert!(!session.generation_busy);
    let ticket = session.request_generation(0, true).unwrap();
    assert!(ticket.notes.is_empty());
    assert_eq!(ticket.musical_start_ms, None);
}

#[test]
fn answers_are_put_on_the_timeline() {
    let mut session = session();
    let ticket = session.request_generation(0, true).unwrap();
    assert!(session.request_is_current(ticket.revision));
    assert!(session.request_starts(ticket.revision));
    assert_eq!(session.shared.status, "Generating...");
    let start =
        session.generation_done(&vec![(60, 5, 10, 80)], ticket.musical_start_ms, 1, true);
    assert_eq!(start, Some(5));
    assert_eq!(session.shared.notes, vec![note(60, 5, 10, true)]);
    assert_eq!(session.shared.status, "Generated 1 notes. Click Play to render them.");
    assert!(session.generation_busy);
    session.request_finished();
    assert!(!session.generation_busy);
    session.generation_busy = true;
    assert_eq!(session.generation_done(&vec![(60, 5, 10, 80)], None, 1, false), None);
    assert!(!session.generation_busy);
    session.generation_busy = true;
    assert_eq!(session.generation_done(&vec![], None, 1, true), None);
    assert!(!session.generation_busy);
}

#[test]
fn recording_waits_until_the_continuation_was_played() {
    let mut session = session();
    session.devices_connected("Connected".to_string());
    session.auto_resume = true;
    let ticket = session.request_generation(0, true).unwrap();
    let start = session.generation_done(&vec![(60, 5, 10, 80)], None, ticket.revision, true);
    assert_eq!(start, Some(5));
    session.resume_recording(10);
    assert!(!session.shared.capturing);
    assert!(session.auto_resume);
    let notes = session.shared.notes.clone();
    let (generation, _) =
        begin_replay(&notes, start, &mut session.playback, &mut session.shared);
    session.request_finished();
    session.resume_recording(20);
    assert!(!session.shared.capturing);
    assert!(session.playback.start_playback(generation));
    session.resume_recording(30);
    assert!(!session.shared.capturing);
    end_replay(generation, &mut session.playback, &mut session.shared);
    session.resume_recording(40);
    assert!(session.shared.capturing);
    assert_eq!(session.shared.capture_position(40), 15);
}

#[test]
fn late_answers_are_dropped() {
    let mut session = session();
    let ticket = session.request_generation(0, true).unwrap();
    session.request_queued();
    session.shared.invalidate_generation();
    session.generation_failed(ticket.revision, "out of memory".to_string());
    assert_eq!(session.shared.status, "Generating...");
    session.generation_busy = true;
    assert_eq!(session.generation_done(&vec![(60, 5, 10, 80)], None, ticket.revision, true), None);
    assert!(session.shared.notes.is_empty());
    assert_eq!(session.shared.status, "Ready");
    assert!(!session.generation_busy);
    session.generation_busy = true;
    session.shared.capturing = true;
    session.request_queued();
    assert_eq!(session.generation_done(&vec![], None, ticket.revision, true), None);
    assert_eq!(session.shared.status, "Recording MIDI prompt...");
    session.generation_busy = true;
    session.report("Paused".to_string());
    assert_eq!(session.generation_done(&vec![], None, ticket.revision, true), None);
    assert_eq!(session.shared.status, "Paused");
    session.generation_busy = true;
    assert!(!session.request_is_current(ticket.revision));
    assert!(!session.generation_busy);
    assert!(!session.request_starts(ticket.revision));
    assert_eq!(session.shared.status, "Paused");
    let current = session.shared.generation_revision;
    session.generation_failed(current, "out of memory".to_string());
    assert_eq!(session.shared.status, "out of memory");
}

#[test]
fn the_player_is_continued_after_a_pause() {
    let mut session = session();
    session.devices_connected("Connected".to_string());
    session.record_clicked(0);
    session.shared.notes.push(note(60, 0, 100, false));
    session.shared.last_input_ms = 100;
    assert!(!session.pause_for_continuation(899, true));
    assert!(!session.pause_for_continuation(900, false));
    assert!(session.pause_for_continuation(900, true));
    assert!(!session.shared.capturing);
    assert!(session.auto_resume);
    assert_eq!(session.auto_requested_notes, 1);
    session.generation_busy = true;
    session.resume_recording(950);
    assert!(!session.shared.capturing);
    session.generation_busy = false;
    session.shared.notes.push(note(62, 900, 600, true));
    session.resume_recording(1_000);
    assert!(session.shared.capturing);
    assert!(!session.auto_resume);
    assert_eq!(session.shared.capture_position(1_000), 1_500);
    assert!(!session.pause_for_continuation(9_000, true));
    session.shared.notes.clear();
    assert!(!session.pause_for_continuation(9_000, true));
    assert_eq!(session.auto_requested_notes, 0);
}

#[test]
fn recording_does_not_resume_without_devices() {
    let mut session = session();
    session.auto_resume = true;
    session.resume_recording(10);
    assert!(!session.auto_resume);
    assert!(!session.shared.capturing);
    session.auto_resume = true;
    session.shared.connected = true;
    session.playback.seek(5);
    let generation = session.playback.begin_rendering();
    session.resume_recording(10);
    assert!(session.auto_resume);
    session.playback.finish(generation);
    session.resume_recording(20);
    assert!(session.shared.capturing);
}

#[test]
fn settings_are_kept_below_the_home_of_the_user() {
    assert_eq!(
        config_path(Some("/etc/xdg"), Some("/home/user")),
        "/etc/xdg/midi-autocomplete/config.toml"
    );
    assert_eq!(
        config_path(Some(""), Some("/home/user")),
        "/home/user/.config/midi-autocomplete/config.toml"
    );
    assert_eq!(config_path(None, Some("")), ".config/midi-autocomplete/config.toml");
    assert_eq!(config_path(None, None), "config.toml");
}

#[test]
fn remembered_devices_are_connected_again() {
    let mut config = AppConfig::default();
    let input = Some("Piano In".to_string());
    let output = Some("Piano Out".to_string());
    assert!(!config.should_connect(&None, &None));
    config.remember_devices(input.clone(), output.clone());
    assert!(config.should_connect(&input, &output));
    assert!(!config.should_connect(&output, &input));
    assert!(!config.should_connect(&input, &None));
}

#[test]
fn requests_are_remembered() {
    let mut config = AppConfig::default();
    assert_eq!(config.model_or_default(), "midilm/checkpoints/medium.pt");
    config.remember_request("/models/a.pt".to_string(), "");
    assert_eq!(config.model_or_default(), "/models/a.pt");
    assert_eq!(config.soundfont, None);
    config.remember_request("/models/b.pt".to_string(), "piano.sf2");
    assert_eq!(config.soundfont, Some("piano.sf2".to_string()));
}
