//! Importing and exporting standard MIDI files.

use midi_autocomplete::headers::{check_headers, find_unreadable_header};
use midi_autocomplete::keys::HeldNote;
use midi_autocomplete::midi_export::{encode_midi, GridNote};
use midi_autocomplete::midi_file::{
    apply_midi_event, check_file_size, decode_checked, decode_midi, import_file,
    MAX_MIDI_FILE_BYTES,
};
use midi_autocomplete::smf::{
    parse_midi, EventKind, FileEvent, FileFormat, FileHeader, FileTiming, MidiFile, MidiMessage,
};
use midi_autocomplete::state::Note;

const END: [u8; 4] = [0x00, 0xff, 0x2f, 0x00];
const TEMPO_HALF: [u8; 7] = [0x00, 0xff, 0x51, 0x03, 0x07, 0xa1, 0x20];

fn file(format: u8, division: [u8; 2], tracks: &[Vec<u8>]) -> Vec<u8> {
    let mut bytes = b"MThd\0\0\0\x06\0".to_vec();
    bytes.push(format);
    bytes.extend([0, tracks.len() as u8]);
    bytes.extend(division);
    for track in tracks {
        bytes.extend(b"MTrk");
        bytes.extend((track.len() as u32).to_be_bytes());
        bytes.extend(track);
    }
    bytes
}

fn track(parts: &[&[u8]]) -> Vec<u8> {
    parts.concat()
}

fn note(pitch: u8, onset_ms: u64, duration_ms: u64, velocity: u8) -> Note {
    Note { pitch, onset_ms, duration_ms, velocity, generated: false }
}

fn notes_of(bytes: &[u8]) -> Vec<Note> {
    decode_midi(bytes).ok().unwrap().notes
}

fn error_of(bytes: &[u8]) -> String {
    decode_midi(bytes).err().unwrap()
}

fn grid(pitch: u8, onset_ticks: u64, duration_ticks: u64, velocity: u8) -> GridNote {
    GridNote { pitch, onset_ticks, duration_ticks, velocity }
}

#[test]
fn notes_are_read_from_a_file() {
    let bytes = file(
        0,
        [0, 24],
        &[track(&[&TEMPO_HALF, &[0, 0x90, 60, 80], &[24, 0x80, 60, 0], &END])],
    );
    let midi = decode_midi(&bytes).ok().unwrap();
    assert_eq!(midi.notes, vec![note(60, 0, 500, 80)]);
    assert_eq!(midi.tempo_us, 500_000);
}

#[test]
fn files_without_a_tempo_have_the_usual_one() {
    let bytes = file(0, [0, 24], &[track(&[&[12, 0x90, 60, 80], &[24, 60, 0], &END])]);
    let midi = decode_midi(&bytes).ok().unwrap();
    assert_eq!(midi.notes, vec![note(60, 250, 500, 80)]);
    assert_eq!(midi.tempo_us, 500_000);
}

#[test]
fn tempo_changes_apply_from_their_tick_on() {
    let slower = [24, 0xff, 0x51, 0x03, 0x0f, 0x42, 0x40];
    let bytes = file(
        0,
        [0, 24],
        &[track(&[
            &[0, 0x90, 60, 80],
            &slower,
            &[24, 0x80, 60, 0],
            &[0, 0x90, 62, 70],
            &[24, 0x80, 62, 0],
            &END,
        ])],
    );
    let midi = decode_midi(&bytes).ok().unwrap();
    assert_eq!(midi.notes, vec![note(60, 0, 1_500, 80), note(62, 1_500, 1_000, 70)]);
    assert_eq!(midi.tempo_us, 1_000_000);
}

#[test]
fn parallel_tracks_are_merged_with_the_tempo_first() {
    let notes = track(&[&[24, 0x91, 60, 80], &[24, 0x81, 60, 0], &END]);
    let tempo = track(&[&[24, 0xff, 0x51, 0x03, 0x0f, 0x42, 0x40], &END]);
    let more = track(&[&[0, 0x92, 60, 50], &[24, 0x82, 60, 0], &END]);
    let bytes = file(1, [0, 24], &[notes, tempo, more]);
    assert_eq!(notes_of(&bytes), vec![note(60, 0, 500, 50), note(60, 500, 1_000, 80)]);
}

#[test]
fn sustain_is_folded_into_durations() {
    let bytes = file(
        0,
        [0, 24],
        &[track(&[
            &[0, 0xb0, 64, 127],
            &[0, 0x90, 60, 80],
            &[24, 0x80, 60, 0],
            &[24, 0xb0, 64, 0],
            &END,
        ])],
    );
    assert_eq!(notes_of(&bytes), vec![note(60, 0, 1_000, 80)]);
}

#[test]
fn pedals_of_other_channels_do_not_sustain() {
    let bytes = file(
        0,
        [0, 24],
        &[track(&[
            &[0, 0xb1, 64, 127],
            &[0, 0x90, 60, 80],
            &[24, 0x80, 60, 0],
            &[24, 0xb1, 64, 0],
            &END,
        ])],
    );
    assert_eq!(notes_of(&bytes), vec![note(60, 0, 500, 80)]);
}

#[test]
fn held_keys_end_with_the_last_track() {
    let long = track(&[&[48, 0xff, 0x2f, 0x00]]);
    let held = track(&[&[0, 0x90, 60, 80], &[12, 0x90, 64, 81], &END]);
    let bytes = file(1, [0, 24], &[long, held]);
    assert_eq!(notes_of(&bytes), vec![note(60, 0, 1_000, 80), note(64, 250, 750, 81)]);
}

#[test]
fn notes_last_at_least_a_millisecond_and_are_ordered() {
    let bytes = file(
        0,
        [0, 24],
        &[track(&[
            &[0, 0x90, 64, 80],
            &[0, 0x90, 60, 81],
            &[0, 0x80, 64, 0],
            &[0, 0x80, 60, 0],
            &END,
        ])],
    );
    assert_eq!(notes_of(&bytes), vec![note(60, 0, 1, 81), note(64, 0, 1, 80)]);
}

#[test]
fn unsuitable_files_are_refused() {
    let one = || vec![track(&[&[0, 0x90, 60, 80], &[24, 0x80, 60, 0], &END])];
    assert_eq!(
        error_of(&file(2, [0, 24], &one())),
        "Sequential multi-song MIDI files are not supported"
    );
    assert_eq!(
        error_of(&file(0, [0, 0], &one())),
        "MIDI file has zero ticks per quarter note"
    );
    assert_eq!(
        error_of(&file(0, [0xe7, 40], &one())),
        "SMPTE-timed MIDI files are not supported"
    );
    let zero_tempo = track(&[&[0, 0xff, 0x51, 0x03, 0, 0, 0], &END]);
    assert_eq!(error_of(&file(0, [0, 24], &[zero_tempo])), "MIDI file contains a zero tempo");
    assert_eq!(error_of(&file(0, [0, 24], &[END.to_vec()])), "MIDI file contains no notes");
    assert_eq!(error_of(b"not a file"), "Invalid MIDI file: invalid midi: not a midi file");
    assert_eq!(error_of(&[]), "Invalid MIDI file: invalid midi: not a midi file");
}

#[test]
fn files_that_last_too_long_are_refused() {
    let mut events = vec![FileEvent { delta: 0, kind: EventKind::Tempo(0x00ff_ffff) }];
    events.resize(4_100_000, FileEvent { delta: 0x0fff_ffff, kind: EventKind::Other });
    let midi = MidiFile {
        header: FileHeader { format: FileFormat::SingleTrack, timing: FileTiming::Metrical(1) },
        tracks: vec![events],
    };
    assert_eq!(import_file(&midi).err().unwrap(), "MIDI timeline is too long");
}

#[test]
fn headers_without_a_frame_rate_are_noticed() {
    let good = file(0, [0, 24], &[]);
    assert!(check_headers(&good));
    assert!(check_headers(&file(0, [0xe7, 40], &[])));
    let mut bad = file(0, [0x80, 40], &[]);
    assert!(!check_headers(&bad));
    bad.truncate(13);
    assert!(check_headers(&bad));
    let mut second = good.clone();
    second.extend(file(0, [0x80, 40], &[]));
    assert!(!check_headers(&second));
    let mut inside = file(0, [0, 24], &[file(0, [0x80, 40], &[])]);
    assert!(check_headers(&inside));
    inside.splice(0..0, *b"RIFF");
    assert!(check_headers(&inside));
}

fn riff(form: &[u8], chunks: &[(&[u8], &[u8])]) -> Vec<u8> {
    let mut contents = form.to_vec();
    for (id, data) in chunks {
        contents.extend(*id);
        contents.extend((data.len() as u32).to_le_bytes());
        contents.extend(*data);
        if data.len() % 2 == 1 {
            contents.push(0);
        }
    }
    let mut bytes = b"RIFF".to_vec();
    bytes.extend((contents.len() as u32).to_le_bytes());
    bytes.extend(contents);
    bytes
}

#[test]
fn headers_that_are_refused_need_no_frame_rate() {
    let unknown = file(3, [0x80, 40], &[]);
    assert!(check_headers(&unknown));
    assert_eq!(error_of(&unknown), "Invalid MIDI file: invalid midi: invalid midi header");
    let short = b"MThd\0\0\0\x04\0\0\0\x01\x80\x28".to_vec();
    assert!(check_headers(&short));
    assert_eq!(error_of(&short), "Invalid MIDI file: invalid midi: invalid midi header");
    let mut elsewhere = b"XXXX\0\0\0\0".to_vec();
    elsewhere.extend(file(0, [0x80, 40], &[]));
    assert!(check_headers(&elsewhere));
    assert_eq!(error_of(&elsewhere), "Invalid MIDI file: invalid midi: not a midi file");
    let mut second = file(
        0,
        [0, 24],
        &[track(&[&[0, 0x90, 60, 80], &[24, 0x80, 60, 0], &END])],
    );
    second.extend(file(3, [0, 24], &[]));
    second.extend(file(0, [0x80, 40], &[]));
    assert!(check_headers(&second));
    assert_eq!(notes_of(&second), vec![note(60, 0, 500, 80)]);
}

#[test]
fn files_in_a_container_are_read() {
    let inner = file(
        0,
        [0, 24],
        &[track(&[&[0, 0x90, 60, 80], &[24, 0x80, 60, 0], &END])],
    );
    let bytes = riff(b"RMID", &[(b"DISP", b"odd"), (b"data", &inner)]);
    assert!(check_headers(&bytes));
    assert_eq!(notes_of(&bytes), vec![note(60, 0, 500, 80)]);
    let bad = file(0, [0x80, 40], &[]);
    assert!(!check_headers(&riff(b"RMID", &[(b"DISP", b"odd"), (b"data", &bad)])));
    let unused = riff(b"RMID", &[(b"data", &inner), (b"data", &bad)]);
    assert!(check_headers(&unused));
    assert_eq!(notes_of(&unused), vec![note(60, 0, 500, 80)]);
    let sound = riff(b"WAVE", &[(b"data", &bad)]);
    assert!(check_headers(&sound));
    assert_eq!(error_of(&sound), "Invalid MIDI file: invalid midi: not an rmid riff file");
    let mut track_first = END.to_vec();
    track_first.splice(0..0, *b"MTrk\0\0\0\x04");
    track_first.extend(&bad);
    let headless = riff(b"RMID", &[(b"data", &track_first)]);
    assert!(check_headers(&headless));
    assert_eq!(
        error_of(&headless),
        "Invalid MIDI file: invalid midi: expected header, found track"
    );
}

#[test]
fn any_bytes_can_be_decoded() {
    let good = file(
        0,
        [0, 24],
        &[track(&[&[0, 0x90, 60, 80], &[24, 0x80, 60, 0], &END])],
    );
    assert_eq!(decode_checked(&good).ok().unwrap().notes, vec![note(60, 0, 500, 80)]);
    assert_eq!(
        decode_checked(&file(0, [0x80, 40], &[])).err().unwrap(),
        "Invalid MIDI file: invalid midi: invalid midi header"
    );
    let mut bytes = good.clone();
    bytes.extend(file(0, [0x80, 40], &[track(&[&[0, 0x90, 64, 80], &END])]));
    assert_eq!(find_unreadable_header(&bytes), Some((good.len(), true)));
    assert_eq!(decode_checked(&bytes).ok().unwrap().notes, vec![note(60, 0, 500, 80)]);
    let container = riff(b"RMID", &[(b"DISP", b"odd"), (b"data", &bytes), (b"more", b"even")]);
    assert_eq!(find_unreadable_header(&container), Some((32 + good.len(), true)));
    assert_eq!(decode_checked(&container).ok().unwrap().notes, vec![note(60, 0, 500, 80)]);
    let mut no_notes = file(0, [0, 24], &[END.to_vec()]);
    no_notes.extend(file(0, [0x80, 40], &[]));
    assert_eq!(decode_checked(&no_notes).err().unwrap(), "MIDI file contains no notes");
    assert_eq!(find_unreadable_header(&file(0, [0x80, 40], &[])), Some((0, false)));
    assert_eq!(find_unreadable_header(&good), None);
    assert_eq!(
        decode_checked(b"x").err().unwrap(),
        "Invalid MIDI file: invalid midi: not a midi file"
    );
}

#[test]
fn files_are_read_event_by_event() {
    let bytes = file(
        1,
        [0x01, 0xe0],
        &[track(&[
            &TEMPO_HALF,
            &[5, 0x93, 60, 80],
            &[0, 0xb3, 7, 99],
            &[0, 0xe3, 0, 64],
            &[0, 0xff, 0x01, 0x01, b'x'],
            &[0x81, 0x00, 0x83, 60, 1],
            &END,
        ])],
    );
    let parsed = parse_midi(&bytes).ok().unwrap();
    assert_eq!(
        parsed.header,
        FileHeader { format: FileFormat::Parallel, timing: FileTiming::Metrical(480) }
    );
    let midi = |message| EventKind::Midi { channel: 3, message };
    assert_eq!(
        parsed.tracks,
        vec![vec![
            FileEvent { delta: 0, kind: EventKind::Tempo(500_000) },
            FileEvent { delta: 5, kind: midi(MidiMessage::NoteOn { key: 60, vel: 80 }) },
            FileEvent {
                delta: 0,
                kind: midi(MidiMessage::Controller { controller: 7, value: 99 }),
            },
            FileEvent { delta: 0, kind: midi(MidiMessage::Other) },
            FileEvent { delta: 0, kind: EventKind::Other },
            FileEvent { delta: 128, kind: midi(MidiMessage::NoteOff { key: 60, vel: 1 }) },
            FileEvent { delta: 0, kind: EventKind::EndOfTrack },
        ]]
    );
}

#[test]
fn messages_apply_to_the_keys_of_their_channel() {
    let mut held: Vec<Option<HeldNote>> = vec![None; 2_048];
    let mut sustain = vec![false; 16];
    let mut notes = Vec::new();
    let on = MidiMessage::NoteOn { key: 60, vel: 80 };
    apply_midi_event(on, 2, 10, &mut held, &mut sustain, &mut notes);
    assert_eq!(held[316], Some(HeldNote { onset_ms: 10, velocity: 80, released: false }));
    let off = MidiMessage::NoteOff { key: 60, vel: 0 };
    apply_midi_event(off, 1, 20, &mut held, &mut sustain, &mut notes);
    assert!(notes.is_empty());
    apply_midi_event(off, 2, 30, &mut held, &mut sustain, &mut notes);
    assert_eq!(notes, vec![note(60, 10, 20, 80)]);
}

#[test]
fn large_files_are_not_read() {
    assert_eq!(check_file_size(MAX_MIDI_FILE_BYTES), Ok(()));
    assert_eq!(
        check_file_size(64 * 1_024 * 1_024 + 1),
        Err("MIDI file is larger than 64 MB".to_string())
    );
}

#[test]
fn notes_are_written_to_one_track() {
    let bytes = encode_midi(&[grid(60, 0, 24, 80)], Some(500_000)).unwrap();
    let expected = file(
        0,
        [0, 24],
        &[track(&[&TEMPO_HALF, &[0, 0x90, 60, 80], &[24, 0x80, 60, 0], &END])],
    );
    assert_eq!(bytes, expected);
}

#[test]
fn ends_are_written_before_starts() {
    let bytes =
        encode_midi(&[grid(60, 24, 0, 70), grid(60, 0, 24, 80)], Some(1_000_000)).unwrap();
    let expected = file(
        0,
        [0, 24],
        &[track(&[
            &[0x00, 0xff, 0x51, 0x03, 0x0f, 0x42, 0x40],
            &[0, 0x90, 60, 80],
            &[24, 0x80, 60, 0],
            &[0, 0x90, 60, 70],
            &[1, 0x80, 60, 0],
            &END,
        ])],
    );
    assert_eq!(bytes, expected);
}

#[test]
fn unsuitable_notes_are_not_written() {
    let one = [grid(60, 0, 24, 80)];
    let error = |notes: &[GridNote], tempo| encode_midi(notes, tempo).unwrap_err();
    assert_eq!(error(&[], Some(500_000)), "Nothing to export");
    assert_eq!(error(&[], None), "Nothing to export");
    assert_eq!(error(&one, None), "BPM must be greater than zero");
    assert_eq!(error(&one, Some(0)), "BPM is outside the MIDI tempo range");
    assert_eq!(error(&one, Some(0x0100_0000)), "BPM is outside the MIDI tempo range");
    assert!(encode_midi(&one, Some(0x00ff_ffff)).is_ok());
    assert_eq!(
        error(&[one[0], grid(128, 0, 24, 80)], Some(500_000)),
        "A note is outside the MIDI range"
    );
    assert_eq!(
        error(&[grid(60, 0, 24, 128)], Some(500_000)),
        "A note is outside the MIDI range"
    );
    assert_eq!(
        error(&[grid(60, 0x1000_0000, 24, 80)], Some(500_000)),
        "MIDI event delta exceeds the file format limit"
    );
    assert!(encode_midi(&[grid(60, 0x0fff_ffff, 24, 80)], Some(500_000)).is_ok());
}

#[test]
fn exported_notes_come_back() {
    let bytes = encode_midi(
        &[grid(64, 36, 12, 90), grid(60, 0, 24, 80), grid(60, 24, 48, 1)],
        Some(600_000),
    )
    .unwrap();
    assert!(check_headers(&bytes));
    let midi = decode_midi(&bytes).ok().unwrap();
    assert_eq!(midi.tempo_us, 600_000);
    assert_eq!(
        midi.notes,
        vec![note(60, 0, 600, 80), note(60, 600, 1_200, 1), note(64, 900, 300, 90)]
    );
}

#[test]
fn times_are_rounded_down_event_by_event() {
    let bytes = encode_midi(&[grid(60, 1, 1, 80)], Some(500_000)).unwrap();
    assert_eq!(notes_of(&bytes), vec![note(60, 20, 21, 80)]);
}
