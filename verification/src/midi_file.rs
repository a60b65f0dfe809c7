//! Importing notes from standard MIDI files.

use crate::headers::{
    find_unreadable_header, headers_readable, unreadable_header, what_comes_before_can_be_read,
};
use crate::keys::{
    adds_played_notes, finish_all_adds_played_notes, finish_note, is_played,
    keys_add_played_notes, keys_of, lift_pedal, lift_pedal_adds_played_notes, press_key,
    release_key, HeldNote, Keys,
};
use crate::midi::SUSTAIN_PEDAL;
use crate::order::{is_sorted, sort_by_key, stable_sort, stable_sort_sorts, Keyed};
use crate::smf::{
    event_in_range, parse_midi, parsed_midi, tracks_in_range, EventKind, FileEvent, FileFormat,
    FileModel, FileTiming, MidiFile, MidiMessage,
};
use crate::state::Note;
use vstd::prelude::*;
use vstd::slice::slice_subrange;

verus! {

/// The tempo of a file that sets none, in microseconds per quarter note.
pub const DEFAULT_TEMPO_US: u32 = 500_000;

/// Sixteen channels of 128 keys.
pub const KEY_COUNT: usize = 2048;

impl Keyed for Note {
    open spec fn key(self) -> (int, int) {
        (self.onset_ms as int, self.pitch as int)
    }

    fn sort_key(&self) -> (key: (u64, u8)) {
        (self.onset_ms, self.pitch)
    }
}

/// What matters of an event for its notes: a new tempo, or a channel message.
#[derive(Clone, Copy, Debug, PartialEq, Eq, Structural)]
pub enum AbsoluteKind {
    Tempo(u32),
    Midi { channel: u8, message: MidiMessage },
}

/// An event with its distance from the start of the file.
#[derive(Clone, Copy, Debug, PartialEq, Eq, Structural)]
pub struct AbsoluteEvent {
    pub tick: u64,
    pub kind: AbsoluteKind,
}

/// At one tick, tempo changes come before channel messages.
impl Keyed for AbsoluteEvent {
    open spec fn key(self) -> (int, int) {
        (self.tick as int, if self.kind is Tempo { 0 } else { 1 })
    }

    fn sort_key(&self) -> (key: (u64, u8)) {
        let priority: u8 = match self.kind {
            AbsoluteKind::Tempo(_) => 0,
            AbsoluteKind::Midi { .. } => 1,
        };
        (self.tick, priority)
    }
}

/// The notes of a file, and the first tempo that it sets.
pub struct ImportedMidi {
    pub notes: Vec<Note>,
    pub tempo_us: u32,
}

/// Whether a message starts or ends a note or moves the sustain pedal.
pub open spec fn message_matters(message: MidiMessage) -> bool {
    match message {
        MidiMessage::NoteOff { .. } => true,
        MidiMessage::NoteOn { .. } => true,
        MidiMessage::Controller { controller, .. } => controller == SUSTAIN_PEDAL,
        MidiMessage::Other => false,
    }
}

/// What matters of an event, if anything.
pub open spec fn relevant(kind: EventKind) -> Option<AbsoluteKind> {
    match kind {
        EventKind::Tempo(tempo) => Some(AbsoluteKind::Tempo(tempo)),
        EventKind::Midi { channel, message } => if message_matters(message) {
            Some(AbsoluteKind::Midi { channel, message })
        } else {
            None
        },
        _ => None,
    }
}

/// The ticks from the start of a track to its last event. The count stops at the end of its
/// range.
pub open spec fn track_ticks(track: Seq<FileEvent>) -> int
    decreases track.len(),
{
    if track.len() == 0 {
        0
    } else {
        let ticks = track_ticks(track.drop_last()) + track.last().delta;
        if ticks > u64::MAX { u64::MAX as int } else { ticks }
    }
}

/// The events of a track that matter.
pub open spec fn track_events(track: Seq<FileEvent>) -> Seq<AbsoluteEvent>
    decreases track.len(),
{
    if track.len() == 0 {
        Seq::empty()
    } else {
        match relevant(track.last().kind) {
            Some(kind) => track_events(track.drop_last()).push(
                AbsoluteEvent { tick: track_ticks(track) as u64, kind },
            ),
            None => track_events(track.drop_last()),
        }
    }
}

/// The events of all tracks that matter, track after track.
pub open spec fn file_events(tracks: Seq<Seq<FileEvent>>) -> Seq<AbsoluteEvent>
    decreases tracks.len(),
{
    if tracks.len() == 0 {
        Seq::empty()
    } else {
        file_events(tracks.drop_last()) + track_events(tracks.last())
    }
}

/// The length of the longest track.
pub open spec fn final_tick(tracks: Seq<Seq<FileEvent>>) -> int
    decreases tracks.len(),
{
    if tracks.len() == 0 {
        0
    } else {
        let before = final_tick(tracks.drop_last());
        let last = track_ticks(tracks.last());
        if last > before { last } else { before }
    }
}

proof fn track_ticks_fit(track: Seq<FileEvent>)
    ensures
        0 <= track_ticks(track) <= u64::MAX,
    decreases track.len(),
{
    if track.len() > 0 {
        track_ticks_fit(track.drop_last());
    }
}

/// What matters of an event, if anything.
fn relevant_kind(kind: EventKind) -> (found: Option<AbsoluteKind>)
    ensures
        found == relevant(kind),
{
    match kind {
        EventKind::Tempo(tempo) => Some(AbsoluteKind::Tempo(tempo)),
        EventKind::Midi { channel, message } => {
            let matters = match message {
                MidiMessage::NoteOff { .. } => true,
                MidiMessage::NoteOn { .. } => true,
                MidiMessage::Controller { controller, .. } => controller == SUSTAIN_PEDAL,
                MidiMessage::Other => false,
            };
            if matters {
                Some(AbsoluteKind::Midi { channel, message })
            } else {
                None
            }
        },
        EventKind::EndOfTrack => None,
        EventKind::Other => None,
    }
}

/// Adds the events of one track that matter to `events` and returns its length in ticks.
fn collect_track(track: &Vec<FileEvent>, events: &mut Vec<AbsoluteEvent>) -> (ticks: u64)
    ensures
        final(events)@ == old(events)@ + track_events(track@),
        ticks == track_ticks(track@),
{
    let mut tick: u64 = 0;
    let mut i: usize = 0;
    assert(events@ =~= old(events)@ + track_events(track@.take(0)));
    while i < track.len()
        invariant
            i <= track.len(),
            tick == track_ticks(track@.take(i as int)),
            events@ == old(events)@ + track_events(track@.take(i as int)),
        decreases track.len() - i,
    {
        let event = track[i];
        assert(track@.take(i + 1).drop_last() =~= track@.take(i as int));
        tick = tick.saturating_add(event.delta as u64);
        if let Some(kind) = relevant_kind(event.kind) {
            events.push(AbsoluteEvent { tick, kind });
        }
        assert(events@ =~= old(events)@ + track_events(track@.take(i + 1)));
        i = i + 1;
    }
    assert(track@.take(track.len() as int) =~= track@);
    tick
}

/// Collects the events of all tracks that matter, and the length of the longest track.
fn collect_events(file: &MidiFile) -> (collected: (Vec<AbsoluteEvent>, u64))
    ensures
        collected.0@ == file_events(file@.tracks),
        collected.1 == final_tick(file@.tracks),
{
    let ghost tracks = file@.tracks;
    let mut events: Vec<AbsoluteEvent> = Vec::new();
    let mut last: u64 = 0;
    let mut i: usize = 0;
    while i < file.tracks.len()
        invariant
            tracks == file@.tracks,
            i <= file.tracks.len(),
            events@ == file_events(tracks.take(i as int)),
            last == final_tick(tracks.take(i as int)),
        decreases file.tracks.len() - i,
    {
        assert(tracks.take(i + 1).drop_last() =~= tracks.take(i as int));
        assert(tracks[i as int] == file.tracks@[i as int]@);
        let ticks = collect_track(&file.tracks[i], &mut events);
        if ticks > last {
            last = ticks;
        }
        i = i + 1;
    }
    assert(tracks.take(tracks.len() as int) =~= tracks);
    (events, last)
}

/// The keys of all channels, and which of their pedals are down.
#[verifier::ext_equal]
pub struct Channels {
    pub keys: Keys,
    pub sustain: Seq<bool>,
}

impl Channels {
    /// What a channel message does at `now_ms`: a note-on strikes a key, a note-off or a silent
    /// note-on lets it go, and controller 64 moves the pedal of the channel.
    pub open spec fn apply(self, message: MidiMessage, channel: u8, now_ms: u64) -> Channels {
        match message {
            MidiMessage::NoteOn { key, vel } => if vel > 0 {
                Channels { keys: self.keys.press(channel * 128 + key, vel, now_ms), ..self }
            } else {
                Channels {
                    keys: self.keys.release(
                        channel * 128 + key,
                        self.sustain[channel as int],
                        now_ms,
                    ),
                    ..self
                }
            },
            MidiMessage::NoteOff { key, vel } => Channels {
                keys: self.keys.release(channel * 128 + key, self.sustain[channel as int], now_ms),
                ..self
            },
            MidiMessage::Controller { controller, value } => if controller == SUSTAIN_PEDAL {
                Channels {
                    keys: if self.sustain[channel as int] && value < 64 {
                        self.keys.lift_pedal(channel * 128, 128, now_ms)
                    } else {
                        self.keys
                    },
                    sustain: self.sustain.update(channel as int, value >= 64),
                }
            } else {
                self
            },
            MidiMessage::Other => self,
        }
    }

    pub open spec fn wf(self) -> bool {
        self.keys.held.len() == KEY_COUNT && self.sustain.len() == 16
    }
}

/// The fields of a channel message lie in their ranges.
pub open spec fn message_in_range(message: MidiMessage, channel: u8) -> bool {
    &&& channel < 16
    &&& match message {
        MidiMessage::NoteOff { key, .. } => key < 128,
        MidiMessage::NoteOn { key, vel } => key < 128 && vel < 128,
        _ => true,
    }
}

/// Applies one channel message at `now_ms`.
pub fn apply_midi_event(
    message: MidiMessage,
    channel: u8,
    now_ms: u64,
    held: &mut Vec<Option<HeldNote>>,
    sustain: &mut Vec<bool>,
    notes: &mut Vec<Note>,
)
    requires
        old(held)@.len() == KEY_COUNT,
        old(sustain)@.len() == 16,
        message_in_range(message, channel),
    ensures
        (Channels {
            keys: keys_of(final(held)@, final(notes)@),
            sustain: final(sustain)@,
        }) == (Channels {
            keys: keys_of(old(held)@, old(notes)@),
            sustain: old(sustain)@,
        }).apply(message, channel, now_ms),
        final(held)@.len() == KEY_COUNT,
        final(sustain)@.len() == 16,
{
    let base = channel as usize * 128;
    match message {
        MidiMessage::NoteOn { key, vel } => {
            if vel > 0 {
                press_key(base + key as usize, vel, now_ms, held, notes);
            } else {
                release_key(base + key as usize, sustain[channel as usize], now_ms, held, notes);
            }
        },
        MidiMessage::NoteOff { key, .. } => {
            release_key(base + key as usize, sustain[channel as usize], now_ms, held, notes);
        },
        MidiMessage::Controller { controller, value } => {
            if controller == SUSTAIN_PEDAL {
                let was_down = sustain[channel as usize];
                sustain.set(channel as usize, value >= 64);
                if was_down && value < 64 {
                    lift_pedal(base, now_ms, held, notes);
                }
            }
        },
        MidiMessage::Other => {},
    }
}

/// How far the events of a file have been played through.
#[verifier::ext_equal]
pub struct Progress {
    pub channels: Channels,
    pub tempo_us: u32,
    pub first_tempo_us: Option<u32>,
    pub previous_tick: u64,
    pub elapsed_us: int,
}

/// The time that `ticks` take, in whole microseconds.
pub open spec fn ticks_to_us(ticks: int, tempo_us: int, ticks_per_quarter: int) -> int {
    ticks * tempo_us / ticks_per_quarter
}

/// Before the first event.
pub open spec fn at_start() -> Progress {
    Progress {
        channels: Channels {
            keys: Keys {
                held: Seq::new(KEY_COUNT as nat, |i: int| None::<HeldNote>),
                notes: Seq::empty(),
            },
            sustain: Seq::new(16, |i: int| false),
        },
        tempo_us: DEFAULT_TEMPO_US,
        first_tempo_us: None,
        previous_tick: 0,
        elapsed_us: 0,
    }
}

impl Progress {
    /// The time that has passed at `tick`.
    pub open spec fn us_at(self, tick: u64, ticks_per_quarter: u16) -> int {
        self.elapsed_us + ticks_to_us(
            if tick > self.previous_tick { tick - self.previous_tick } else { 0 },
            self.tempo_us as int,
            ticks_per_quarter as int,
        )
    }

    /// Plays one event, or says why that cannot be done.
    pub open spec fn play(self, event: AbsoluteEvent, ticks_per_quarter: u16) -> Result<
        Progress,
        Seq<char>,
    > {
        let elapsed_us = self.us_at(event.tick, ticks_per_quarter);
        if elapsed_us / 1_000 > u64::MAX {
            Err("MIDI timeline is too long"@)
        } else {
            let moved = Progress { previous_tick: event.tick, elapsed_us, ..self };
            match event.kind {
                AbsoluteKind::Tempo(tempo) => if tempo > 0 {
                    Ok(
                        Progress {
                            tempo_us: tempo,
                            first_tempo_us: if self.first_tempo_us is None {
                                Some(tempo)
                            } else {
                                self.first_tempo_us
                            },
                            ..moved
                        },
                    )
                } else {
                    Err("MIDI file contains a zero tempo"@)
                },
                AbsoluteKind::Midi { channel, message } => Ok(
                    Progress {
                        channels: self.channels.apply(
                            message,
                            channel,
                            (elapsed_us / 1_000) as u64,
                        ),
                        ..moved
                    },
                ),
            }
        }
    }
}

/// Plays the events one after the other.
pub open spec fn play_all(events: Seq<AbsoluteEvent>, ticks_per_quarter: u16) -> Result<
    Progress,
    Seq<char>,
>
    decreases events.len(),
{
    if events.len() == 0 {
        Ok(at_start())
    } else {
        match play_all(events.drop_last(), ticks_per_quarter) {
            Ok(progress) => progress.play(events.last(), ticks_per_quarter),
            Err(text) => Err(text),
        }
    }
}

/// The notes once all events are played and the last track has ended: keys that are still
/// held stop sounding then. The notes are ordered by onset and pitch.
pub open spec fn notes_at_end(progress: Progress, last_tick: u64, ticks_per_quarter: u16) -> Result<
    Seq<Note>,
    Seq<char>,
> {
    let end_us = progress.us_at(last_tick, ticks_per_quarter);
    if end_us / 1_000 > u64::MAX {
        Err("MIDI timeline is too long"@)
    } else {
        let notes = progress.channels.keys.finish_all(
            KEY_COUNT as int,
            (end_us / 1_000) as u64,
        ).notes;
        if notes.len() == 0 {
            Err("MIDI file contains no notes"@)
        } else {
            Ok(stable_sort(notes))
        }
    }
}

/// The notes of a file and its first tempo, or the reason why it is refused.
pub open spec fn imported(file: FileModel) -> Result<(Seq<Note>, u32), Seq<char>> {
    if file.header.format == FileFormat::Sequential {
        Err("Sequential multi-song MIDI files are not supported"@)
    } else {
        match file.header.timing {
            FileTiming::Timecode => Err("SMPTE-timed MIDI files are not supported"@),
            FileTiming::Metrical(ticks) => if ticks == 0 {
                Err("MIDI file has zero ticks per quarter note"@)
            } else {
                match play_all(stable_sort(file_events(file.tracks)), ticks) {
                    Err(text) => Err(text),
                    Ok(progress) => match notes_at_end(
                        progress,
                        final_tick(file.tracks) as u64,
                        ticks,
                    ) {
                        Err(text) => Err(text),
                        Ok(notes) => Ok(
                            (
                                notes,
                                match progress.first_tempo_us {
                                    Some(tempo) => tempo,
                                    None => DEFAULT_TEMPO_US,
                                },
                            ),
                        ),
                    },
                }
            },
        }
    }
}

/// A channel message lies in range.
pub open spec fn absolute_in_range(event: AbsoluteEvent) -> bool {
    event.kind matches AbsoluteKind::Midi { channel, message } ==> message_in_range(
        message,
        channel,
    )
}

proof fn track_events_in_range(track: Seq<FileEvent>)
    requires
        forall|i: int| 0 <= i < track.len() ==> event_in_range(#[trigger] track[i]),
    ensures
        forall|i: int|
            0 <= i < track_events(track).len() ==> absolute_in_range(
                #[trigger] track_events(track)[i],
            ),
    decreases track.len(),
{
    if track.len() > 0 {
        let rest = track.drop_last();
        assert forall|i: int| 0 <= i < rest.len() implies event_in_range(#[trigger] rest[i]) by {
            assert(rest[i] == track[i]);
        }
        track_events_in_range(rest);
        assert(event_in_range(track[track.len() - 1]));
        let all = track_events(track);
        assert forall|i: int| 0 <= i < all.len() implies absolute_in_range(#[trigger] all[i]) by {
            if i < track_events(rest).len() {
                assert(all[i] == track_events(rest)[i]);
            }
        }
    }
}

proof fn file_events_in_range(tracks: Seq<Seq<FileEvent>>)
    requires
        tracks_in_range(tracks),
    ensures
        forall|i: int|
            0 <= i < file_events(tracks).len() ==> absolute_in_range(
                #[trigger] file_events(tracks)[i],
            ),
    decreases tracks.len(),
{
    if tracks.len() > 0 {
        let rest = tracks.drop_last();
        assert forall|i: int, j: int| 0 <= i < rest.len() && 0 <= j < rest[i].len() implies
            event_in_range(#[trigger] rest[i][j]) by {
            assert(event_in_range(tracks[i][j]));
        }
        file_events_in_range(rest);
        let last = tracks.last();
        assert forall|i: int| 0 <= i < last.len() implies event_in_range(#[trigger] last[i]) by {
            assert(event_in_range(tracks[tracks.len() - 1][i]));
        }
        track_events_in_range(last);
        let all = file_events(tracks);
        let before = file_events(rest);
        assert forall|i: int| 0 <= i < all.len() implies absolute_in_range(#[trigger] all[i]) by {
            if i < before.len() {
                assert(all[i] == before[i]);
            } else {
                assert(all[i] == track_events(last)[i - before.len()]);
            }
        }
    }
}

/// [`Progress`] as it is kept while a file is played through.
struct ImportState {
    held: Vec<Option<HeldNote>>,
    sustain: Vec<bool>,
    notes: Vec<Note>,
    tempo_us: u32,
    first_tempo_us: Option<u32>,
    previous_tick: u64,
    elapsed_us: u128,
}

impl ImportState {
    spec fn progress(self) -> Progress {
        Progress {
            channels: Channels {
                keys: keys_of(self.held@, self.notes@),
                sustain: self.sustain@,
            },
            tempo_us: self.tempo_us,
            first_tempo_us: self.first_tempo_us,
            previous_tick: self.previous_tick,
            elapsed_us: self.elapsed_us as int,
        }
    }

    spec fn wf(self) -> bool {
        self.held@.len() == KEY_COUNT && self.sustain@.len() == 16 && self.elapsed_us / 1_000
            <= u64::MAX
    }

    fn new() -> (state: Self)
        ensures
            state.wf(),
            state.progress() == at_start(),
    {
        let mut held: Vec<Option<HeldNote>> = Vec::new();
        let mut i: usize = 0;
        while i < KEY_COUNT
            invariant
                i <= KEY_COUNT,
                held@ == Seq::new(i as nat, |i: int| None::<HeldNote>),
            decreases KEY_COUNT - i,
        {
            held.push(None);
            assert(held@ =~= Seq::new((i + 1) as nat, |i: int| None::<HeldNote>));
            i = i + 1;
        }
        let mut sustain: Vec<bool> = Vec::new();
        let mut j: usize = 0;
        while j < 16
            invariant
                j <= 16,
                sustain@ == Seq::new(j as nat, |i: int| false),
            decreases 16 - j,
        {
            sustain.push(false);
            assert(sustain@ =~= Seq::new((j + 1) as nat, |i: int| false));
            j = j + 1;
        }
        let state = ImportState {
            held,
            sustain,
            notes: Vec::new(),
            tempo_us: DEFAULT_TEMPO_US,
            first_tempo_us: None,
            previous_tick: 0,
            elapsed_us: 0,
        };
        assert(state.progress() =~= at_start());
        state
    }

    /// The time that has passed at `tick`, unless it is out of range.
    fn us_at(&self, tick: u64, ticks_per_quarter: u16) -> (us: Option<u128>)
        requires
            self.wf(),
            ticks_per_quarter > 0,
        ensures
            us is None <==> self.progress().us_at(tick, ticks_per_quarter) / 1_000 > u64::MAX,
            us matches Some(us) ==> us == self.progress().us_at(tick, ticks_per_quarter),
    {
        let ticks = tick.saturating_sub(self.previous_tick) as u128;
        let tempo = self.tempo_us as u128;
        let quarter = ticks_per_quarter as u128;
        assert(0 <= ticks * tempo <= 0xffff_ffff_ffff_ffff * 0xffff_ffff) by (nonlinear_arith)
            requires
                0 <= ticks <= 0xffff_ffff_ffff_ffff,
                0 <= tempo <= 0xffff_ffff,
        ;
        let product = ticks * tempo;
        assert(0 <= product / quarter <= product) by (nonlinear_arith)
            requires
                quarter > 0,
                product >= 0,
        ;
        let us = self.elapsed_us + product / quarter;
        if us / 1_000 > u64::MAX as u128 {
            None
        } else {
            Some(us)
        }
    }

    /// Plays one event.
    fn play(&mut self, event: AbsoluteEvent, ticks_per_quarter: u16) -> (played: Result<
        (),
        String,
    >)
        requires
            old(self).wf(),
            ticks_per_quarter > 0,
            absolute_in_range(event),
        ensures
            match old(self).progress().play(event, ticks_per_quarter) {
                Ok(progress) => played is Ok && final(self).progress() == progress
                    && final(self).wf(),
                Err(text) => played matches Err(found) && found@ == text,
            },
    {
        let elapsed_us = match self.us_at(event.tick, ticks_per_quarter) {
            Some(us) => us,
            None => {
                return Err("MIDI timeline is too long".to_owned());
            },
        };
        self.elapsed_us = elapsed_us;
        self.previous_tick = event.tick;
        let now_ms = (elapsed_us / 1_000) as u64;
        match event.kind {
            AbsoluteKind::Tempo(tempo) => {
                if tempo == 0 {
                    return Err("MIDI file contains a zero tempo".to_owned());
                }
                if self.first_tempo_us.is_none() {
                    self.first_tempo_us = Some(tempo);
                }
                self.tempo_us = tempo;
            },
            AbsoluteKind::Midi { channel, message } => {
                apply_midi_event(
                    message,
                    channel,
                    now_ms,
                    &mut self.held,
                    &mut self.sustain,
                    &mut self.notes,
                );
            },
        }
        Ok(())
    }

    /// Ends all notes when the last track ends, and orders them.
    fn notes_at_end(self, last_tick: u64, ticks_per_quarter: u16) -> (ended: Result<
        Vec<Note>,
        String,
    >)
        requires
            self.wf(),
            ticks_per_quarter > 0,
        ensures
            match notes_at_end(self.progress(), last_tick, ticks_per_quarter) {
                Ok(notes) => ended matches Ok(found) && found@ == notes,
                Err(text) => ended matches Err(found) && found@ == text,
            },
    {
        let end_ms = match self.us_at(last_tick, ticks_per_quarter) {
            Some(us) => (us / 1_000) as u64,
            None => {
                return Err("MIDI timeline is too long".to_owned());
            },
        };
        let ghost keys = keys_of(self.held@, self.notes@);
        let mut held = self.held;
        let mut notes = self.notes;
        let mut index: usize = 0;
        while index < KEY_COUNT
            invariant
                index <= KEY_COUNT,
                held@.len() == KEY_COUNT,
                keys_of(held@, notes@) == keys.finish_all(index as int, end_ms),
            decreases KEY_COUNT - index,
        {
            finish_note(index, end_ms, &mut held, &mut notes);
            index = index + 1;
        }
        if notes.len() == 0 {
            return Err("MIDI file contains no notes".to_owned());
        }
        Ok(sort_by_key(&notes))
    }
}

/// The largest file that is read.
pub const MAX_MIDI_FILE_BYTES: u64 = 67_108_864;

/// Refuses files that are too large to be read.
pub fn check_file_size(bytes: u64) -> (checked: Result<(), String>)
    ensures
        match checked {
            Ok(()) => bytes <= MAX_MIDI_FILE_BYTES && bytes <= 64 * 1024 * 1024,
            Err(text) => {
                &&& bytes > MAX_MIDI_FILE_BYTES
                &&& bytes > 64 * 1024 * 1024
                &&& text@ == "MIDI file is larger than 64 MB"@
            },
        },
{
    if bytes > MAX_MIDI_FILE_BYTES {
        Err("MIDI file is larger than 64 MB".to_owned())
    } else {
        Ok(())
    }
}

/// Takes the notes out of a file: parallel tracks are merged, tempo changes applied, and
/// the time that the sustain pedal holds a key is part of its note.
pub fn import_file(file: &MidiFile) -> (found: Result<ImportedMidi, String>)
    requires
        tracks_in_range(file@.tracks),
    ensures
        match imported(file@) {
            Ok(notes_and_tempo) => found matches Ok(midi) && midi.notes@ == notes_and_tempo.0
                && midi.tempo_us == notes_and_tempo.1,
            Err(text) => found matches Err(refused) && refused@ == text,
        },
{
    if file.header.format == FileFormat::Sequential {
        return Err("Sequential multi-song MIDI files are not supported".to_owned());
    }
    let ticks_per_quarter = match file.header.timing {
        FileTiming::Metrical(ticks) => ticks,
        FileTiming::Timecode => {
            return Err("SMPTE-timed MIDI files are not supported".to_owned());
        },
    };
    if ticks_per_quarter == 0 {
        return Err("MIDI file has zero ticks per quarter note".to_owned());
    }
    let (unsorted, last_tick) = collect_events(file);
    let events = sort_by_key(&unsorted);
    proof {
        file_events_in_range(file@.tracks);
        stable_sort_sorts(unsorted@);
        assert forall|i: int| 0 <= i < events@.len() implies absolute_in_range(
            #[trigger] events@[i],
        ) by {
            assert(unsorted@.contains(stable_sort(unsorted@)[i]));
        }
    }
    let mut state = ImportState::new();
    let mut i: usize = 0;
    while i < events.len()
        invariant
            i <= events.len(),
            ticks_per_quarter > 0,
            file.header.format != FileFormat::Sequential,
            file.header.timing == FileTiming::Metrical(ticks_per_quarter),
            events@ == stable_sort(file_events(file@.tracks)),
            forall|k: int| 0 <= k < events@.len() ==> absolute_in_range(#[trigger] events@[k]),
            state.wf(),
            play_all(events@.take(i as int), ticks_per_quarter) == Ok::<Progress, Seq<char>>(
                state.progress(),
            ),
        decreases events.len() - i,
    {
        assert(events@.take(i + 1).drop_last() =~= events@.take(i as int));
        match state.play(events[i], ticks_per_quarter) {
            Ok(()) => {},
            Err(text) => {
                proof {
                    play_all_fails_early(events@, i + 1, ticks_per_quarter);
                }
                return Err(text);
            },
        }
        i = i + 1;
    }
    assert(events@.take(events.len() as int) =~= events@);
    let tempo_us = match state.first_tempo_us {
        Some(tempo) => tempo,
        None => DEFAULT_TEMPO_US,
    };
    match state.notes_at_end(last_tick, ticks_per_quarter) {
        Ok(notes) => Ok(ImportedMidi { notes, tempo_us }),
        Err(text) => Err(text),
    }
}

/// An event that cannot be played ends the whole run.
proof fn play_all_fails_early(events: Seq<AbsoluteEvent>, count: int, ticks_per_quarter: u16)
    requires
        0 <= count <= events.len(),
        play_all(events.take(count), ticks_per_quarter) is Err,
    ensures
        play_all(events, ticks_per_quarter) == play_all(events.take(count), ticks_per_quarter),
    decreases events.len(),
{
    if count == events.len() {
        assert(events.take(count) =~= events);
    } else {
        let rest = events.drop_last();
        assert(rest.take(count) =~= events.take(count));
        play_all_fails_early(rest, count, ticks_per_quarter);
    }
}

/// The notes and the first tempo of a standard MIDI file, given its bytes, or the reason why it
/// is refused.
pub open spec fn decoded(bytes: Seq<u8>) -> Result<(Seq<Note>, u32), Seq<char>> {
    match parsed_midi(bytes) {
        Ok(file) => imported(file),
        Err(text) => Err("Invalid MIDI file: "@ + text),
    }
}

/// Takes the notes out of the bytes of a standard MIDI file.
pub fn decode_midi(bytes: &[u8]) -> (found: Result<ImportedMidi, String>)
    requires
        headers_readable(bytes@),
    ensures
        match decoded(bytes@) {
            Ok(notes_and_tempo) => found matches Ok(midi) && midi.notes@ == notes_and_tempo.0
                && midi.tempo_us == notes_and_tempo.1,
            Err(text) => found matches Err(refused) && refused@ == text,
        },
{
    match parse_midi(bytes) {
        Ok(file) => import_file(&file),
        Err(text) => {
            let mut refused = "Invalid MIDI file: ".to_owned();
            refused.append(text.as_str());
            Err(refused)
        },
    }
}

/// The notes and the first tempo of any bytes. A file whose first header cannot be read is
/// refused; one with such a header further on ends before it.
pub open spec fn decoded_up_to_unreadable(bytes: Seq<u8>) -> Result<(Seq<Note>, u32), Seq<char>> {
    match unreadable_header(bytes) {
        None => decoded(bytes),
        Some((at, later)) => if later {
            decoded(bytes.take(at))
        } else {
            Err("Invalid MIDI file: invalid midi: invalid midi header"@)
        },
    }
}

/// Takes the notes out of any bytes, whether or not their headers can be read.
pub fn decode_checked(bytes: &[u8]) -> (found: Result<ImportedMidi, String>)
    ensures
        match decoded_up_to_unreadable(bytes@) {
            Ok(notes_and_tempo) => found matches Ok(midi) && midi.notes@ == notes_and_tempo.0
                && midi.tempo_us == notes_and_tempo.1,
            Err(text) => found matches Err(refused) && refused@ == text,
        },
{
    match find_unreadable_header(bytes) {
        None => decode_midi(bytes),
        Some((at, later)) => {
            if !later {
                return Err("Invalid MIDI file: invalid midi: invalid midi header".to_owned());
            }
            proof {
                what_comes_before_can_be_read(bytes@);
            }
            decode_midi(slice_subrange(bytes, 0, at))
        },
    }
}

proof fn playing_adds_played_notes(events: Seq<AbsoluteEvent>, ticks_per_quarter: u16)
    requires
        play_all(events, ticks_per_quarter) is Ok,
        forall|i: int| 0 <= i < events.len() ==> absolute_in_range(#[trigger] events[i]),
    ensures
        play_all(events, ticks_per_quarter)->Ok_0.channels.wf(),
        adds_played_notes(
            at_start().channels.keys,
            play_all(events, ticks_per_quarter)->Ok_0.channels.keys,
        ),
    decreases events.len(),
{
    if events.len() > 0 {
        let rest = events.drop_last();
        assert forall|i: int| 0 <= i < rest.len() implies absolute_in_range(#[trigger] rest[i]) by {
            assert(rest[i] == events[i]);
        }
        playing_adds_played_notes(rest, ticks_per_quarter);
        let before = play_all(rest, ticks_per_quarter)->Ok_0;
        let event = events.last();
        assert(absolute_in_range(events[events.len() - 1]));
        if let AbsoluteKind::Midi { channel, message } = event.kind {
            let now_ms = (before.us_at(event.tick, ticks_per_quarter) / 1_000) as u64;
            let keys = before.channels.keys;
            match message {
                MidiMessage::NoteOn { key, vel } => {
                    let velocity: u8 = if vel > 0 { vel } else { 1 };
                    keys_add_played_notes(
                        keys,
                        channel * 128 + key,
                        velocity,
                        before.channels.sustain[channel as int],
                        now_ms,
                    );
                },
                MidiMessage::NoteOff { key, vel } => {
                    keys_add_played_notes(
                        keys,
                        channel * 128 + key,
                        1,
                        before.channels.sustain[channel as int],
                        now_ms,
                    );
                },
                _ => {
                    lift_pedal_adds_played_notes(keys, channel * 128, 128, now_ms);
                },
            }
        }
    }
}

/// Every imported note was played, and the notes are ordered by onset and pitch. A file without
/// notes is refused.
pub proof fn imported_notes_are_played(file: FileModel)
    requires
        tracks_in_range(file.tracks),
        imported(file) is Ok,
    ensures
        imported(file)->Ok_0.0.len() > 0,
        is_sorted(imported(file)->Ok_0.0),
        forall|i: int|
            0 <= i < imported(file)->Ok_0.0.len() ==> is_played(
                #[trigger] imported(file)->Ok_0.0[i],
            ),
{
    let events = stable_sort(file_events(file.tracks));
    let ticks = file.header.timing->Metrical_0;
    file_events_in_range(file.tracks);
    stable_sort_sorts(file_events(file.tracks));
    assert forall|i: int| 0 <= i < events.len() implies absolute_in_range(#[trigger] events[i]) by {
        assert(file_events(file.tracks).contains(events[i]));
    }
    playing_adds_played_notes(events, ticks);
    let progress = play_all(events, ticks)->Ok_0;
    let end_ms = (progress.us_at(final_tick(file.tracks) as u64, ticks) / 1_000) as u64;
    let keys = progress.channels.keys;
    finish_all_adds_played_notes(keys, KEY_COUNT as int, end_ms);
    let notes = keys.finish_all(KEY_COUNT as int, end_ms).notes;
    stable_sort_sorts(notes);
    let found = imported(file)->Ok_0.0;
    assert(found == stable_sort(notes));
    assert forall|i: int| 0 <= i < found.len() implies is_played(#[trigger] found[i]) by {
        assert(notes.contains(stable_sort(notes)[i]));
        let m = choose|m: int| 0 <= m < notes.len() && notes[m] == found[i];
        if m < keys.notes.len() {
            assert(notes[m] == keys.notes[m]);
        }
    }
}

/// Bytes are decoded up to a header that cannot be read, as if they ended before it. If there is
/// none before it, they are refused. Otherwise the file that the bytes hold is imported, or the
/// reason why they hold none is told.
pub proof fn decoding_ends_before_an_unreadable_header(bytes: Seq<u8>)
    ensures
        unreadable_header(bytes) matches Some((at, later)) ==> {
            &&& later ==> decoded_up_to_unreadable(bytes) == decoded_up_to_unreadable(
                bytes.take(at),
            )
            &&& !later ==> decoded_up_to_unreadable(bytes) == Err::<(Seq<Note>, u32), Seq<char>>(
                "Invalid MIDI file: invalid midi: invalid midi header"@,
            )
        },
        unreadable_header(bytes) is None ==> match parsed_midi(bytes) {
            Ok(file) => decoded_up_to_unreadable(bytes) == imported(file),
            Err(text) => decoded_up_to_unreadable(bytes) == Err::<(Seq<Note>, u32), Seq<char>>(
                "Invalid MIDI file: "@ + text,
            ),
        },
        headers_readable(bytes) ==> decoded(bytes) == decoded_up_to_unreadable(bytes),
{
    if unreadable_header(bytes) is Some {
        what_comes_before_can_be_read(bytes);
    }
}

} // verus!
