//! Standard MIDI files as plain data, read and written with `midly`.

use crate::headers::headers_readable;
use midly::TrackEventKind::{Meta, Midi};
use midly::num::{u15, u24, u28, u4, u7};
use midly::{
    Format, Header, MetaMessage, MidiMessage as Message, Smf, Timing, TrackEvent,
};
use vstd::prelude::*;

verus! {

/// How the tracks of a file relate to each other.
#[derive(Clone, Copy, Debug, PartialEq, Eq, Structural)]
pub enum FileFormat {
    SingleTrack,
    Parallel,
    Sequential,
}

/// What a tick of a file stands for: a fraction of a quarter note, or a fraction of a second.
#[derive(Clone, Copy, Debug, PartialEq, Eq, Structural)]
pub enum FileTiming {
    Metrical(u16),
    Timecode,
}

#[derive(Clone, Copy, Debug, PartialEq, Eq, Structural)]
pub struct FileHeader {
    pub format: FileFormat,
    pub timing: FileTiming,
}

/// A channel message; those that this crate has no use for are `Other`.
#[derive(Clone, Copy, Debug, PartialEq, Eq, Structural)]
pub enum MidiMessage {
    NoteOff { key: u8, vel: u8 },
    NoteOn { key: u8, vel: u8 },
    Controller { controller: u8, value: u8 },
    Other,
}

#[derive(Clone, Copy, Debug, PartialEq, Eq, Structural)]
pub enum EventKind {
    Tempo(u32),
    Midi { channel: u8, message: MidiMessage },
    EndOfTrack,
    Other,
}

/// An event of a track, `delta` ticks after the one before it.
#[derive(Clone, Copy, Debug, PartialEq, Eq, Structural)]
pub struct FileEvent {
    pub delta: u32,
    pub kind: EventKind,
}

/// A file: its header, and the events of each of its tracks.
pub struct MidiFile {
    pub header: FileHeader,
    pub tracks: Vec<Vec<FileEvent>>,
}

/// What a [`MidiFile`] holds.
#[verifier::ext_equal]
pub struct FileModel {
    pub header: FileHeader,
    pub tracks: Seq<Seq<FileEvent>>,
}

/// The contents of a vector of tracks.
pub open spec fn track_contents(tracks: Seq<Vec<FileEvent>>) -> Seq<Seq<FileEvent>> {
    Seq::new(tracks.len(), |i: int| tracks[i]@)
}

impl View for MidiFile {
    type V = FileModel;

    open spec fn view(&self) -> FileModel {
        FileModel { header: self.header, tracks: track_contents(self.tracks@) }
    }
}

/// The fields of an event lie within the ranges of the file format.
pub open spec fn event_in_range(event: FileEvent) -> bool {
    &&& event.delta < 0x1000_0000
    &&& match event.kind {
        EventKind::Tempo(tempo) => tempo < 0x100_0000,
        EventKind::Midi { channel, message } => {
            &&& channel < 16
            &&& match message {
                MidiMessage::NoteOff { key, vel } => key < 128 && vel < 128,
                MidiMessage::NoteOn { key, vel } => key < 128 && vel < 128,
                MidiMessage::Controller { controller, value } => controller < 128 && value < 128,
                MidiMessage::Other => true,
            }
        },
        EventKind::EndOfTrack => true,
        EventKind::Other => true,
    }
}

pub open spec fn tracks_in_range(tracks: Seq<Seq<FileEvent>>) -> bool {
    forall|i: int, j: int|
        0 <= i < tracks.len() && 0 <= j < tracks[i].len() ==> event_in_range(
            #[trigger] tracks[i][j],
        )
}

/// An event that is fully described by its [`FileEvent`].
pub open spec fn event_is_known(event: FileEvent) -> bool {
    match event.kind {
        EventKind::Midi { channel, message } => message != MidiMessage::Other,
        EventKind::Other => false,
        _ => true,
    }
}

pub open spec fn tracks_are_known(tracks: Seq<Seq<FileEvent>>) -> bool {
    forall|i: int, j: int|
        0 <= i < tracks.len() && 0 <= j < tracks[i].len() ==> event_is_known(
            #[trigger] tracks[i][j],
        )
}

/// An event that this crate writes, `delta` ticks after the one before it.
#[derive(Clone, Copy, Debug, PartialEq, Eq, Structural)]
pub struct TrackItem {
    pub delta: u32,
    pub kind: ItemKind,
}

#[derive(Clone, Copy, Debug, PartialEq, Eq, Structural)]
pub enum ItemKind {
    Tempo(u32),
    NoteOff { channel: u8, key: u8, vel: u8 },
    NoteOn { channel: u8, key: u8, vel: u8 },
    EndOfTrack,
}

impl ItemKind {
    pub open spec fn as_event(self) -> EventKind {
        match self {
            ItemKind::Tempo(tempo) => EventKind::Tempo(tempo),
            ItemKind::NoteOff { channel, key, vel } => EventKind::Midi {
                channel,
                message: MidiMessage::NoteOff { key, vel },
            },
            ItemKind::NoteOn { channel, key, vel } => EventKind::Midi {
                channel,
                message: MidiMessage::NoteOn { key, vel },
            },
            ItemKind::EndOfTrack => EventKind::EndOfTrack,
        }
    }
}

impl TrackItem {
    pub open spec fn as_event(self) -> FileEvent {
        FileEvent { delta: self.delta, kind: self.kind.as_event() }
    }
}

/// The events that `items` stand for.
pub open spec fn item_events(items: Seq<TrackItem>) -> Seq<FileEvent> {
    Seq::new(items.len(), |i: int| items[i].as_event())
}

/// A file as `midly` holds it.
#[verifier::external_type_specification]
#[verifier::external_body]
pub struct ExSmf<'a>(midly::Smf<'a>);

/// The header of a file that `midly` holds.
pub uninterp spec fn smf_header(smf: Smf<'_>) -> FileHeader;

/// The tracks of a file that `midly` holds.
pub uninterp spec fn smf_tracks(smf: Smf<'_>) -> Seq<Seq<FileEvent>>;

/// What `midly::Smf::parse` makes of `bytes`: the file, or the text of the error.
pub uninterp spec fn parsed_midi(bytes: Seq<u8>) -> Result<FileModel, Seq<char>>;

/// What `midly::Smf::write_std` makes of a file: its bytes, or the text of the error.
pub uninterp spec fn written_midi(file: FileModel) -> Result<Seq<u8>, Seq<char>>;

/// The contents of a file that `midly` holds.
pub open spec fn smf_model(smf: Smf<'_>) -> FileModel {
    FileModel { header: smf_header(smf), tracks: smf_tracks(smf) }
}

/// `midly::Smf::parse`: the result depends on the bytes alone. A header whose division has
/// the upper byte 0x80 is kept away from it, since the negation of that byte overflows there.
#[verifier::external_body]
fn parse_smf<'a>(bytes: &'a [u8]) -> (parsed: Result<Smf<'a>, String>)
    requires
        headers_readable(bytes@),
    ensures
        match parsed {
            Ok(smf) => parsed_midi(bytes@) == Ok::<FileModel, Seq<char>>(smf_model(smf)),
            Err(text) => parsed_midi(bytes@) == Err::<FileModel, Seq<char>>(text@),
        },
{
    Smf::parse(bytes).map_err(|error| error.to_string())
}

/// The `header` field of `midly::Smf`. Its ticks are a `u15`, which holds fifteen bits.
#[verifier::external_body]
fn header_of(smf: &Smf<'_>) -> (header: FileHeader)
    ensures
        header == smf_header(*smf),
        header.timing matches FileTiming::Metrical(ticks) ==> ticks < 0x8000,
{
    FileHeader {
        format: match smf.header.format {
            Format::SingleTrack => FileFormat::SingleTrack,
            Format::Parallel => FileFormat::Parallel,
            Format::Sequential => FileFormat::Sequential,
        },
        timing: match smf.header.timing {
            Timing::Metrical(ticks) => FileTiming::Metrical(ticks.as_int()),
            Timing::Timecode(_, _) => FileTiming::Timecode,
        },
    }
}

/// The length of the `tracks` field of `midly::Smf`.
#[verifier::external_body]
fn track_count(smf: &Smf<'_>) -> (count: usize)
    ensures
        count == smf_tracks(*smf).len(),
{
    smf.tracks.len()
}

/// The length of one track of `midly::Smf`.
#[verifier::external_body]
fn event_count(smf: &Smf<'_>, track: usize) -> (count: usize)
    requires
        track < smf_tracks(*smf).len(),
    ensures
        count == smf_tracks(*smf)[track as int].len(),
{
    smf.tracks[track].len()
}

/// One event of a track of `midly::Smf`. Its numbers are of the types `u4`, `u7`, `u24` and
/// `u28`, which hold as many bits as their names say.
#[verifier::external_body]
fn event_at(smf: &Smf<'_>, track: usize, index: usize) -> (event: FileEvent)
    requires
        track < smf_tracks(*smf).len(),
        index < smf_tracks(*smf)[track as int].len(),
    ensures
        event == smf_tracks(*smf)[track as int][index as int],
        event_in_range(event),
{
    let TrackEvent { delta, kind } = smf.tracks[track][index];
    let kind = match kind {
        Meta(MetaMessage::Tempo(tempo)) => EventKind::Tempo(tempo.as_int()),
        Meta(MetaMessage::EndOfTrack) => EventKind::EndOfTrack,
        Midi { channel, message } => EventKind::Midi { channel: channel.as_int(), message: match message {
            Message::NoteOff { key, vel } => MidiMessage::NoteOff { key: key.as_int(), vel: vel.as_int() },
            Message::NoteOn { key, vel } => MidiMessage::NoteOn { key: key.as_int(), vel: vel.as_int() },
            Message::Controller { controller, value } => MidiMessage::Controller { controller: controller.as_int(), value: value.as_int() },
            _ => MidiMessage::Other,
        } },
        _ => EventKind::Other,
    };
    FileEvent { delta: delta.as_int(), kind }
}

/// All events of one track.
fn read_track(smf: &Smf<'_>, track: usize) -> (events: Vec<FileEvent>)
    requires
        track < smf_tracks(*smf).len(),
    ensures
        events@ == smf_tracks(*smf)[track as int],
        forall|i: int| 0 <= i < events@.len() ==> event_in_range(#[trigger] events@[i]),
{
    let count = event_count(smf, track);
    let mut events: Vec<FileEvent> = Vec::new();
    let mut i: usize = 0;
    while i < count
        invariant
            i <= count,
            track < smf_tracks(*smf).len(),
            count == smf_tracks(*smf)[track as int].len(),
            events@ == smf_tracks(*smf)[track as int].take(i as int),
            forall|k: int| 0 <= k < events@.len() ==> event_in_range(#[trigger] events@[k]),
        decreases count - i,
    {
        events.push(event_at(smf, track, i));
        assert(events@ =~= smf_tracks(*smf)[track as int].take(i + 1));
        i = i + 1;
    }
    assert(events@ =~= smf_tracks(*smf)[track as int]);
    events
}

/// All tracks of a file.
fn tracks_of(smf: &Smf<'_>) -> (tracks: Vec<Vec<FileEvent>>)
    ensures
        track_contents(tracks@) == smf_tracks(*smf),
        tracks_in_range(track_contents(tracks@)),
{
    let count = track_count(smf);
    let mut tracks: Vec<Vec<FileEvent>> = Vec::new();
    let mut i: usize = 0;
    while i < count
        invariant
            i <= count,
            count == smf_tracks(*smf).len(),
            tracks@.len() == i,
            forall|k: int| 0 <= k < i ==> (#[trigger] tracks@[k])@ == smf_tracks(*smf)[k],
            tracks_in_range(track_contents(tracks@)),
        decreases count - i,
    {
        let ghost before = track_contents(tracks@);
        let track = read_track(smf, i);
        tracks.push(track);
        assert(track_contents(tracks@) =~= before.push(track@));
        i = i + 1;
    }
    assert(track_contents(tracks@) =~= smf_tracks(*smf));
    tracks
}

/// `midly::Smf::new` and `midly::Header::new`: a file with that header and no tracks.
#[verifier::external_body]
fn new_smf(format: FileFormat, ticks: u16) -> (smf: Smf<'static>)
    requires
        ticks < 0x8000,
    ensures
        smf_header(smf) == (FileHeader { format, timing: FileTiming::Metrical(ticks) }),
        smf_tracks(smf) == Seq::<Seq<FileEvent>>::empty(),
{
    let format = match format {
        FileFormat::SingleTrack => Format::SingleTrack,
        FileFormat::Parallel => Format::Parallel,
        FileFormat::Sequential => Format::Sequential,
    };
    Smf::new(Header::new(format, Timing::Metrical(u15::new(ticks))))
}

/// Adds an empty track to the `tracks` field of `midly::Smf`.
#[verifier::external_body]
fn push_track(smf: &mut Smf<'static>)
    ensures
        smf_header(*final(smf)) == smf_header(*old(smf)),
        smf_tracks(*final(smf)) == smf_tracks(*old(smf)).push(Seq::empty()),
{
    smf.tracks.push(Vec::new());
}

/// Adds an event to a track of `midly::Smf`. The constructors of `u4`, `u7`, `u24` and `u28`
/// keep numbers that are in range as they are.
#[verifier::external_body]
fn push_event(smf: &mut Smf<'static>, track: usize, item: TrackItem)
    requires
        track < smf_tracks(*old(smf)).len(),
        event_in_range(item.as_event()),
    ensures
        smf_header(*final(smf)) == smf_header(*old(smf)),
        smf_tracks(*final(smf)) == smf_tracks(*old(smf)).update(
            track as int,
            smf_tracks(*old(smf))[track as int].push(item.as_event()),
        ),
{
    let kind = match item.kind {
        ItemKind::Tempo(tempo) => Meta(MetaMessage::Tempo(u24::new(tempo))),
        ItemKind::NoteOff { channel, key, vel } => Midi {
            channel: u4::new(channel),
            message: Message::NoteOff { key: u7::new(key), vel: u7::new(vel) },
        },
        ItemKind::NoteOn { channel, key, vel } => Midi {
            channel: u4::new(channel),
            message: Message::NoteOn { key: u7::new(key), vel: u7::new(vel) },
        },
        ItemKind::EndOfTrack => Meta(MetaMessage::EndOfTrack),
    };
    smf.tracks[track].push(TrackEvent { delta: u28::new(item.delta), kind });
}

/// A track of this many events can always be written: an event takes up to ten bytes, and the
/// size of a track is written with 32 bits.
pub const MAX_TRACK_EVENTS: u64 = 0x1999_9999;

/// Neither the number of tracks nor the size of any of them exceeds what can be written.
pub open spec fn tracks_are_small(tracks: Seq<Seq<FileEvent>>) -> bool {
    &&& tracks.len() <= 0xffff
    &&& forall|i: int| 0 <= i < tracks.len() ==> (#[trigger] tracks[i]).len() <= MAX_TRACK_EVENTS
}

/// `midly::Smf::write_std` into memory: the result depends on the file alone, and
/// `midly::Smf::parse` reads the same file back from the bytes. It fails only where a file has
/// more than 65535 tracks or a track of 4 GB.
#[verifier::external_body]
fn write_smf(smf: &Smf<'_>) -> (written: Result<Vec<u8>, String>)
    requires
        smf_header(*smf).timing is Metrical,
        tracks_are_known(smf_tracks(*smf)),
    ensures
        match written {
            Ok(bytes) => {
                &&& written_midi(smf_model(*smf)) == Ok::<Seq<u8>, Seq<char>>(bytes@)
                &&& headers_readable(bytes@)
                &&& parsed_midi(bytes@) == Ok::<FileModel, Seq<char>>(smf_model(*smf))
            },
            Err(text) => written_midi(smf_model(*smf)) == Err::<Seq<u8>, Seq<char>>(text@),
        },
        tracks_are_small(smf_tracks(*smf)) ==> written is Ok,
{
    let mut bytes = Vec::new();
    match smf.write_std(&mut bytes) {
        Ok(()) => Ok(bytes),
        Err(error) => Err(error.to_string()),
    }
}

/// Reads a file. `parsed_midi` names what the bytes hold.
pub fn parse_midi(bytes: &[u8]) -> (parsed: Result<MidiFile, String>)
    requires
        headers_readable(bytes@),
    ensures
        match parsed {
            Ok(file) => {
                &&& parsed_midi(bytes@) == Ok::<FileModel, Seq<char>>(file@)
                &&& tracks_in_range(file@.tracks)
            },
            Err(text) => parsed_midi(bytes@) == Err::<FileModel, Seq<char>>(text@),
        },
{
    match parse_smf(bytes) {
        Ok(smf) => Ok(MidiFile { header: header_of(&smf), tracks: tracks_of(&smf) }),
        Err(text) => Err(text),
    }
}

/// The file with one track that `items` describe.
pub open spec fn single_track(ticks: u16, items: Seq<TrackItem>) -> FileModel {
    FileModel {
        header: FileHeader {
            format: FileFormat::SingleTrack,
            timing: FileTiming::Metrical(ticks),
        },
        tracks: seq![item_events(items)],
    }
}

/// Writes a file with one track of `ticks` ticks per quarter note. `written_midi` names its
/// bytes, and reading them gives the file back.
pub fn write_midi(ticks: u16, items: &Vec<TrackItem>) -> (written: Result<Vec<u8>, String>)
    requires
        ticks < 0x8000,
        forall|i: int| 0 <= i < items@.len() ==> event_in_range((#[trigger] items@[i]).as_event()),
    ensures
        match written {
            Ok(bytes) => {
                &&& written_midi(single_track(ticks, items@)) == Ok::<Seq<u8>, Seq<char>>(bytes@)
                &&& headers_readable(bytes@)
                &&& parsed_midi(bytes@) == Ok::<FileModel, Seq<char>>(single_track(ticks, items@))
            },
            Err(text) => written_midi(single_track(ticks, items@)) == Err::<Seq<u8>, Seq<char>>(
                text@,
            ),
        },
        items@.len() <= MAX_TRACK_EVENTS ==> written is Ok,
{
    let mut smf = new_smf(FileFormat::SingleTrack, ticks);
    push_track(&mut smf);
    let mut i: usize = 0;
    while i < items.len()
        invariant
            i <= items.len(),
            forall|i: int|
                0 <= i < items@.len() ==> event_in_range((#[trigger] items@[i]).as_event()),
            smf_header(smf) == single_track(ticks, items@).header,
            smf_tracks(smf).len() == 1,
            smf_tracks(smf)[0] == item_events(items@).take(i as int),
        decreases items.len() - i,
    {
        assert(event_in_range(items@[i as int].as_event()));
        push_event(&mut smf, 0, items[i]);
        assert(item_events(items@).take(i + 1) =~= item_events(items@).take(i as int).push(
            items@[i as int].as_event(),
        ));
        i = i + 1;
    }
    assert(smf_tracks(smf)[0] =~= item_events(items@));
    assert(smf_tracks(smf) =~= seq![item_events(items@)]);
    assert(smf_model(smf) =~= single_track(ticks, items@));
    assert(tracks_are_known(smf_tracks(smf)));
    write_smf(&smf)
}

} // verus!
