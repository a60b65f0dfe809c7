//! Writing notes to a standard MIDI file.

use crate::headers::headers_readable;
use crate::order::{
    is_sorted, key_le, sort_by_key, stable_sort, stable_sort_reorders, stable_sort_sorts, Keyed,
};
use crate::smf::{
    event_in_range, parsed_midi, single_track, write_midi, written_midi, FileFormat, FileModel,
    FileTiming, ItemKind, TrackItem, MAX_TRACK_EVENTS,
};
use vstd::prelude::*;

verus! {

/// The resolution of exported files.
pub const TICKS_PER_QUARTER: u16 = 24;

/// The longest distance between two events that the file format can express.
pub const MAX_DELTA: u64 = 0x0fff_ffff;

/// The slowest tempo that the file format can express, in microseconds per quarter note.
pub const MAX_TEMPO_US: u64 = 0x00ff_ffff;

/// A note whose times are counted in ticks.
#[derive(Clone, Copy, Debug, PartialEq, Eq, Structural)]
pub struct GridNote {
    pub pitch: u8,
    pub onset_ticks: u64,
    pub duration_ticks: u64,
    pub velocity: u8,
}

impl GridNote {
    /// The tick at which the note ends. It lasts at least one tick, and the count stops at
    /// the end of its range.
    pub open spec fn end_tick(self) -> u64 {
        let duration: int = if self.duration_ticks == 0 { 1 } else { self.duration_ticks as int };
        if self.onset_ticks + duration > u64::MAX {
            u64::MAX
        } else {
            (self.onset_ticks + duration) as u64
        }
    }

    /// Pitch and velocity fit in seven bits.
    pub open spec fn in_range(self) -> bool {
        self.pitch <= 127 && self.velocity <= 127
    }
}

/// Something to be written at a tick.
#[derive(Clone, Copy, Debug, PartialEq, Eq, Structural)]
pub struct ScheduledItem {
    pub tick: u64,
    pub priority: u8,
    pub kind: ItemKind,
}

/// At one tick, items of lower priority come first.
impl Keyed for ScheduledItem {
    open spec fn key(self) -> (int, int) {
        (self.tick as int, self.priority as int)
    }

    fn sort_key(&self) -> (key: (u64, u8)) {
        (self.tick, self.priority)
    }
}

/// The tempo, which comes before everything else.
pub open spec fn tempo_item(tempo_us: u32) -> ScheduledItem {
    ScheduledItem { tick: 0, priority: 0, kind: ItemKind::Tempo(tempo_us) }
}

/// The start of a note.
pub open spec fn on_item(note: GridNote) -> ScheduledItem {
    ScheduledItem {
        tick: note.onset_ticks,
        priority: 2,
        kind: ItemKind::NoteOn { channel: 0, key: note.pitch, vel: note.velocity },
    }
}

/// The end of a note, which comes before the notes that start at the same tick.
pub open spec fn off_item(note: GridNote) -> ScheduledItem {
    ScheduledItem {
        tick: note.end_tick(),
        priority: 1,
        kind: ItemKind::NoteOff { channel: 0, key: note.pitch, vel: 0 },
    }
}

/// The tempo and, for each note, its start and its end.
pub open spec fn scheduled(notes: Seq<GridNote>, tempo_us: u32) -> Seq<ScheduledItem>
    decreases notes.len(),
{
    if notes.len() == 0 {
        seq![tempo_item(tempo_us)]
    } else {
        scheduled(notes.drop_last(), tempo_us).push(on_item(notes.last())).push(
            off_item(notes.last()),
        )
    }
}

/// The distance of an item from the one before it.
pub open spec fn delta_at(items: Seq<ScheduledItem>, i: int) -> int {
    items[i].tick - if i == 0 { 0 } else { items[i - 1].tick as int }
}

/// The file format can express all distances.
pub open spec fn deltas_fit(items: Seq<ScheduledItem>) -> bool {
    forall|i: int| 0 <= i < items.len() ==> #[trigger] delta_at(items, i) <= MAX_DELTA
}

/// The events of the track: the items with their distances, and the end of the track.
pub open spec fn track_items(items: Seq<ScheduledItem>) -> Seq<TrackItem> {
    Seq::new(
        items.len() + 1,
        |i: int|
            if i < items.len() {
                TrackItem { delta: delta_at(items, i) as u32, kind: items[i].kind }
            } else {
                TrackItem { delta: 0, kind: ItemKind::EndOfTrack }
            },
    )
}

/// The track that is written for `notes`, or the reason why none is. `tempo_us` is the
/// rounded tempo; there is none if the beats per minute are not a positive number.
pub open spec fn exported(notes: Seq<GridNote>, tempo_us: Option<u64>) -> Result<
    Seq<TrackItem>,
    Seq<char>,
> {
    if notes.len() == 0 {
        Err("Nothing to export"@)
    } else {
        match tempo_us {
            None => Err("BPM must be greater than zero"@),
            Some(tempo) => if tempo < 1 || tempo > MAX_TEMPO_US {
                Err("BPM is outside the MIDI tempo range"@)
            } else if exists|i: int| 0 <= i < notes.len() && !(#[trigger] notes[i]).in_range() {
                Err("A note is outside the MIDI range"@)
            } else if !deltas_fit(stable_sort(scheduled(notes, tempo as u32))) {
                Err("MIDI event delta exceeds the file format limit"@)
            } else {
                Ok(track_items(stable_sort(scheduled(notes, tempo as u32))))
            },
        }
    }
}

/// The fields of an item fit the file format.
pub open spec fn kind_in_range(kind: ItemKind) -> bool {
    event_in_range((TrackItem { delta: 0, kind }).as_event())
}

proof fn scheduled_in_range(notes: Seq<GridNote>, tempo_us: u32)
    requires
        tempo_us <= MAX_TEMPO_US,
        forall|i: int| 0 <= i < notes.len() ==> (#[trigger] notes[i]).in_range(),
    ensures
        forall|i: int|
            0 <= i < scheduled(notes, tempo_us).len() ==> kind_in_range(
                (#[trigger] scheduled(notes, tempo_us)[i]).kind,
            ),
        scheduled(notes, tempo_us).len() == 2 * notes.len() + 1,
    decreases notes.len(),
{
    if notes.len() > 0 {
        let rest = notes.drop_last();
        assert forall|i: int| 0 <= i < rest.len() implies (#[trigger] rest[i]).in_range() by {
            assert(rest[i] == notes[i]);
        }
        scheduled_in_range(rest, tempo_us);
        assert(notes[notes.len() - 1].in_range());
        let all = scheduled(notes, tempo_us);
        let before = scheduled(rest, tempo_us);
        assert forall|i: int| 0 <= i < all.len() implies kind_in_range((#[trigger] all[i]).kind) by {
            if i < before.len() {
                assert(all[i] == before[i]);
            }
        }
    }
}

/// Schedules the tempo and the notes.
fn schedule(notes: &[GridNote], tempo_us: u32) -> (items: Result<Vec<ScheduledItem>, String>)
    ensures
        match items {
            Ok(items) => {
                &&& forall|i: int| 0 <= i < notes@.len() ==> (#[trigger] notes@[i]).in_range()
                &&& items@ == scheduled(notes@, tempo_us)
            },
            Err(text) => {
                &&& exists|i: int| 0 <= i < notes@.len() && !(#[trigger] notes@[i]).in_range()
                &&& text@ == "A note is outside the MIDI range"@
            },
        },
{
    let mut items: Vec<ScheduledItem> = Vec::new();
    items.push(ScheduledItem { tick: 0, priority: 0, kind: ItemKind::Tempo(tempo_us) });
    assert(items@ =~= scheduled(notes@.take(0), tempo_us));
    let mut i: usize = 0;
    while i < notes.len()
        invariant
            i <= notes.len(),
            forall|k: int| 0 <= k < i ==> (#[trigger] notes@[k]).in_range(),
            items@ == scheduled(notes@.take(i as int), tempo_us),
        decreases notes.len() - i,
    {
        let note = notes[i];
        if note.pitch > 127 || note.velocity > 127 {
            assert(!notes@[i as int].in_range());
            return Err("A note is outside the MIDI range".to_owned());
        }
        assert(notes@.take(i + 1).drop_last() =~= notes@.take(i as int));
        let duration: u64 = if note.duration_ticks > 1 { note.duration_ticks } else { 1 };
        items.push(
            ScheduledItem {
                tick: note.onset_ticks,
                priority: 2,
                kind: ItemKind::NoteOn { channel: 0, key: note.pitch, vel: note.velocity },
            },
        );
        items.push(
            ScheduledItem {
                tick: note.onset_ticks.saturating_add(duration),
                priority: 1,
                kind: ItemKind::NoteOff { channel: 0, key: note.pitch, vel: 0 },
            },
        );
        i = i + 1;
    }
    assert(notes@.take(notes.len() as int) =~= notes@);
    Ok(items)
}

/// Turns ticks into distances and ends the track.
fn lay_out(items: &Vec<ScheduledItem>) -> (track: Result<Vec<TrackItem>, String>)
    requires
        is_sorted(items@),
    ensures
        match track {
            Ok(track) => deltas_fit(items@) && track@ == track_items(items@),
            Err(text) => {
                &&& !deltas_fit(items@)
                &&& text@ == "MIDI event delta exceeds the file format limit"@
            },
        },
{
    let mut track: Vec<TrackItem> = Vec::new();
    let mut previous_tick: u64 = 0;
    let mut i: usize = 0;
    while i < items.len()
        invariant
            i <= items.len(),
            is_sorted(items@),
            previous_tick == if i == 0 { 0 } else { items@[i - 1].tick },
            forall|k: int| 0 <= k < i ==> #[trigger] delta_at(items@, k) <= MAX_DELTA,
            track@ == track_items(items@).take(i as int),
        decreases items.len() - i,
    {
        let item = items[i];
        proof {
            if i > 0 {
                assert(key_le(items@[i - 1].key(), items@[i as int].key()));
            }
        }
        let delta = item.tick - previous_tick;
        assert(delta == delta_at(items@, i as int));
        if delta > MAX_DELTA {
            return Err("MIDI event delta exceeds the file format limit".to_owned());
        }
        track.push(TrackItem { delta: delta as u32, kind: item.kind });
        assert(track@ =~= track_items(items@).take(i + 1));
        previous_tick = item.tick;
        i = i + 1;
    }
    track.push(TrackItem { delta: 0, kind: ItemKind::EndOfTrack });
    assert(track@ =~= track_items(items@));
    Ok(track)
}

/// Writes all notes to one track. The file that is written, named by `written_midi`, reads
/// back as the track that `exported` describes.
pub fn encode_midi(notes: &[GridNote], tempo_us: Option<u64>) -> (encoded: Result<
    Vec<u8>,
    String,
>)
    ensures
        match exported(notes@, tempo_us) {
            Err(text) => encoded matches Err(refused) && refused@ == text,
            Ok(items) => match written_midi(single_track(TICKS_PER_QUARTER, items)) {
                Err(text) => encoded matches Err(refused) && refused@
                    == "Could not encode MIDI file: "@ + text,
                Ok(expected) => {
                    &&& encoded matches Ok(bytes)
                    &&& bytes@ == expected
                    &&& headers_readable(bytes@)
                    &&& parsed_midi(bytes@) == Ok::<FileModel, Seq<char>>(
                        single_track(TICKS_PER_QUARTER, items),
                    )
                },
            },
        },
        exported(notes@, tempo_us) is Ok && 2 * notes@.len() + 2 <= MAX_TRACK_EVENTS
            ==> encoded is Ok,
        encoded matches Ok(bytes) ==> {
            &&& parsed_midi(bytes@) matches Ok(file)
            &&& file.header.format == FileFormat::SingleTrack
            &&& file.header.timing == FileTiming::Metrical(24)
            &&& file.tracks.len() == 1
        },
{
    if notes.len() == 0 {
        return Err("Nothing to export".to_owned());
    }
    let tempo_us = match tempo_us {
        Some(tempo) => tempo,
        None => {
            return Err("BPM must be greater than zero".to_owned());
        },
    };
    if tempo_us < 1 || tempo_us > MAX_TEMPO_US {
        return Err("BPM is outside the MIDI tempo range".to_owned());
    }
    let unsorted = match schedule(notes, tempo_us as u32) {
        Ok(items) => items,
        Err(text) => {
            return Err(text);
        },
    };
    let items = sort_by_key(&unsorted);
    proof {
        stable_sort_sorts(unsorted@);
        scheduled_in_range(notes@, tempo_us as u32);
    }
    let track = match lay_out(&items) {
        Ok(track) => track,
        Err(text) => {
            return Err(text);
        },
    };
    proof {
        assert forall|i: int| 0 <= i < track@.len() implies event_in_range(
            (#[trigger] track@[i]).as_event(),
        ) by {
            if i < items@.len() {
                assert(unsorted@.contains(stable_sort(unsorted@)[i]));
                let m = choose|m: int| 0 <= m < unsorted@.len() && unsorted@[m] == items@[i];
                assert(kind_in_range(unsorted@[m].kind));
                assert(delta_at(items@, i) <= MAX_DELTA);
                if i > 0 {
                    assert(key_le(items@[i - 1].key(), items@[i].key()));
                }
            }
        }
    }
    match write_midi(TICKS_PER_QUARTER, &track) {
        Ok(bytes) => Ok(bytes),
        Err(text) => {
            let mut refused = "Could not encode MIDI file: ".to_owned();
            refused.append(text.as_str());
            Err(refused)
        },
    }
}

/// What is written: the tempo, or the start or the end of a note.
pub enum Slot {
    Tempo,
    Start(int),
    End(int),
}

/// The slot is the tempo or belongs to a note.
pub open spec fn is_slot(notes: Seq<GridNote>, slot: Slot) -> bool {
    match slot {
        Slot::Tempo => true,
        Slot::Start(j) => 0 <= j < notes.len(),
        Slot::End(j) => 0 <= j < notes.len(),
    }
}

/// The tick of a slot. A note lasts at least one tick, and ticks do not go beyond 64 bits.
pub open spec fn slot_tick(notes: Seq<GridNote>, slot: Slot) -> int {
    match slot {
        Slot::Tempo => 0,
        Slot::Start(j) => notes[j].onset_ticks as int,
        Slot::End(j) => {
            let end = notes[j].onset_ticks + if notes[j].duration_ticks >= 1 {
                notes[j].duration_ticks as int
            } else {
                1
            };
            if end > u64::MAX { u64::MAX as int } else { end }
        },
    }
}

/// What a slot says.
pub open spec fn slot_kind(notes: Seq<GridNote>, tempo_us: u64, slot: Slot) -> ItemKind {
    match slot {
        Slot::Tempo => ItemKind::Tempo(tempo_us as u32),
        Slot::Start(j) => ItemKind::NoteOn {
            channel: 0,
            key: notes[j].pitch,
            vel: notes[j].velocity,
        },
        Slot::End(j) => ItemKind::NoteOff { channel: 0, key: notes[j].pitch, vel: 0 },
    }
}

/// Slots come in the order of their ticks. At one tick, the tempo comes first and notes end before
/// others start; else the order of the notes decides.
pub open spec fn slot_before(notes: Seq<GridNote>, a: Slot, b: Slot) -> bool {
    ||| slot_tick(notes, a) < slot_tick(notes, b)
    ||| slot_tick(notes, a) == slot_tick(notes, b) && match (a, b) {
        (Slot::Tempo, Slot::Tempo) => false,
        (Slot::Tempo, _) => true,
        (Slot::End(i), Slot::End(j)) => i < j,
        (Slot::End(_), Slot::Start(_)) => true,
        (Slot::Start(i), Slot::Start(j)) => i < j,
        _ => false,
    }
}

/// `slots` lists the tempo and the start and the end of every note, once and in order.
pub open spec fn lists_slots(notes: Seq<GridNote>, slots: Seq<Slot>) -> bool {
    &&& forall|m: int| 0 <= m < slots.len() ==> is_slot(notes, #[trigger] slots[m])
    &&& forall|slot: Slot| #[trigger] is_slot(notes, slot) ==> slots.contains(slot)
    &&& forall|a: int, b: int|
        #![trigger slots[a], slots[b]]
        0 <= a < b < slots.len() ==> slot_before(notes, slots[a], slots[b])
}

/// No two slots that follow each other are further apart than the file format can express.
pub open spec fn gaps_fit(notes: Seq<GridNote>, slots: Seq<Slot>) -> bool {
    forall|m: int|
        0 <= m < slots.len() ==> slot_tick(notes, #[trigger] slots[m]) - (if m > 0 {
            slot_tick(notes, slots[m - 1])
        } else {
            0
        }) <= 0x0fff_ffff
}

/// The distances of the first `count` items, summed up.
pub open spec fn ticks_over(track: Seq<TrackItem>, count: int) -> int
    decreases count,
{
    if count <= 0 {
        0
    } else {
        ticks_over(track, count - 1) + track[count - 1].delta
    }
}

/// The track says what the slots say, at their ticks, and ends with the last of them.
pub open spec fn writes(
    notes: Seq<GridNote>,
    tempo_us: u64,
    slots: Seq<Slot>,
    track: Seq<TrackItem>,
) -> bool {
    &&& track.len() == slots.len() + 1
    &&& forall|m: int|
        0 <= m < slots.len() ==> {
            &&& (#[trigger] track[m]).kind == slot_kind(notes, tempo_us, slots[m])
            &&& ticks_over(track, m + 1) == slot_tick(notes, slots[m])
        }
    &&& track[slots.len() as int].kind == ItemKind::EndOfTrack
    &&& track[slots.len() as int].delta == 0
}

/// An item and the slot that it stands for.
spec fn fills(notes: Seq<GridNote>, tempo_us: u64, slot: Slot, item: ScheduledItem) -> bool {
    &&& item.tick == slot_tick(notes, slot)
    &&& item.kind == slot_kind(notes, tempo_us, slot)
    &&& item.priority == match slot {
        Slot::Tempo => 0,
        Slot::Start(_) => 2u8,
        Slot::End(_) => 1,
    }
}

spec fn slot_note(slot: Slot) -> int {
    match slot {
        Slot::Tempo => -1,
        Slot::Start(j) => j,
        Slot::End(j) => j,
    }
}

proof fn scheduled_fills(notes: Seq<GridNote>, tempo_us: u64) -> (slots: Seq<Slot>)
    ensures
        slots.len() == scheduled(notes, tempo_us as u32).len(),
        forall|m: int|
            0 <= m < slots.len() ==> {
                &&& is_slot(notes, #[trigger] slots[m])
                &&& fills(notes, tempo_us, slots[m], scheduled(notes, tempo_us as u32)[m])
            },
        forall|slot: Slot| #[trigger] is_slot(notes, slot) ==> slots.contains(slot),
        forall|a: int, b: int|
            #![trigger slots[a], slots[b]]
            0 <= a < b < slots.len() ==> {
                ||| slot_note(slots[a]) < slot_note(slots[b])
                ||| slot_note(slots[a]) == slot_note(slots[b]) && slots[a] is Start
                    && slots[b] is End
            },
    decreases notes.len(),
{
    let all = scheduled(notes, tempo_us as u32);
    if notes.len() == 0 {
        let slots = seq![Slot::Tempo];
        assert(slots[0] == Slot::Tempo);
        slots
    } else {
        let rest = notes.drop_last();
        let last = rest.len() as int;
        let before = scheduled_fills(rest, tempo_us);
        let slots = before.push(Slot::Start(last)).push(Slot::End(last));
        assert forall|m: int| 0 <= m < slots.len() implies {
            &&& is_slot(notes, #[trigger] slots[m])
            &&& fills(notes, tempo_us, slots[m], all[m])
        } by {
            if m < before.len() {
                assert(slots[m] == before[m]);
                assert(is_slot(rest, before[m]));
                assert(fills(
                    rest,
                    tempo_us,
                    before[m],
                    scheduled(rest, tempo_us as u32)[m],
                ));
                assert(all[m] == scheduled(rest, tempo_us as u32)[m]);
            }
        }
        assert forall|slot: Slot| #[trigger] is_slot(notes, slot) implies slots.contains(slot) by {
            if slot_note(slot) < last {
                assert(is_slot(rest, slot));
                let m = choose|m: int| 0 <= m < before.len() && before[m] == slot;
                assert(slots[m] == slot);
            } else if slot is Start {
                assert(slots[before.len() as int] == slot);
            } else {
                assert(slots[before.len() as int + 1] == slot);
            }
        }
        assert forall|a: int, b: int|
            #![trigger slots[a], slots[b]]
            0 <= a < b < slots.len() implies {
            ||| slot_note(slots[a]) < slot_note(slots[b])
            ||| slot_note(slots[a]) == slot_note(slots[b]) && slots[a] is Start && slots[b] is End
        } by {
            if a < before.len() {
                assert(slots[a] == before[a]);
                assert(is_slot(rest, before[a]));
            }
            if b < before.len() {
                assert(slots[b] == before[b]);
            }
        }
        slots
    }
}

proof fn sorted_fills(notes: Seq<GridNote>, tempo_us: u64) -> (slots: Seq<Slot>)
    ensures
        lists_slots(notes, slots),
        slots.len() == stable_sort(scheduled(notes, tempo_us as u32)).len(),
        forall|m: int|
            0 <= m < slots.len() ==> fills(
                notes,
                tempo_us,
                #[trigger] slots[m],
                stable_sort(scheduled(notes, tempo_us as u32))[m],
            ),
{
    let items = scheduled(notes, tempo_us as u32);
    let unsorted = scheduled_fills(notes, tempo_us);
    let order = stable_sort_reorders(items);
    let sorted = stable_sort(items);
    let slots = Seq::new(items.len(), |m: int| unsorted[order[m]]);
    assert forall|m: int| 0 <= m < slots.len() implies is_slot(notes, #[trigger] slots[m])
        && fills(notes, tempo_us, slots[m], sorted[m]) by {
        assert(0 <= order[m] < items.len());
        assert(slots[m] == unsorted[order[m]]);
        assert(sorted[m] == items[order[m]]);
    }
    assert forall|slot: Slot| #[trigger] is_slot(notes, slot) implies slots.contains(slot) by {
        let k = choose|k: int| 0 <= k < unsorted.len() && unsorted[k] == slot;
        assert(order.contains(k));
        let m = choose|m: int| 0 <= m < order.len() && order[m] == k;
        assert(slots[m] == slot);
    }
    assert forall|a: int, b: int|
        #![trigger slots[a], slots[b]]
        0 <= a < b < slots.len() implies slot_before(notes, slots[a], slots[b]) by {
        assert(0 <= order[a] < items.len() && 0 <= order[b] < items.len());
        assert(slots[a] == unsorted[order[a]] && slots[b] == unsorted[order[b]]);
        assert(fills(notes, tempo_us, slots[a], items[order[a]]));
        assert(fills(notes, tempo_us, slots[b], items[order[b]]));
    }
    slots
}

proof fn distances_add_up(items: Seq<ScheduledItem>, count: int)
    requires
        0 <= count <= items.len(),
        deltas_fit(items),
        forall|a: int, b: int|
            #![trigger items[a], items[b]]
            0 <= a < b < items.len() ==> items[a].tick <= items[b].tick,
    ensures
        ticks_over(track_items(items), count) == if count == 0 {
            0
        } else {
            items[count - 1].tick as int
        },
    decreases count,
{
    if count > 0 {
        distances_add_up(items, count - 1);
        assert(delta_at(items, count - 1) <= MAX_DELTA);
        if count > 1 {
            assert(items[count - 2].tick <= items[count - 1].tick);
        }
        assert(track_items(items)[count - 1].delta == delta_at(items, count - 1));
    }
}

/// A track holds its notes: the tempo, and the start and the end of every note, each at its tick,
/// and nothing else. Nothing is written if there is no note or no tempo, if the tempo or a note
/// does not fit the file format, or if there is too long a gap.
pub proof fn tracks_hold_their_notes(notes: Seq<GridNote>, tempo_us: Option<u64>) -> (slots: Seq<
    Slot,
>)
    ensures
        lists_slots(notes, slots),
        ({
            let out_of_range = exists|i: int|
                0 <= i < notes.len() && ((#[trigger] notes[i]).pitch > 127 || notes[i].velocity
                    > 127);
            match exported(notes, tempo_us) {
                Ok(track) => {
                    &&& notes.len() > 0
                    &&& tempo_us is Some
                    &&& 1 <= tempo_us->0 <= 0xff_ffff
                    &&& !out_of_range
                    &&& gaps_fit(notes, slots)
                    &&& writes(notes, tempo_us->0, slots, track)
                },
                Err(text) => if notes.len() == 0 {
                    text == "Nothing to export"@
                } else if tempo_us is None {
                    text == "BPM must be greater than zero"@
                } else if tempo_us->0 == 0 || tempo_us->0 > 0xff_ffff {
                    text == "BPM is outside the MIDI tempo range"@
                } else if out_of_range {
                    text == "A note is outside the MIDI range"@
                } else {
                    &&& !gaps_fit(notes, slots)
                    &&& text == "MIDI event delta exceeds the file format limit"@
                },
            }
        }),
{
    let tempo = match tempo_us {
        Some(tempo) => tempo,
        None => 0,
    };
    let slots = sorted_fills(notes, tempo);
    let items = stable_sort(scheduled(notes, tempo as u32));
    assert forall|i: int| 0 <= i < notes.len() implies (#[trigger] notes[i]).in_range() == !(
    notes[i].pitch > 127 || notes[i].velocity > 127) by {}
    assert forall|a: int, b: int|
        #![trigger items[a], items[b]]
        0 <= a < b < items.len() implies items[a].tick <= items[b].tick by {
        assert(slot_before(notes, slots[a], slots[b]));
    }
    assert forall|m: int| 0 <= m < slots.len() implies #[trigger] delta_at(items, m) == slot_tick(
        notes,
        slots[m],
    ) - (if m > 0 {
        slot_tick(notes, slots[m - 1])
    } else {
        0
    }) by {
        assert(fills(notes, tempo, slots[m], items[m]));
        if m > 0 {
            assert(fills(notes, tempo, slots[m - 1], items[m - 1]));
        }
    }
    assert(deltas_fit(items) == gaps_fit(notes, slots)) by {
        if gaps_fit(notes, slots) {
            assert forall|i: int| 0 <= i < items.len() implies #[trigger] delta_at(items, i)
                <= MAX_DELTA by {
                assert(is_slot(notes, slots[i]));
            }
        }
        if deltas_fit(items) {
            assert forall|m: int| 0 <= m < slots.len() implies slot_tick(
                notes,
                #[trigger] slots[m],
            ) - (if m > 0 {
                slot_tick(notes, slots[m - 1])
            } else {
                0
            }) <= 0x0fff_ffff by {
                assert(delta_at(items, m) <= MAX_DELTA);
            }
        }
    }
    if exported(notes, tempo_us) is Ok {
        let track = track_items(items);
        assert forall|m: int| 0 <= m < slots.len() implies {
            &&& (#[trigger] track[m]).kind == slot_kind(notes, tempo, slots[m])
            &&& ticks_over(track, m + 1) == slot_tick(notes, slots[m])
        } by {
            assert(fills(notes, tempo, slots[m], items[m]));
            distances_add_up(items, m + 1);
        }
    }
    slots
}

} // verus!
