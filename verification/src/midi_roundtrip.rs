//! What a file that was exported holds when it is imported again.

use crate::keys::{finished_note, HeldNote, Keys};
use crate::midi_export::{
    delta_at, deltas_fit, exported, off_item, on_item, scheduled, tempo_item, track_items,
    GridNote, ScheduledItem, MAX_DELTA, TICKS_PER_QUARTER,
};
use crate::midi_file::{
    at_start, decoded, file_events, final_tick, imported, play_all, ticks_to_us, track_events,
    track_ticks, AbsoluteEvent, AbsoluteKind, Progress, KEY_COUNT,
};
use crate::order::{
    is_sorted, key_le, stable_sort, stable_sort_keeps_items, stable_sort_of_sorted,
    stable_sort_sorts, Keyed,
};
use crate::smf::{
    item_events, parsed_midi, single_track, FileEvent, FileModel, ItemKind, MidiMessage,
    TrackItem,
};
use crate::state::Note;
use vstd::prelude::*;
use vstd::seq_lib::*;

verus! {

/// The time from the start of a track to `tick`, in microseconds. The time of each event is
/// rounded down to a whole microsecond after the one before it.
pub open spec fn us_until(items: Seq<ScheduledItem>, tick: u64, tempo_us: u32) -> int
    decreases items.len(),
{
    if items.len() == 0 {
        0
    } else {
        us_until(items.drop_last(), tick, tempo_us) + if items.last().tick <= tick {
            ticks_to_us(
                delta_at(items, items.len() - 1),
                tempo_us as int,
                TICKS_PER_QUARTER as int,
            )
        } else {
            0
        }
    }
}

/// The time from the start of a track to `tick`, in whole milliseconds.
pub open spec fn ms_until(items: Seq<ScheduledItem>, tick: u64, tempo_us: u32) -> u64 {
    (us_until(items, tick, tempo_us) / 1_000) as u64
}

/// The note on the timeline that an exported note becomes again.
pub open spec fn restored(note: GridNote, items: Seq<ScheduledItem>, tempo_us: u32) -> Note {
    finished_note(note.pitch, held_from(note, items, tempo_us), ms_until(
        items,
        note.end_tick(),
        tempo_us,
    ))
}

/// The key of a note while it sounds.
pub open spec fn held_from(note: GridNote, items: Seq<ScheduledItem>, tempo_us: u32) -> HeldNote {
    HeldNote {
        onset_ms: ms_until(items, note.onset_ticks, tempo_us),
        velocity: note.velocity,
        released: false,
    }
}

/// The items of a file in their order.
pub open spec fn ordered_items(notes: Seq<GridNote>, tempo_us: u32) -> Seq<ScheduledItem> {
    stable_sort(scheduled(notes, tempo_us))
}

/// Every note can be heard, ends after it starts, and is over before the next one of its pitch
/// starts.
pub open spec fn notes_stay_apart(notes: Seq<GridNote>) -> bool {
    &&& forall|i: int|
        0 <= i < notes.len() ==> (#[trigger] notes[i]).velocity > 0 && notes[i].onset_ticks
            < notes[i].end_tick()
    &&& forall|i: int, j: int|
        #![trigger notes[i], notes[j]]
        0 <= i < notes.len() && 0 <= j < notes.len() && i != j && notes[i].pitch == notes[j].pitch
            ==> notes[i].end_tick() <= notes[j].onset_ticks || notes[j].end_tick()
            <= notes[i].onset_ticks
}

/// The time of a whole track.
spec fn total_us(items: Seq<ScheduledItem>, tempo_us: u32) -> int
    decreases items.len(),
{
    if items.len() == 0 {
        0
    } else {
        total_us(items.drop_last(), tempo_us) + ticks_to_us(
            delta_at(items, items.len() - 1),
            tempo_us as int,
            TICKS_PER_QUARTER as int,
        )
    }
}

proof fn no_ticks_take_no_time(tempo_us: int)
    ensures
        ticks_to_us(0, tempo_us, TICKS_PER_QUARTER as int) == 0,
{
    assert(0 * tempo_us == 0) by (nonlinear_arith);
}

proof fn time_is_not_negative(ticks: int, tempo_us: int)
    requires
        0 <= ticks,
        0 <= tempo_us,
    ensures
        0 <= ticks_to_us(ticks, tempo_us, TICKS_PER_QUARTER as int),
{
    assert(0 <= ticks * tempo_us) by (nonlinear_arith)
        requires
            0 <= ticks,
            0 <= tempo_us,
    ;
}

proof fn prefix_is_sorted(items: Seq<ScheduledItem>, k: int)
    requires
        is_sorted(items),
        0 <= k <= items.len(),
    ensures
        is_sorted(items.take(k)),
{
    let prefix = items.take(k);
    assert forall|i: int, j: int|
        #![trigger prefix[i], prefix[j]]
        0 <= i <= j < prefix.len() implies key_le(prefix[i].key(), prefix[j].key()) by {
        assert(key_le(items[i].key(), items[j].key()));
    }
}

proof fn delta_is_not_negative(items: Seq<ScheduledItem>, i: int)
    requires
        is_sorted(items),
        0 <= i < items.len(),
    ensures
        0 <= delta_at(items, i),
{
    if i > 0 {
        assert(key_le(items[i - 1].key(), items[i].key()));
    }
}

/// The time up to a tick that no item exceeds is that of all items.
proof fn us_until_the_end(items: Seq<ScheduledItem>, tick: u64, tempo_us: u32)
    requires
        forall|i: int| 0 <= i < items.len() ==> (#[trigger] items[i]).tick <= tick,
    ensures
        us_until(items, tick, tempo_us) == total_us(items, tempo_us),
    decreases items.len(),
{
    if items.len() > 0 {
        let rest = items.drop_last();
        assert forall|i: int| 0 <= i < rest.len() implies (#[trigger] rest[i]).tick <= tick by {
            assert(rest[i] == items[i]);
        }
        us_until_the_end(rest, tick, tempo_us);
        assert(items[items.len() - 1].tick <= tick);
    }
}

/// The time up to an item is that of the items up to it.
proof fn us_until_item(items: Seq<ScheduledItem>, k: int, tempo_us: u32)
    requires
        is_sorted(items),
        0 <= k < items.len(),
    ensures
        us_until(items, items[k].tick, tempo_us) == total_us(items.take(k + 1), tempo_us),
    decreases items.len(),
{
    let tick = items[k].tick;
    if k == items.len() - 1 {
        assert(items.take(k + 1) =~= items);
        assert forall|i: int| 0 <= i < items.len() implies (#[trigger] items[i]).tick <= tick by {
            assert(key_le(items[i].key(), items[k].key()));
        }
        us_until_the_end(items, tick, tempo_us);
    } else {
        let last = items.len() - 1;
        let rest = items.drop_last();
        assert(rest =~= items.take(last));
        prefix_is_sorted(items, last);
        us_until_item(rest, k, tempo_us);
        assert(rest[k] == items[k]);
        assert(rest.take(k + 1) =~= items.take(k + 1));
        assert(key_le(items[k].key(), items[last - 1].key()));
        assert(key_le(items[last - 1].key(), items[last].key()));
        if items.last().tick <= tick {
            assert(delta_at(items, last) == 0);
            no_ticks_take_no_time(tempo_us as int);
        }
    }
}

proof fn total_us_grows(items: Seq<ScheduledItem>, k: int, tempo_us: u32)
    requires
        is_sorted(items),
        0 <= k <= items.len(),
    ensures
        0 <= total_us(items.take(k), tempo_us) <= total_us(items, tempo_us),
    decreases items.len(),
{
    if k == items.len() {
        assert(items.take(k) =~= items);
        if k > 0 {
            let rest = items.drop_last();
            assert(rest =~= items.take(k - 1));
            prefix_is_sorted(items, k - 1);
            total_us_grows(rest, k - 1, tempo_us);
            assert(rest.take(k - 1) =~= rest);
            delta_is_not_negative(items, k - 1);
            time_is_not_negative(delta_at(items, k - 1), tempo_us as int);
        }
    } else {
        let last = items.len() - 1;
        let rest = items.drop_last();
        assert(rest =~= items.take(last));
        prefix_is_sorted(items, last);
        total_us_grows(rest, k, tempo_us);
        assert(rest.take(k) =~= items.take(k));
        delta_is_not_negative(items, last);
        time_is_not_negative(delta_at(items, last), tempo_us as int);
    }
}

/// Where the items of each note are scheduled.
proof fn scheduled_layout(notes: Seq<GridNote>, tempo_us: u32)
    ensures
        scheduled(notes, tempo_us).len() == 2 * notes.len() + 1,
        scheduled(notes, tempo_us)[0] == tempo_item(tempo_us),
        forall|j: int|
            0 <= j < notes.len() ==> scheduled(notes, tempo_us)[2 * j + 1] == on_item(
                #[trigger] notes[j],
            ) && scheduled(notes, tempo_us)[2 * j + 2] == off_item(notes[j]),
    decreases notes.len(),
{
    if notes.len() > 0 {
        let rest = notes.drop_last();
        scheduled_layout(rest, tempo_us);
        let before = scheduled(rest, tempo_us);
        let all = scheduled(notes, tempo_us);
        assert forall|j: int| 0 <= j < notes.len() implies all[2 * j + 1] == on_item(
            #[trigger] notes[j],
        ) && all[2 * j + 2] == off_item(notes[j]) by {
            if j < rest.len() {
                assert(rest[j] == notes[j]);
                assert(all[2 * j + 1] == before[2 * j + 1]);
                assert(all[2 * j + 2] == before[2 * j + 2]);
            }
        }
    }
}

/// An item belongs to the tempo or to a note.
spec fn belongs(item: ScheduledItem, notes: Seq<GridNote>, tempo_us: u32) -> bool {
    item == tempo_item(tempo_us) || exists|j: int|
        0 <= j < notes.len() && (item == on_item(#[trigger] notes[j]) || item == off_item(
            notes[j],
        ))
}

proof fn scheduled_members(notes: Seq<GridNote>, tempo_us: u32)
    ensures
        forall|i: int|
            0 <= i < scheduled(notes, tempo_us).len() ==> belongs(
                #[trigger] scheduled(notes, tempo_us)[i],
                notes,
                tempo_us,
            ),
{
    scheduled_layout(notes, tempo_us);
    let all = scheduled(notes, tempo_us);
    assert forall|i: int| 0 <= i < all.len() implies belongs(
        #[trigger] all[i],
        notes,
        tempo_us,
    ) by {
        if i > 0 {
            let j = (i - 1) / 2;
            assert(0 <= j < notes.len());
            assert(all[2 * j + 1] == on_item(notes[j]));
            assert(i == 2 * j + 1 || i == 2 * j + 2);
        }
    }
}

proof fn scheduled_once(notes: Seq<GridNote>, tempo_us: u32)
    requires
        notes_stay_apart(notes),
    ensures
        scheduled(notes, tempo_us).no_duplicates(),
{
    scheduled_layout(notes, tempo_us);
    let all = scheduled(notes, tempo_us);
    assert forall|a: int, b: int| 0 <= a < b < all.len() implies all[a] != all[b] by {
        let j = (b - 1) / 2;
        assert(0 <= j < notes.len());
        assert(all[2 * j + 1] == on_item(notes[j]));
        if a > 0 {
            let i = (a - 1) / 2;
            assert(0 <= i < notes.len());
            assert(all[2 * i + 1] == on_item(notes[i]));
            if i != j && notes[i].pitch == notes[j].pitch {
                assert(notes[i].onset_ticks < notes[i].end_tick());
                assert(notes[j].onset_ticks < notes[j].end_tick());
            }
        }
    }
}

/// The items of a file, in their order.
proof fn ordered_items_facts(notes: Seq<GridNote>, tempo_us: u32)
    requires
        notes_stay_apart(notes),
    ensures
        ({
            let items = ordered_items(notes, tempo_us);
            &&& is_sorted(items)
            &&& items.no_duplicates()
            &&& items.len() == 2 * notes.len() + 1
            &&& items[0] == tempo_item(tempo_us)
            &&& forall|i: int|
                0 <= i < items.len() ==> belongs(#[trigger] items[i], notes, tempo_us)
            &&& forall|j: int|
                0 <= j < notes.len() ==> items.contains(on_item(#[trigger] notes[j]))
                    && items.contains(off_item(notes[j]))
        }),
{
    let all = scheduled(notes, tempo_us);
    let items = ordered_items(notes, tempo_us);
    scheduled_layout(notes, tempo_us);
    scheduled_members(notes, tempo_us);
    scheduled_once(notes, tempo_us);
    stable_sort_sorts(all);
    stable_sort_keeps_items(all);
    all.lemma_multiset_has_no_duplicates();
    items.lemma_multiset_has_no_duplicates_conv();
    all.to_multiset_ensures();
    items.to_multiset_ensures();
    assert forall|i: int| 0 <= i < all.len() implies items.contains(#[trigger] all[i]) by {
        assert(all.contains(all[i]));
        assert(all.to_multiset().count(all[i]) > 0);
    }
    assert forall|j: int| 0 <= j < notes.len() implies items.contains(on_item(#[trigger] notes[j]))
        && items.contains(off_item(notes[j])) by {
        assert(items.contains(all[2 * j + 1]));
        assert(items.contains(all[2 * j + 2]));
    }
    assert forall|i: int| 0 <= i < items.len() implies belongs(
        #[trigger] items[i],
        notes,
        tempo_us,
    ) by {
        assert(all.contains(stable_sort(all)[i]));
        let m = choose|m: int| 0 <= m < all.len() && all[m] == items[i];
        assert(belongs(all[m], notes, tempo_us));
    }
    assert(items.contains(all[0]));
    let m = choose|m: int| 0 <= m < items.len() && items[m] == tempo_item(tempo_us);
    assert(key_le(items[0].key(), items[m].key()));
    assert(belongs(items[0], notes, tempo_us));
}

/// What matters of an item for its notes.
spec fn absolute_kind(kind: ItemKind) -> AbsoluteKind {
    match kind {
        ItemKind::Tempo(tempo) => AbsoluteKind::Tempo(tempo),
        ItemKind::NoteOff { channel, key, vel } => AbsoluteKind::Midi {
            channel,
            message: MidiMessage::NoteOff { key, vel },
        },
        ItemKind::NoteOn { channel, key, vel } => AbsoluteKind::Midi {
            channel,
            message: MidiMessage::NoteOn { key, vel },
        },
        ItemKind::EndOfTrack => AbsoluteKind::Tempo(0),
    }
}

/// The items as events with their distances from the start.
spec fn absolute_events(items: Seq<ScheduledItem>) -> Seq<AbsoluteEvent> {
    Seq::new(
        items.len(),
        |i: int| AbsoluteEvent { tick: items[i].tick, kind: absolute_kind(items[i].kind) },
    )
}

/// The events of a track that was laid out, read up to the item `k`.
proof fn laid_out_events(items: Seq<ScheduledItem>, k: int)
    requires
        is_sorted(items),
        deltas_fit(items),
        0 <= k <= items.len(),
        forall|i: int| 0 <= i < items.len() ==> !((#[trigger] items[i]).kind is EndOfTrack),
    ensures
        ({
            let track = item_events(track_items(items)).take(k);
            &&& track_ticks(track) == if k == 0 { 0 } else { items[k - 1].tick as int }
            &&& track_events(track) == absolute_events(items).take(k)
        }),
    decreases k,
{
    let all = item_events(track_items(items));
    let track = all.take(k);
    if k == 0 {
        assert(track_events(track) =~= absolute_events(items).take(0));
    } else {
        laid_out_events(items, k - 1);
        assert(track.drop_last() =~= all.take(k - 1));
        delta_is_not_negative(items, k - 1);
        assert(delta_at(items, k - 1) <= MAX_DELTA);
        assert(track.last() == track_items(items)[k - 1].as_event());
        assert(track.last().delta == delta_at(items, k - 1));
        assert(track_ticks(track) == items[k - 1].tick);
        assert(!(items[k - 1].kind is EndOfTrack));
        assert(track_events(track) =~= absolute_events(items).take(k));
    }
}

/// The events of a file that was laid out.
proof fn laid_out_file(items: Seq<ScheduledItem>)
    requires
        is_sorted(items),
        items.len() > 0,
        deltas_fit(items),
        forall|i: int| 0 <= i < items.len() ==> !((#[trigger] items[i]).kind is EndOfTrack),
    ensures
        ({
            let tracks = single_track(TICKS_PER_QUARTER, track_items(items)).tracks;
            &&& file_events(tracks) == absolute_events(items)
            &&& final_tick(tracks) == items.last().tick
        }),
{
    let count = items.len() as int;
    let track = item_events(track_items(items));
    let tracks = single_track(TICKS_PER_QUARTER, track_items(items)).tracks;
    laid_out_events(items, count);
    assert(track.drop_last() =~= track.take(count));
    assert(absolute_events(items).take(count) =~= absolute_events(items));
    assert(track_events(track) == absolute_events(items));
    assert(track_ticks(track) == items.last().tick);
    assert(tracks.drop_last() =~= Seq::<Seq<FileEvent>>::empty());
    assert(tracks.last() == track);
    assert(file_events(Seq::<Seq<FileEvent>>::empty()) =~= Seq::<AbsoluteEvent>::empty());
    assert(final_tick(Seq::<Seq<FileEvent>>::empty()) == 0);
    assert(file_events(tracks) =~= absolute_events(items));
}

/// Priorities tell what an item is.
proof fn priority_of_belonging(item: ScheduledItem, notes: Seq<GridNote>, tempo_us: u32)
    requires
        belongs(item, notes, tempo_us),
    ensures
        item.kind is Tempo <==> item.priority == 0,
        !(item.kind is EndOfTrack),
{
}

/// The events are in order as they stand.
proof fn absolute_events_are_sorted(notes: Seq<GridNote>, tempo_us: u32)
    requires
        notes_stay_apart(notes),
    ensures
        stable_sort(absolute_events(ordered_items(notes, tempo_us))) == absolute_events(
            ordered_items(notes, tempo_us),
        ),
{
    ordered_items_facts(notes, tempo_us);
    let items = ordered_items(notes, tempo_us);
    let events = absolute_events(items);
    assert forall|i: int, j: int|
        #![trigger events[i], events[j]]
        0 <= i <= j < events.len() implies key_le(events[i].key(), events[j].key()) by {
        assert(key_le(items[i].key(), items[j].key()));
        assert(belongs(items[i], notes, tempo_us));
        assert(belongs(items[j], notes, tempo_us));
        priority_of_belonging(items[i], notes, tempo_us);
        priority_of_belonging(items[j], notes, tempo_us);
    }
    stable_sort_of_sorted(events);
}

/// The first `k` items of a file hold the start of a note, but not its end.
spec fn is_pending(notes: Seq<GridNote>, items: Seq<ScheduledItem>, j: int, k: int) -> bool {
    &&& 0 <= j < notes.len()
    &&& items.take(k).contains(on_item(notes[j]))
    &&& !items.take(k).contains(off_item(notes[j]))
}

/// What the first `k` items of a file lead to; `completed` lists the notes that have ended.
spec fn has_played(
    notes: Seq<GridNote>,
    tempo_us: u32,
    k: int,
    progress: Progress,
    completed: Seq<int>,
) -> bool {
    let items = ordered_items(notes, tempo_us);
    let keys = progress.channels.keys;
    &&& progress.tempo_us == tempo_us
    &&& progress.first_tempo_us == Some(tempo_us)
    &&& progress.previous_tick == items[k - 1].tick
    &&& progress.elapsed_us == total_us(items.take(k), tempo_us)
    &&& progress.channels.sustain == Seq::new(16, |i: int| false)
    &&& keys.held.len() == KEY_COUNT
    &&& forall|j: int|
        is_pending(notes, items, j, k) ==> keys.held[(#[trigger] notes[j]).pitch as int] == Some(
            held_from(notes[j], items, tempo_us),
        )
    &&& forall|p: int|
        0 <= p < KEY_COUNT && (#[trigger] keys.held[p]) is Some ==> exists|j: int|
            is_pending(notes, items, j, k) && (#[trigger] notes[j]).pitch == p
    &&& completed.no_duplicates()
    &&& forall|i: int| 0 <= i < completed.len() ==> 0 <= #[trigger] completed[i] < notes.len()
    &&& forall|j: int|
        0 <= j < notes.len() ==> (completed.contains(j) <==> items.take(k).contains(
            off_item(#[trigger] notes[j]),
        ))
    &&& keys.notes == Seq::new(
        completed.len(),
        |i: int| restored(notes[completed[i]], items, tempo_us),
    )
}

/// Exported notes whose file can be read.
spec fn is_exportable(notes: Seq<GridNote>, tempo_us: u32) -> bool {
    &&& notes_stay_apart(notes)
    &&& forall|i: int| 0 <= i < notes.len() ==> (#[trigger] notes[i]).in_range()
    &&& 1 <= tempo_us
    &&& total_us(ordered_items(notes, tempo_us), tempo_us) / 1_000 <= u64::MAX
}

proof fn take_contains<T>(s: Seq<T>, k: int, m: int)
    requires
        s.no_duplicates(),
        0 <= k <= s.len(),
        0 <= m < s.len(),
    ensures
        s.take(k).contains(s[m]) <==> m < k,
{
    if m < k {
        assert(s.take(k)[m] == s[m]);
    } else if s.take(k).contains(s[m]) {
        let i = choose|i: int| 0 <= i < s.take(k).len() && s.take(k)[i] == s[m];
        assert(s[i] == s[m]);
    }
}

/// The items of one more step.
proof fn take_one_more<T>(s: Seq<T>, k: int, x: T)
    requires
        0 <= k < s.len(),
    ensures
        s.take(k + 1).contains(x) <==> s.take(k).contains(x) || x == s[k],
{
    let longer = s.take(k + 1);
    if longer.contains(x) {
        let i = choose|i: int| 0 <= i < longer.len() && longer[i] == x;
        if i < k {
            assert(s.take(k)[i] == x);
        }
    }
    if s.take(k).contains(x) {
        let i = choose|i: int| 0 <= i < s.take(k).len() && s.take(k)[i] == x;
        assert(longer[i] == x);
    }
    if x == s[k] {
        assert(longer[k] == x);
    }
}

/// The clock when the item `k` is read.
proof fn clock_at(notes: Seq<GridNote>, tempo_us: u32, k: int, progress: Progress)
    requires
        is_exportable(notes, tempo_us),
        1 <= k < ordered_items(notes, tempo_us).len(),
        progress.tempo_us == tempo_us,
        progress.previous_tick == ordered_items(notes, tempo_us)[k - 1].tick,
        progress.elapsed_us == total_us(ordered_items(notes, tempo_us).take(k), tempo_us),
    ensures
        ({
            let items = ordered_items(notes, tempo_us);
            let us = progress.us_at(items[k].tick, TICKS_PER_QUARTER);
            &&& us == total_us(items.take(k + 1), tempo_us)
            &&& 0 <= us
            &&& us / 1_000 <= u64::MAX
            &&& (us / 1_000) as u64 == ms_until(items, items[k].tick, tempo_us)
        }),
{
    let items = ordered_items(notes, tempo_us);
    ordered_items_facts(notes, tempo_us);
    let longer = items.take(k + 1);
    assert(longer.drop_last() =~= items.take(k));
    assert(delta_at(longer, k) == delta_at(items, k));
    delta_is_not_negative(items, k);
    total_us_grows(items, k + 1, tempo_us);
    us_until_item(items, k, tempo_us);
    if items[k].tick == items[k - 1].tick {
        no_ticks_take_no_time(tempo_us as int);
    }
}

/// Two notes of one pitch are never pending together.
proof fn pending_alone(notes: Seq<GridNote>, tempo_us: u32, k: int, i: int, j: int)
    requires
        is_exportable(notes, tempo_us),
        0 <= k < ordered_items(notes, tempo_us).len(),
        is_pending(notes, ordered_items(notes, tempo_us), i, k),
        0 <= j < notes.len(),
        i != j,
        ordered_items(notes, tempo_us)[k] == on_item(notes[j]) || ordered_items(
            notes,
            tempo_us,
        )[k] == off_item(notes[j]),
    ensures
        notes[i].pitch != notes[j].pitch,
{
    let items = ordered_items(notes, tempo_us);
    ordered_items_facts(notes, tempo_us);
    assert(items.contains(off_item(notes[i])));
    let b = choose|b: int| 0 <= b < items.len() && items[b] == off_item(notes[i]);
    take_contains(items, k, b);
    let a = choose|a: int| 0 <= a < items.take(k).len() && items.take(k)[a] == on_item(notes[i]);
    assert(items[a] == on_item(notes[i]));
    assert(key_le(items[a].key(), items[k].key()));
    assert(key_le(items[k].key(), items[b].key()));
    assert(notes[i].onset_ticks < notes[i].end_tick());
    assert(notes[j].onset_ticks < notes[j].end_tick());
}

/// A note starts.
proof fn plays_on(
    notes: Seq<GridNote>,
    tempo_us: u32,
    k: int,
    progress: Progress,
    completed: Seq<int>,
    j: int,
)
    requires
        is_exportable(notes, tempo_us),
        1 <= k < ordered_items(notes, tempo_us).len(),
        has_played(notes, tempo_us, k, progress, completed),
        0 <= j < notes.len(),
        ordered_items(notes, tempo_us)[k] == on_item(notes[j]),
    ensures
        ({
            let event = absolute_events(ordered_items(notes, tempo_us))[k];
            &&& progress.play(event, TICKS_PER_QUARTER) is Ok
            &&& has_played(
                notes,
                tempo_us,
                k + 1,
                progress.play(event, TICKS_PER_QUARTER)->Ok_0,
                completed,
            )
        }),
{
    let items = ordered_items(notes, tempo_us);
    let event = absolute_events(items)[k];
    let after = progress.play(event, TICKS_PER_QUARTER)->Ok_0;
    let keys = progress.channels.keys;
    ordered_items_facts(notes, tempo_us);
    clock_at(notes, tempo_us, k, progress);
    let pitch = notes[j].pitch as int;
    assert(notes[j].in_range());
    assert(notes[j].velocity > 0);
    assert(keys.held[pitch] is None) by {
        if keys.held[pitch] is Some {
            let i = choose|i: int|
                is_pending(notes, items, i, k) && (#[trigger] notes[i]).pitch == pitch;
            if i == j {
                take_contains(items, k, k);
            } else {
                pending_alone(notes, tempo_us, k, i, j);
            }
        }
    }
    assert(after.channels.keys == keys.press(pitch, notes[j].velocity, ms_until(
        items,
        notes[j].onset_ticks,
        tempo_us,
    )));
    assert(after.channels.keys.held == keys.held.update(
        pitch,
        Some(held_from(notes[j], items, tempo_us)),
    ));
    assert(after.channels.keys.notes == keys.notes);
    assert forall|i: int| is_pending(notes, items, i, k + 1) implies after.channels.keys.held[(
    #[trigger] notes[i]).pitch as int] == Some(held_from(notes[i], items, tempo_us)) by {
        if i != j {
            take_one_more(items, k, on_item(notes[i]));
            take_one_more(items, k, off_item(notes[i]));
            assert(notes[i].onset_ticks < notes[i].end_tick());
            assert(notes[j].onset_ticks < notes[j].end_tick());
            assert(on_item(notes[i]) != on_item(notes[j]));
            assert(is_pending(notes, items, i, k));
            pending_alone(notes, tempo_us, k, i, j);
        }
    }
    assert forall|p: int|
        0 <= p < KEY_COUNT && (#[trigger] after.channels.keys.held[p]) is Some implies exists|i: int|
        is_pending(notes, items, i, k + 1) && (#[trigger] notes[i]).pitch == p by {
        if p == pitch {
            take_one_more(items, k, on_item(notes[j]));
            take_one_more(items, k, off_item(notes[j]));
            assert(!items.take(k).contains(off_item(notes[j]))) by {
                if items.take(k).contains(off_item(notes[j])) {
                    let b = choose|b: int|
                        0 <= b < items.take(k).len() && items.take(k)[b] == off_item(notes[j]);
                    assert(items[b] == off_item(notes[j]));
                    assert(key_le(items[b].key(), items[k].key()));
                    assert(notes[j].onset_ticks < notes[j].end_tick());
                }
            }
            assert(is_pending(notes, items, j, k + 1));
        } else {
            assert(keys.held[p] is Some);
            let i = choose|i: int|
                is_pending(notes, items, i, k) && (#[trigger] notes[i]).pitch == p;
            take_one_more(items, k, on_item(notes[i]));
            take_one_more(items, k, off_item(notes[i]));
            assert(is_pending(notes, items, i, k + 1));
        }
    }
    assert forall|i: int| 0 <= i < notes.len() implies (completed.contains(i) <==> items.take(
        k + 1,
    ).contains(off_item(#[trigger] notes[i]))) by {
        take_one_more(items, k, off_item(notes[i]));
    }
}

/// One more note has ended.
proof fn completes_one_more(
    notes: Seq<GridNote>,
    tempo_us: u32,
    k: int,
    completed: Seq<int>,
    j: int,
)
    requires
        is_exportable(notes, tempo_us),
        1 <= k < ordered_items(notes, tempo_us).len(),
        0 <= j < notes.len(),
        ordered_items(notes, tempo_us)[k] == off_item(notes[j]),
        completed.no_duplicates(),
        forall|i: int| 0 <= i < completed.len() ==> 0 <= #[trigger] completed[i] < notes.len(),
        forall|i: int|
            0 <= i < notes.len() ==> (completed.contains(i) <==> ordered_items(
                notes,
                tempo_us,
            ).take(k).contains(off_item(#[trigger] notes[i]))),
    ensures
        ({
            let longer = completed.push(j);
            &&& longer.no_duplicates()
            &&& forall|i: int| 0 <= i < longer.len() ==> 0 <= #[trigger] longer[i] < notes.len()
            &&& forall|i: int|
                0 <= i < notes.len() ==> (longer.contains(i) <==> ordered_items(
                    notes,
                    tempo_us,
                ).take(k + 1).contains(off_item(#[trigger] notes[i])))
        }),
{
    let items = ordered_items(notes, tempo_us);
    ordered_items_facts(notes, tempo_us);
    let longer = completed.push(j);
    take_contains(items, k, k);
    assert(!completed.contains(j)) by {
        assert(off_item(notes[j]) == items[k]);
    }
    assert forall|a: int, b: int|
        0 <= a < longer.len() && 0 <= b < longer.len() && a != b implies longer[a] != longer[b] by {
        if a == completed.len() {
            assert(completed.contains(completed[b]));
        } else if b == completed.len() {
            assert(completed.contains(completed[a]));
        }
    }
    assert forall|i: int| 0 <= i < notes.len() implies (longer.contains(i) <==> items.take(
        k + 1,
    ).contains(off_item(#[trigger] notes[i]))) by {
        take_one_more(items, k, off_item(notes[i]));
        if i == j {
            assert(longer[completed.len() as int] == j);
        } else {
            assert(notes[i].onset_ticks < notes[i].end_tick());
            assert(notes[j].onset_ticks < notes[j].end_tick());
            assert(off_item(notes[i]) != off_item(notes[j]));
            if completed.contains(i) {
                let a = choose|a: int| 0 <= a < completed.len() && completed[a] == i;
                assert(longer[a] == i);
            }
            if longer.contains(i) {
                let a = choose|a: int| 0 <= a < longer.len() && longer[a] == i;
                assert(completed[a] == i);
            }
        }
    }
}

/// A note ends.
proof fn plays_off(
    notes: Seq<GridNote>,
    tempo_us: u32,
    k: int,
    progress: Progress,
    completed: Seq<int>,
    j: int,
)
    requires
        is_exportable(notes, tempo_us),
        1 <= k < ordered_items(notes, tempo_us).len(),
        has_played(notes, tempo_us, k, progress, completed),
        0 <= j < notes.len(),
        ordered_items(notes, tempo_us)[k] == off_item(notes[j]),
    ensures
        ({
            let event = absolute_events(ordered_items(notes, tempo_us))[k];
            &&& progress.play(event, TICKS_PER_QUARTER) is Ok
            &&& has_played(
                notes,
                tempo_us,
                k + 1,
                progress.play(event, TICKS_PER_QUARTER)->Ok_0,
                completed.push(j),
            )
        }),
{
    let items = ordered_items(notes, tempo_us);
    let event = absolute_events(items)[k];
    let after = progress.play(event, TICKS_PER_QUARTER)->Ok_0;
    let keys = progress.channels.keys;
    ordered_items_facts(notes, tempo_us);
    clock_at(notes, tempo_us, k, progress);
    let pitch = notes[j].pitch as int;
    assert(notes[j].in_range());
    assert(notes[j].onset_ticks < notes[j].end_tick());
    assert(is_pending(notes, items, j, k)) by {
        take_contains(items, k, k);
        assert(items.contains(on_item(notes[j])));
        let a = choose|a: int| 0 <= a < items.len() && items[a] == on_item(notes[j]);
        if a >= k {
            assert(key_le(items[k].key(), items[a].key()));
        }
        take_contains(items, k, a);
    }
    assert(keys.held[notes[j].pitch as int] == Some(held_from(notes[j], items, tempo_us)));
    assert(!progress.channels.sustain[0]);
    assert(after.channels.keys == keys.finish(pitch, ms_until(
        items,
        notes[j].end_tick(),
        tempo_us,
    )));
    assert(after.channels.keys.held == keys.held.update(pitch, None));
    assert(after.channels.keys.notes == keys.notes.push(restored(notes[j], items, tempo_us)));
    assert forall|i: int| is_pending(notes, items, i, k + 1) implies after.channels.keys.held[(
    #[trigger] notes[i]).pitch as int] == Some(held_from(notes[i], items, tempo_us)) by {
        take_one_more(items, k, on_item(notes[i]));
        take_one_more(items, k, off_item(notes[i]));
        assert(i != j);
        assert(is_pending(notes, items, i, k));
        pending_alone(notes, tempo_us, k, i, j);
    }
    assert forall|p: int|
        0 <= p < KEY_COUNT && (#[trigger] after.channels.keys.held[p]) is Some implies exists|i: int|
        is_pending(notes, items, i, k + 1) && (#[trigger] notes[i]).pitch == p by {
        assert(p != pitch);
        assert(keys.held[p] is Some);
        let i = choose|i: int|
            is_pending(notes, items, i, k) && (#[trigger] notes[i]).pitch == p;
        take_one_more(items, k, on_item(notes[i]));
        take_one_more(items, k, off_item(notes[i]));
        assert(is_pending(notes, items, i, k + 1));
    }
    let longer = completed.push(j);
    completes_one_more(notes, tempo_us, k, completed, j);
    assert(after.channels.keys.notes =~= Seq::new(
        longer.len(),
        |i: int| restored(notes[longer[i]], items, tempo_us),
    ));
}

/// The tempo is set.
proof fn plays_tempo(notes: Seq<GridNote>, tempo_us: u32)
    requires
        is_exportable(notes, tempo_us),
    ensures
        ({
            let event = absolute_events(ordered_items(notes, tempo_us))[0];
            &&& at_start().play(event, TICKS_PER_QUARTER) is Ok
            &&& has_played(
                notes,
                tempo_us,
                1,
                at_start().play(event, TICKS_PER_QUARTER)->Ok_0,
                Seq::empty(),
            )
        }),
{
    let items = ordered_items(notes, tempo_us);
    ordered_items_facts(notes, tempo_us);
    let event = absolute_events(items)[0];
    assert(event == AbsoluteEvent { tick: 0, kind: AbsoluteKind::Tempo(tempo_us) });
    let none: Seq<int> = Seq::empty();
    no_ticks_take_no_time(500_000);
    no_ticks_take_no_time(tempo_us as int);
    let after = at_start().play(event, TICKS_PER_QUARTER)->Ok_0;
    let first = items.take(1);
    assert(first.drop_last() =~= Seq::<ScheduledItem>::empty());
    assert(delta_at(first, 0) == 0);
    assert(total_us(first.drop_last(), tempo_us) == 0);
    assert(total_us(first, tempo_us) == 0);
    assert forall|j: int| 0 <= j < notes.len() implies !first.contains(
        on_item(#[trigger] notes[j]),
    ) && !first.contains(off_item(notes[j])) by {
        assert(first[0] == tempo_item(tempo_us));
    }
    assert(after.channels.keys.notes =~= Seq::new(
        none.len(),
        |i: int| restored(notes[none[i]], items, tempo_us),
    ));
}

/// Plays the first `k` items, and returns the notes that have ended then.
proof fn plays_items(notes: Seq<GridNote>, tempo_us: u32, k: int) -> (completed: Seq<int>)
    requires
        is_exportable(notes, tempo_us),
        1 <= k <= ordered_items(notes, tempo_us).len(),
    ensures
        ({
            let played = play_all(
                absolute_events(ordered_items(notes, tempo_us)).take(k),
                TICKS_PER_QUARTER,
            );
            &&& played is Ok
            &&& has_played(notes, tempo_us, k, played->Ok_0, completed)
        }),
    decreases k,
{
    let items = ordered_items(notes, tempo_us);
    let events = absolute_events(items);
    ordered_items_facts(notes, tempo_us);
    assert(events.take(k).drop_last() =~= events.take(k - 1));
    assert(events.take(k).last() == events[k - 1]);
    if k == 1 {
        plays_tempo(notes, tempo_us);
        assert(events.take(0) =~= Seq::<AbsoluteEvent>::empty());
        assert(play_all(events.take(0), TICKS_PER_QUARTER) == Ok::<Progress, Seq<char>>(
            at_start(),
        ));
        Seq::empty()
    } else {
        let before = plays_items(notes, tempo_us, k - 1);
        let progress = play_all(events.take(k - 1), TICKS_PER_QUARTER)->Ok_0;
        assert(belongs(items[k - 1], notes, tempo_us));
        assert(items[k - 1] != items[0]);
        let j = choose|j: int|
            0 <= j < notes.len() && (items[k - 1] == on_item(#[trigger] notes[j]) || items[k - 1]
                == off_item(notes[j]));
        if items[k - 1] == on_item(notes[j]) {
            plays_on(notes, tempo_us, k - 1, progress, before, j);
            before
        } else {
            plays_off(notes, tempo_us, k - 1, progress, before, j);
            before.push(j)
        }
    }
}

/// Where nothing is held, nothing is left to end.
proof fn nothing_left_to_finish(keys: Keys, count: int, end_ms: u64)
    requires
        0 <= count <= keys.held.len(),
        forall|i: int| 0 <= i < keys.held.len() ==> (#[trigger] keys.held[i]) is None,
    ensures
        keys.finish_all(count, end_ms) == keys,
    decreases count,
{
    if count > 0 {
        nothing_left_to_finish(keys, count - 1, end_ms);
        assert(keys.held[count - 1] is None);
    }
}

/// Values listed in another order are the same values.
proof fn reordered<T>(values: Seq<T>, order: Seq<int>)
    requires
        order.no_duplicates(),
        forall|i: int| 0 <= i < order.len() ==> 0 <= #[trigger] order[i] < values.len(),
        forall|j: int| 0 <= j < values.len() ==> #[trigger] order.contains(j),
    ensures
        Seq::new(order.len(), |i: int| values[order[i]]).to_multiset() == values.to_multiset(),
    decreases values.len(),
{
    let listed = Seq::new(order.len(), |i: int| values[order[i]]);
    if values.len() == 0 {
        assert(order.len() == 0) by {
            if order.len() > 0 {
                assert(0 <= order[0] < values.len());
            }
        }
        assert(listed =~= values);
    } else {
        let last = values.len() - 1;
        let rest = values.drop_last();
        assert(order.contains(last as int));
        let m = choose|m: int| 0 <= m < order.len() && order[m] == last;
        let fewer = order.remove(m);
        assert forall|i: int| 0 <= i < fewer.len() implies 0 <= #[trigger] fewer[i]
            < rest.len() by {
            let k = if i < m { i } else { i + 1 };
            assert(fewer[i] == order[k]);
            assert(order[k] != order[m]);
        }
        assert forall|j: int| 0 <= j < rest.len() implies #[trigger] fewer.contains(j) by {
            assert(order.contains(j));
            let k = choose|k: int| 0 <= k < order.len() && order[k] == j;
            if k < m {
                assert(fewer[k] == j);
            } else {
                assert(fewer[k - 1] == j);
            }
        }
        assert(fewer.no_duplicates()) by {
            assert forall|a: int, b: int|
                0 <= a < fewer.len() && 0 <= b < fewer.len() && a != b implies fewer[a]
                != fewer[b] by {
                let ka = if a < m { a } else { a + 1 };
                let kb = if b < m { b } else { b + 1 };
                assert(fewer[a] == order[ka] && fewer[b] == order[kb]);
            }
        }
        reordered(rest, fewer);
        let listed_rest = Seq::new(fewer.len(), |i: int| rest[fewer[i]]);
        assert(listed.remove(m) =~= listed_rest);
        to_multiset_remove(listed, m);
        assert(listed[m] == values.last());
        to_multiset_build(rest, values.last());
        assert(rest.push(values.last()) =~= values);
        listed.to_multiset_ensures();
        assert(listed.contains(listed[m]));
        assert(listed.to_multiset() =~= listed.to_multiset().remove(values.last()).insert(
            values.last(),
        ));
    }
}

/// What is exported can be imported again. Every note comes back with its pitch and velocity,
/// its start and end moved to the milliseconds of their ticks, and as a played note; the notes
/// are ordered by onset and pitch, and the tempo is the same.
///
/// It holds of notes that can be heard and do not overlap on one pitch, unless the time of the
/// last one is beyond the clock. `bytes` are those that the notes were written to.
pub proof fn importing_undoes_exporting(
    notes: Seq<GridNote>,
    tempo_us: u64,
    bytes: Seq<u8>,
)
    requires
        exported(notes, Some(tempo_us)) is Ok,
        parsed_midi(bytes) == Ok::<FileModel, Seq<char>>(
            single_track(TICKS_PER_QUARTER, exported(notes, Some(tempo_us))->Ok_0),
        ),
        notes_stay_apart(notes),
        us_until(ordered_items(notes, tempo_us as u32), u64::MAX, tempo_us as u32) / 1_000
            <= u64::MAX,
    ensures
        decoded(bytes) matches Ok((found, found_tempo)) && found_tempo == tempo_us && is_sorted(
            found,
        ) && found.to_multiset() == Seq::new(
            notes.len(),
            |i: int|
                restored(notes[i], ordered_items(notes, tempo_us as u32), tempo_us as u32),
        ).to_multiset(),
{
    let tempo = tempo_us as u32;
    let items = ordered_items(notes, tempo);
    ordered_items_facts(notes, tempo);
    us_until_the_end(items, u64::MAX, tempo);
    assert(is_exportable(notes, tempo));
    let file = single_track(TICKS_PER_QUARTER, track_items(items));
    assert(exported(notes, Some(tempo_us)) == Ok::<Seq<TrackItem>, Seq<char>>(track_items(items)));
    assert forall|i: int| 0 <= i < items.len() implies !((#[trigger] items[i]).kind is EndOfTrack)
        by {
        assert(belongs(items[i], notes, tempo));
        priority_of_belonging(items[i], notes, tempo);
    }
    laid_out_file(items);
    absolute_events_are_sorted(notes, tempo);
    let events = absolute_events(items);
    let count = items.len() as int;
    let completed = plays_items(notes, tempo, count);
    assert(events.take(count) =~= events);
    assert(items.take(count) =~= items);
    let progress = play_all(events, TICKS_PER_QUARTER)->Ok_0;
    let keys = progress.channels.keys;
    assert forall|p: int| 0 <= p < keys.held.len() implies (#[trigger] keys.held[p]) is None by {
        if keys.held[p] is Some {
            let j = choose|j: int|
                is_pending(notes, items, j, count) && (#[trigger] notes[j]).pitch == p;
            assert(items.contains(off_item(notes[j])));
        }
    }
    total_us_grows(items, count, tempo);
    no_ticks_take_no_time(tempo as int);
    let end_us = progress.us_at(items.last().tick, TICKS_PER_QUARTER);
    assert(end_us == total_us(items, tempo));
    nothing_left_to_finish(keys, KEY_COUNT as int, (end_us / 1_000) as u64);
    let values = Seq::new(notes.len(), |i: int| restored(notes[i], items, tempo));
    assert forall|j: int| 0 <= j < notes.len() implies #[trigger] completed.contains(j) by {
        assert(items.contains(off_item(notes[j])));
    }
    reordered(values, completed);
    assert(keys.notes =~= Seq::new(completed.len(), |i: int| values[completed[i]]));
    stable_sort_sorts(keys.notes);
    stable_sort_keeps_items(keys.notes);
    assert(keys.notes.len() > 0) by {
        assert(completed.contains(0));
    }
    assert(imported(file) == Ok::<(Seq<Note>, u32), Seq<char>>((stable_sort(keys.notes), tempo)));
}

/// Reading a file rounds the time of each of its events down by less than a microsecond: the
/// time up to an item is that of its ticks, less a microsecond for each item at most.
pub proof fn rounding_is_slight(items: Seq<ScheduledItem>, k: int, tempo_us: u32)
    requires
        is_sorted(items),
        0 <= k < items.len(),
    ensures
        ({
            let us = us_until(items, items[k].tick, tempo_us);
            let exact = items[k].tick * tempo_us;
            &&& us * TICKS_PER_QUARTER <= exact
            &&& exact < (us + k + 1) * TICKS_PER_QUARTER
        }),
    decreases k,
{
    us_until_item(items, k, tempo_us);
    let longer = items.take(k + 1);
    assert(longer.drop_last() =~= items.take(k));
    assert(delta_at(longer, k) == delta_at(items, k));
    let delta = delta_at(items, k);
    let tempo = tempo_us as int;
    if k == 0 {
        assert(items.take(0) =~= Seq::<ScheduledItem>::empty());
        assert(total_us(items.take(0), tempo_us) == 0);
        assert(delta == items[0].tick);
    } else {
        rounding_is_slight(items, k - 1, tempo_us);
        us_until_item(items, k - 1, tempo_us);
        let before = items[k - 1].tick as int;
        assert(items[k].tick * tempo == before * tempo + delta * tempo) by (nonlinear_arith)
            requires
                items[k].tick == before + delta,
        ;
    }
}

} // verus!
