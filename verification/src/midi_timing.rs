//! When the events of a standard MIDI file happen, and which notes they make.

use crate::keys::lift_pedal_keeps_pressed_keys;
use crate::midi_file::{
    file_events, final_tick, imported, play_all, relevant, track_events, track_ticks,
    AbsoluteEvent, AbsoluteKind, Channels, Progress, KEY_COUNT,
};
use crate::order::{lists_all, stable_sort, stable_sort_reorders};
use crate::performance::{
    completed_notes, ending_follows, ends, ends_first_at, first_of, follows, lasting_notes,
    letting_go_follows, lists_completed, lists_lasting, pedal_is_down, pedal_of_prefix,
    pedalling_follows, silence_follows, sounds_until, striking_follows, waiting_follows, Gesture,
    Moment,
};
use crate::smf::{
    event_in_range, tracks_in_range, EventKind, FileEvent, FileFormat, FileModel, FileTiming,
    MidiMessage,
};
use crate::state::Note;
use vstd::prelude::*;

verus! {

/// The distances of a track summed up to its event `j`.
pub open spec fn distance_to(track: Seq<FileEvent>, j: int) -> int
    decreases j + 1,
{
    if j < 0 {
        0
    } else {
        distance_to(track, j - 1) + track[j].delta
    }
}

/// The tick of the event `j` of a track. Ticks do not go beyond 64 bits.
pub open spec fn tick_of(track: Seq<FileEvent>, j: int) -> int {
    let distance = distance_to(track, j);
    if distance > u64::MAX { u64::MAX as int } else { distance }
}

/// The events that have to do with notes: tempo changes, keys, and the sustain pedal.
pub open spec fn concerns_notes(kind: EventKind) -> bool {
    match kind {
        EventKind::Tempo(_) => true,
        EventKind::Midi { message: MidiMessage::NoteOn { .. }, .. } => true,
        EventKind::Midi { message: MidiMessage::NoteOff { .. }, .. } => true,
        EventKind::Midi { message: MidiMessage::Controller { controller, .. }, .. } => controller
            == 64,
        _ => false,
    }
}

/// Where an event stands: its track, and its place there.
pub open spec fn is_spot(tracks: Seq<Seq<FileEvent>>, spot: (int, int)) -> bool {
    &&& 0 <= spot.0 < tracks.len()
    &&& 0 <= spot.1 < tracks[spot.0].len()
    &&& concerns_notes(tracks[spot.0][spot.1].kind)
}

pub open spec fn kind_at(tracks: Seq<Seq<FileEvent>>, spot: (int, int)) -> EventKind {
    tracks[spot.0][spot.1].kind
}

pub open spec fn tick_at(tracks: Seq<Seq<FileEvent>>, spot: (int, int)) -> int {
    tick_of(tracks[spot.0], spot.1)
}

/// Events happen in the order of their ticks. At one tick, tempo changes come first; among the
/// rest, earlier tracks do, and within a track the order of the track stands.
pub open spec fn happens_before(
    tracks: Seq<Seq<FileEvent>>,
    a: (int, int),
    b: (int, int),
) -> bool {
    let same_kind = (kind_at(tracks, a) is Tempo) == (kind_at(tracks, b) is Tempo);
    ||| tick_at(tracks, a) < tick_at(tracks, b)
    ||| tick_at(tracks, a) == tick_at(tracks, b) && kind_at(tracks, a) is Tempo && !(kind_at(
        tracks,
        b,
    ) is Tempo)
    ||| tick_at(tracks, a) == tick_at(tracks, b) && same_kind && (a.0 < b.0 || a.0 == b.0 && a.1
        < b.1)
}

/// `spots` lists all events that have to do with notes, once, in the order in which they happen.
pub open spec fn lists_events(tracks: Seq<Seq<FileEvent>>, spots: Seq<(int, int)>) -> bool {
    &&& forall|m: int| 0 <= m < spots.len() ==> is_spot(tracks, #[trigger] spots[m])
    &&& forall|spot: (int, int)| #[trigger] is_spot(tracks, spot) ==> spots.contains(spot)
    &&& forall|a: int, b: int|
        #![trigger spots[a], spots[b]]
        0 <= a < b < spots.len() ==> happens_before(tracks, spots[a], spots[b])
}

/// An event with its tick.
pub struct Scheduled {
    pub tick: int,
    pub kind: EventKind,
}

/// The events at given spots.
pub open spec fn schedule(tracks: Seq<Seq<FileEvent>>, spots: Seq<(int, int)>) -> Seq<Scheduled> {
    Seq::new(
        spots.len(),
        |m: int| Scheduled { tick: tick_at(tracks, spots[m]), kind: kind_at(tracks, spots[m]) },
    )
}

/// The tempo on the way to the event `m`: the latest one that an event before it sets, or half
/// a second per quarter note.
pub open spec fn tempo_towards(events: Seq<Scheduled>, m: int) -> int
    decreases m,
{
    if m <= 0 {
        500_000
    } else {
        match events[m - 1].kind {
            EventKind::Tempo(tempo) => tempo as int,
            _ => tempo_towards(events, m - 1),
        }
    }
}

/// The time from the event before to a tick that the event `m`, or the end, has.
pub open spec fn us_between(events: Seq<Scheduled>, m: int, tick: int, quarter: int) -> int {
    (tick - if m > 0 { events[m - 1].tick } else { 0 }) * tempo_towards(events, m) / quarter
}

/// The time of the event `m` in microseconds: the stretches up to it, each at its own tempo.
pub open spec fn us_of(events: Seq<Scheduled>, m: int, quarter: int) -> int
    decreases m + 1,
{
    if m < 0 {
        0
    } else {
        us_of(events, m - 1, quarter) + us_between(events, m, events[m].tick, quarter)
    }
}

/// The time at which the file ends.
pub open spec fn us_at_end(events: Seq<Scheduled>, end_tick: int, quarter: int) -> int {
    us_of(events, events.len() - 1, quarter) + us_between(
        events,
        events.len() as int,
        end_tick,
        quarter,
    )
}

/// What an event does to the keys, of which each channel has 128.
pub open spec fn gesture_of_event(kind: EventKind) -> Gesture {
    match kind {
        EventKind::Midi { channel, message: MidiMessage::NoteOn { key, vel } } => if vel > 0 {
            Gesture::Strike { key: channel * 128 + key, velocity: vel }
        } else {
            Gesture::LetGo { key: channel * 128 + key }
        },
        EventKind::Midi { channel, message: MidiMessage::NoteOff { key, .. } } => Gesture::LetGo {
            key: channel * 128 + key,
        },
        EventKind::Midi {
            channel,
            message: MidiMessage::Controller { controller, value },
        } => if controller == 64 {
            Gesture::Pedal { first: channel * 128, down: value >= 64 }
        } else {
            Gesture::Nothing
        },
        _ => Gesture::Nothing,
    }
}

/// What the first `count` events play, at whole milliseconds.
pub open spec fn played_by(events: Seq<Scheduled>, count: int, quarter: int) -> Seq<Moment> {
    Seq::new(
        count as nat,
        |m: int|
            Moment {
                gesture: gesture_of_event(events[m].kind),
                at_ms: (us_of(events, m, quarter) / 1_000) as u64,
            },
    )
}

/// The length of the longest track.
pub open spec fn is_end(tracks: Seq<Seq<FileEvent>>, end_tick: int) -> bool {
    &&& forall|t: int|
        0 <= t < tracks.len() ==> tick_of(#[trigger] tracks[t], tracks[t].len() - 1) <= end_tick
    &&& end_tick == 0 || exists|t: int|
        0 <= t < tracks.len() && tick_of(#[trigger] tracks[t], tracks[t].len() - 1) == end_tick
}

/// The tempo of the first event that sets one, or half a second per quarter note.
pub open spec fn is_first_tempo(events: Seq<Scheduled>, count: int, tempo: int) -> bool {
    ||| tempo == 500_000 && forall|m: int|
        0 <= m < count ==> !((#[trigger] events[m]).kind is Tempo)
    ||| exists|m: int|
        {
            &&& 0 <= m < count
            &&& (#[trigger] events[m]).kind is Tempo
            &&& events[m].kind->Tempo_0 == tempo
            &&& forall|l: int| 0 <= l < m ==> !((#[trigger] events[l]).kind is Tempo)
        }
}

/// The event comes late enough that its time does not fit.
pub open spec fn comes_too_late(events: Seq<Scheduled>, m: int, quarter: int) -> bool {
    us_of(events, m, quarter) / 1_000 > u64::MAX
}

/// The event can be played.
pub open spec fn can_be_played(events: Seq<Scheduled>, m: int, quarter: int) -> bool {
    !comes_too_late(events, m, quarter) && events[m].kind != EventKind::Tempo(0)
}

proof fn distance_of_prefix(track: Seq<FileEvent>, rest: Seq<FileEvent>, j: int)
    requires
        rest == track.drop_last(),
        track.len() > 0,
        j < rest.len(),
    ensures
        distance_to(rest, j) == distance_to(track, j),
        distance_to(track, j) >= 0,
    decreases j + 1,
{
    if j >= 0 {
        distance_of_prefix(track, rest, j - 1);
    }
}

proof fn track_ticks_add_up(track: Seq<FileEvent>)
    ensures
        track_ticks(track) == tick_of(track, track.len() - 1),
        distance_to(track, track.len() - 1) >= 0,
        0 <= track_ticks(track) <= u64::MAX,
    decreases track.len(),
{
    if track.len() > 0 {
        let rest = track.drop_last();
        track_ticks_add_up(rest);
        distance_of_prefix(track, rest, rest.len() - 1);
    }
}

/// An event that matters, and what it stands for.
spec fn stands_for(event: AbsoluteEvent, tick: int, kind: EventKind) -> bool {
    &&& event.tick == tick
    &&& concerns_notes(kind)
    &&& match event.kind {
        AbsoluteKind::Tempo(tempo) => kind == EventKind::Tempo(tempo),
        AbsoluteKind::Midi { channel, message } => kind == (EventKind::Midi { channel, message }),
    }
}

spec fn lists_track(track: Seq<FileEvent>, places: Seq<int>) -> bool {
    &&& places.len() == track_events(track).len()
    &&& forall|m: int|
        0 <= m < places.len() ==> {
            &&& 0 <= #[trigger] places[m] < track.len()
            &&& stands_for(
                track_events(track)[m],
                tick_of(track, places[m]),
                track[places[m]].kind,
            )
        }
    &&& forall|j: int|
        0 <= j < track.len() && concerns_notes((#[trigger] track[j]).kind) ==> places.contains(j)
    &&& forall|a: int, b: int|
        #![trigger places[a], places[b]]
        0 <= a < b < places.len() ==> places[a] < places[b]
}

proof fn track_lists(track: Seq<FileEvent>) -> (places: Seq<int>)
    ensures
        lists_track(track, places),
    decreases track.len(),
{
    if track.len() == 0 {
        Seq::empty()
    } else {
        let rest = track.drop_last();
        let last = rest.len() as int;
        let before = track_lists(rest);
        track_ticks_add_up(track);
        let places = if concerns_notes(track[last].kind) {
            before.push(last)
        } else {
            before
        };
        let events = track_events(track);
        assert(relevant(track[last].kind) is Some == concerns_notes(track[last].kind));
        assert forall|m: int| 0 <= m < places.len() implies {
            &&& 0 <= #[trigger] places[m] < track.len()
            &&& stands_for(events[m], tick_of(track, places[m]), track[places[m]].kind)
        } by {
            if m < before.len() {
                assert(places[m] == before[m]);
                assert(events[m] == track_events(rest)[m]);
                assert(rest[before[m]] == track[before[m]]);
                distance_of_prefix(track, rest, before[m]);
            }
        }
        assert forall|j: int|
            0 <= j < track.len() && concerns_notes(
                (#[trigger] track[j]).kind,
            ) implies places.contains(j) by {
            if j < last {
                assert(rest[j] == track[j]);
                let m = choose|m: int| 0 <= m < before.len() && before[m] == j;
                assert(places[m] == j);
            } else {
                assert(places[before.len() as int] == j);
            }
        }
        places
    }
}

spec fn lists_file(tracks: Seq<Seq<FileEvent>>, spots: Seq<(int, int)>) -> bool {
    &&& spots.len() == file_events(tracks).len()
    &&& forall|m: int|
        0 <= m < spots.len() ==> {
            &&& is_spot(tracks, #[trigger] spots[m])
            &&& stands_for(
                file_events(tracks)[m],
                tick_at(tracks, spots[m]),
                kind_at(tracks, spots[m]),
            )
        }
    &&& forall|spot: (int, int)| #[trigger] is_spot(tracks, spot) ==> spots.contains(spot)
    &&& forall|a: int, b: int|
        #![trigger spots[a], spots[b]]
        0 <= a < b < spots.len() ==> spots[a].0 < spots[b].0 || spots[a].0 == spots[b].0
            && spots[a].1 < spots[b].1
}

proof fn file_lists(tracks: Seq<Seq<FileEvent>>) -> (spots: Seq<(int, int)>)
    ensures
        lists_file(tracks, spots),
    decreases tracks.len(),
{
    if tracks.len() == 0 {
        Seq::empty()
    } else {
        let rest = tracks.drop_last();
        let last = rest.len() as int;
        let before = file_lists(rest);
        let places = track_lists(tracks[last]);
        let new = Seq::new(places.len(), |m: int| (last, places[m]));
        let spots = before + new;
        let events = file_events(tracks);
        assert(events == file_events(rest) + track_events(tracks[last]));
        assert forall|m: int| 0 <= m < spots.len() implies {
            &&& is_spot(tracks, #[trigger] spots[m])
            &&& stands_for(events[m], tick_at(tracks, spots[m]), kind_at(tracks, spots[m]))
        } by {
            if m < before.len() {
                assert(spots[m] == before[m]);
                assert(is_spot(rest, before[m]));
                assert(rest[before[m].0] == tracks[before[m].0]);
                assert(events[m] == file_events(rest)[m]);
            } else {
                let x = m - before.len();
                assert(spots[m] == new[x]);
                assert(new[x] == (last, places[x]));
                assert(events[m] == track_events(tracks[last])[x]);
            }
        }
        assert forall|spot: (int, int)| #[trigger] is_spot(tracks, spot) implies spots.contains(
            spot,
        ) by {
            if spot.0 < last {
                assert(rest[spot.0] == tracks[spot.0]);
                assert(is_spot(rest, spot));
                let m = choose|m: int| 0 <= m < before.len() && before[m] == spot;
                assert(spots[m] == spot);
            } else {
                assert(concerns_notes(tracks[last][spot.1].kind));
                assert(places.contains(spot.1));
                let x = choose|x: int| 0 <= x < places.len() && places[x] == spot.1;
                assert(new[x] == spot);
                assert(spots[before.len() + x] == spot);
            }
        }
        assert forall|a: int, b: int|
            #![trigger spots[a], spots[b]]
            0 <= a < b < spots.len() implies spots[a].0 < spots[b].0 || spots[a].0 == spots[b].0
            && spots[a].1 < spots[b].1 by {
            if b < before.len() {
                assert(spots[a] == before[a] && spots[b] == before[b]);
            } else if a < before.len() {
                assert(spots[a] == before[a]);
                assert(is_spot(rest, before[a]));
                assert(spots[b] == new[b - before.len()]);
            } else {
                assert(spots[a] == new[a - before.len()]);
                assert(spots[b] == new[b - before.len()]);
                assert(places[a - before.len()] < places[b - before.len()]);
            }
        }
        spots
    }
}

/// The sorted events stand for what the file schedules.
proof fn sorted_lists(tracks: Seq<Seq<FileEvent>>) -> (spots: Seq<(int, int)>)
    ensures
        lists_events(tracks, spots),
        spots.len() == stable_sort(file_events(tracks)).len(),
        forall|m: int|
            0 <= m < spots.len() ==> {
                &&& is_spot(tracks, #[trigger] spots[m])
                &&& stands_for(
                    stable_sort(file_events(tracks))[m],
                    tick_at(tracks, spots[m]),
                    kind_at(tracks, spots[m]),
                )
            },
{
    let events = file_events(tracks);
    let unsorted = file_lists(tracks);
    let order = stable_sort_reorders(events);
    let sorted = stable_sort(events);
    let spots = Seq::new(events.len(), |m: int| unsorted[order[m]]);
    assert forall|m: int| 0 <= m < spots.len() implies {
        &&& is_spot(tracks, #[trigger] spots[m])
        &&& stands_for(sorted[m], tick_at(tracks, spots[m]), kind_at(tracks, spots[m]))
    } by {
        assert(0 <= order[m] < events.len());
        assert(spots[m] == unsorted[order[m]]);
        assert(sorted[m] == events[order[m]]);
    }
    assert forall|spot: (int, int)| #[trigger] is_spot(tracks, spot) implies spots.contains(
        spot,
    ) by {
        let i = choose|i: int| 0 <= i < unsorted.len() && unsorted[i] == spot;
        assert(order.contains(i));
        let m = choose|m: int| 0 <= m < order.len() && order[m] == i;
        assert(spots[m] == spot);
    }
    assert forall|a: int, b: int|
        #![trigger spots[a], spots[b]]
        0 <= a < b < spots.len() implies happens_before(tracks, spots[a], spots[b]) by {
        let first = events[order[a]];
        let second = events[order[b]];
        assert(0 <= order[a] < events.len() && 0 <= order[b] < events.len());
        assert(spots[a] == unsorted[order[a]] && spots[b] == unsorted[order[b]]);
        assert(stands_for(first, tick_at(tracks, spots[a]), kind_at(tracks, spots[a])));
        assert(stands_for(second, tick_at(tracks, spots[b]), kind_at(tracks, spots[b])));
    }
    spots
}

proof fn final_tick_is_end(tracks: Seq<Seq<FileEvent>>)
    ensures
        is_end(tracks, final_tick(tracks)),
        0 <= final_tick(tracks) <= u64::MAX,
    decreases tracks.len(),
{
    if tracks.len() > 0 {
        let rest = tracks.drop_last();
        let last = rest.len() as int;
        final_tick_is_end(rest);
        track_ticks_add_up(tracks[last]);
        let end = final_tick(tracks);
        assert forall|t: int| 0 <= t < tracks.len() implies tick_of(
            #[trigger] tracks[t],
            tracks[t].len() - 1,
        ) <= end by {
            if t < last {
                assert(rest[t] == tracks[t]);
            }
        }
        if end != 0 {
            if end == final_tick(rest) {
                let t = choose|t: int|
                    0 <= t < rest.len() && tick_of(#[trigger] rest[t], rest[t].len() - 1)
                        == final_tick(rest);
                assert(rest[t] == tracks[t]);
            } else {
                assert(tick_of(tracks[last], tracks[last].len() - 1) == end);
            }
        }
    }
}

proof fn distances_ascend(track: Seq<FileEvent>, i: int, j: int)
    requires
        -1 <= i <= j < track.len(),
    ensures
        0 <= distance_to(track, i) <= distance_to(track, j),
    decreases j + 1,
{
    if j >= 0 {
        if i < j {
            distances_ascend(track, i, j - 1);
        } else {
            distances_ascend(track, i - 1, j - 1);
        }
    }
}

/// Scheduled events are in range, and their ticks ascend.
spec fn schedule_ok(events: Seq<Scheduled>) -> bool {
    &&& forall|m: int|
        0 <= m < events.len() ==> {
            &&& 0 <= (#[trigger] events[m]).tick <= u64::MAX
            &&& event_in_range(FileEvent { delta: 0, kind: events[m].kind })
        }
    &&& forall|a: int, b: int|
        #![trigger events[a], events[b]]
        0 <= a < b < events.len() ==> events[a].tick <= events[b].tick
}

/// The progress after `count` events.
spec fn progress_follows(
    events: Seq<Scheduled>,
    count: int,
    quarter: int,
    progress: Progress,
    completed: Seq<(int, int)>,
) -> bool {
    let moments = played_by(events, count, quarter);
    &&& progress.channels.wf()
    &&& progress.tempo_us == tempo_towards(events, count)
    &&& progress.previous_tick == (if count > 0 { events[count - 1].tick } else { 0 })
    &&& progress.elapsed_us == us_of(events, count - 1, quarter)
    &&& is_first_tempo(
        events,
        count,
        match progress.first_tempo_us {
            Some(tempo) => tempo as int,
            None => 500_000,
        },
    )
    &&& progress.first_tempo_us is None <==> forall|m: int|
        0 <= m < count ==> !((#[trigger] events[m]).kind is Tempo)
    &&& forall|c: int|
        0 <= c < 16 ==> #[trigger] progress.channels.sustain[c] == pedal_is_down(
            moments,
            count,
            c * 128,
        )
    &&& follows(moments, Seq::empty(), progress.channels.keys, completed)
}

/// The channels after one more event.
proof fn applying_follows(
    moments: Seq<Moment>,
    channels: Channels,
    completed: Seq<(int, int)>,
    channel: u8,
    message: MidiMessage,
    at_ms: u64,
) -> (completed_after: Seq<(int, int)>)
    requires
        channels.wf(),
        follows(moments, Seq::empty(), channels.keys, completed),
        forall|c: int|
            0 <= c < 16 ==> #[trigger] channels.sustain[c] == pedal_is_down(
                moments,
                moments.len() as int,
                c * 128,
            ),
        event_in_range(FileEvent { delta: 0, kind: EventKind::Midi { channel, message } }),
    ensures
        ({
            let next = Moment {
                gesture: gesture_of_event(EventKind::Midi { channel, message }),
                at_ms,
            };
            let longer = moments.push(next);
            let after = channels.apply(message, channel, at_ms);
            &&& after.wf()
            &&& follows(longer, Seq::empty(), after.keys, completed_after)
            &&& forall|c: int|
                0 <= c < 16 ==> #[trigger] after.sustain[c] == pedal_is_down(
                    longer,
                    longer.len() as int,
                    c * 128,
                )
        }),
{
    let kind = EventKind::Midi { channel, message };
    let next = Moment { gesture: gesture_of_event(kind), at_ms };
    let longer = moments.push(next);
    let n = moments.len() as int;
    let after = channels.apply(message, channel, at_ms);
    assert(longer[n] == next);
    assert forall|c: int| 0 <= c < 16 implies #[trigger] after.sustain[c] == pedal_is_down(
        longer,
        n + 1,
        c * 128,
    ) by {
        assert(channels.sustain[c] == pedal_is_down(moments, n, c * 128));
        pedal_of_prefix(moments, next, n, c * 128);
    }
    assert(channels.sustain[channel as int] == pedal_is_down(moments, n, channel * 128));
    match next.gesture {
        Gesture::Strike { key, velocity } => striking_follows(
            moments,
            Seq::empty(),
            channels.keys,
            completed,
            key,
            velocity,
            at_ms,
        ),
        Gesture::LetGo { key } => {
            assert(first_of(key) == channel * 128);
            letting_go_follows(moments, Seq::empty(), channels.keys, completed, key, at_ms)
        },
        Gesture::Pedal { first, down } => {
            lift_pedal_keeps_pressed_keys(channels.keys, first, 128, at_ms);
            assert(first % 128 == 0);
            pedalling_follows(
                moments,
                Seq::empty(),
                channels.keys,
                completed,
                first,
                down,
                at_ms,
            )
        },
        Gesture::Nothing => waiting_follows(
            moments,
            Seq::empty(),
            channels.keys,
            completed,
            at_ms,
        ),
    }
}

/// Why playing stops.
pub open spec fn stops_at(
    events: Seq<Scheduled>,
    count: int,
    quarter: int,
    text: Seq<char>,
) -> bool {
    exists|m: int|
        {
            &&& 0 <= m < count
            &&& !#[trigger] can_be_played(events, m, quarter)
            &&& forall|l: int| 0 <= l < m ==> #[trigger] can_be_played(events, l, quarter)
            &&& text == if comes_too_late(events, m, quarter) {
                "MIDI timeline is too long"@
            } else {
                "MIDI file contains a zero tempo"@
            }
        }
}

proof fn one_more_is_first_tempo(events: Seq<Scheduled>, count: int, before: Option<u32>)
    requires
        0 <= count < events.len(),
        is_first_tempo(
            events,
            count,
            match before {
                Some(tempo) => tempo as int,
                None => 500_000,
            },
        ),
        before is None <==> forall|m: int|
            0 <= m < count ==> !((#[trigger] events[m]).kind is Tempo),
    ensures
        ({
            let after = match events[count].kind {
                EventKind::Tempo(tempo) => if before is None {
                    Some(tempo)
                } else {
                    before
                },
                _ => before,
            };
            &&& is_first_tempo(
                events,
                count + 1,
                match after {
                    Some(tempo) => tempo as int,
                    None => 500_000,
                },
            )
            &&& after is None <==> forall|m: int|
                0 <= m < count + 1 ==> !((#[trigger] events[m]).kind is Tempo)
        }),
{
    if before is Some {
        let tempo = before->0 as int;
        let k = choose|k: int| 0 <= k < count && (#[trigger] events[k]).kind is Tempo;
        assert(events[k].kind is Tempo);
        let m = choose|m: int|
            {
                &&& 0 <= m < count
                &&& (#[trigger] events[m]).kind is Tempo
                &&& events[m].kind->Tempo_0 == tempo
                &&& forall|l: int| 0 <= l < m ==> !((#[trigger] events[l]).kind is Tempo)
            };
        assert(0 <= m < count + 1 && events[m].kind is Tempo);
    } else if events[count].kind is Tempo {
        assert(0 <= count < count + 1 && events[count].kind is Tempo);
    }
}

proof fn playing_follows(
    sorted: Seq<AbsoluteEvent>,
    events: Seq<Scheduled>,
    count: int,
    ticks_per_quarter: u16,
) -> (completed: Seq<(int, int)>)
    requires
        0 <= count <= events.len(),
        sorted.len() == events.len(),
        forall|m: int|
            0 <= m < events.len() ==> stands_for(
                sorted[m],
                (#[trigger] events[m]).tick,
                events[m].kind,
            ),
        schedule_ok(events),
        ticks_per_quarter > 0,
    ensures
        ({
            let quarter = ticks_per_quarter as int;
            match play_all(sorted.take(count), ticks_per_quarter) {
                Ok(progress) => {
                    &&& forall|m: int|
                        0 <= m < count ==> #[trigger] can_be_played(events, m, quarter)
                    &&& progress_follows(events, count, quarter, progress, completed)
                },
                Err(text) => stops_at(events, count, quarter, text),
            }
        }),
    decreases count,
{
    let quarter = ticks_per_quarter as int;
    if count == 0 {
        silence_follows(Seq::empty(), KEY_COUNT as nat);
        assert(played_by(events, 0, quarter) =~= Seq::empty());
        Seq::empty()
    } else {
        let k = count - 1;
        let completed = playing_follows(sorted, events, k, ticks_per_quarter);
        assert(sorted.take(count).drop_last() =~= sorted.take(k));
        let event = sorted[k];
        assert(sorted.take(count).last() == event);
        assert(stands_for(event, events[k].tick, events[k].kind));
        match play_all(sorted.take(k), ticks_per_quarter) {
            Err(text) => {
                let m = choose|m: int|
                    {
                        &&& 0 <= m < k
                        &&& !#[trigger] can_be_played(events, m, quarter)
                        &&& forall|l: int|
                            0 <= l < m ==> #[trigger] can_be_played(events, l, quarter)
                        &&& text == if comes_too_late(events, m, quarter) {
                            "MIDI timeline is too long"@
                        } else {
                            "MIDI file contains a zero tempo"@
                        }
                    };
                assert(!can_be_played(events, m, quarter));
                completed
            },
            Ok(progress) => {
                let us = us_of(events, k, quarter);
                if k > 0 {
                    assert(events[k - 1].tick <= events[k].tick);
                }
                assert(progress.us_at(event.tick, ticks_per_quarter) == us) by {
                    let before = if k > 0 { events[k - 1].tick } else { 0 };
                    assert(before <= event.tick);
                }
                assert(can_be_played(events, k, quarter) == progress.play(
                    event,
                    ticks_per_quarter,
                ) is Ok);
                if !can_be_played(events, k, quarter) {
                    completed
                } else {
                    let at_ms = (us / 1_000) as u64;
                    let moments = played_by(events, k, quarter);
                    let longer = played_by(events, count, quarter);
                    let next = Moment { gesture: gesture_of_event(events[k].kind), at_ms };
                    assert(longer =~= moments.push(next));
                    one_more_is_first_tempo(events, k, progress.first_tempo_us);
                    let after = progress.play(event, ticks_per_quarter)->Ok_0;
                    match event.kind {
                        AbsoluteKind::Tempo(tempo) => {
                            assert forall|c: int|
                                0 <= c < 16 implies #[trigger] after.channels.sustain[c]
                                == pedal_is_down(longer, count, c * 128) by {
                                assert(progress.channels.sustain[c] == pedal_is_down(
                                    moments,
                                    k,
                                    c * 128,
                                ));
                                pedal_of_prefix(moments, next, k, c * 128);
                                assert(longer[k] == next);
                            }
                            waiting_follows(
                                moments,
                                Seq::empty(),
                                progress.channels.keys,
                                completed,
                                at_ms,
                            )
                        },
                        AbsoluteKind::Midi { channel, message } => applying_follows(
                            moments,
                            progress.channels,
                            completed,
                            channel,
                            message,
                            at_ms,
                        ),
                    }
                }
            },
        }
    }
}

/// A strike that has sounded until the moment `j` either sounds until the end or ends before.
proof fn strikes_end_or_last(moments: Seq<Moment>, i: int, j: int)
    requires
        sounds_until(moments, i, j),
    ensures
        sounds_until(moments, i, moments.len() as int) || exists|e: int| #[trigger]
            ends_first_at(moments, i, e),
    decreases moments.len() - j,
{
    if j < moments.len() {
        if ends(moments, i, j) {
            assert(ends_first_at(moments, i, j));
        } else {
            assert(sounds_until(moments, i, j + 1));
            strikes_end_or_last(moments, i, j + 1);
        }
    }
}

/// Some key is struck.
pub open spec fn something_is_struck(moments: Seq<Moment>) -> bool {
    exists|i: int| 0 <= i < moments.len() && (#[trigger] moments[i]).gesture is Strike
}

proof fn notes_come_from_strikes(
    moments: Seq<Moment>,
    completed: Seq<(int, int)>,
    lasting: Seq<int>,
)
    requires
        lists_completed(moments, completed),
        lists_lasting(moments, lasting),
    ensures
        completed.len() + lasting.len() > 0 <==> something_is_struck(moments),
{
    if completed.len() > 0 {
        let i = completed[0].0;
        assert(ends_first_at(moments, i, completed[0].1));
        assert(moments[i].gesture is Strike);
    }
    if lasting.len() > 0 {
        let i = lasting[0];
        assert(sounds_until(moments, i, moments.len() as int));
        assert(moments[i].gesture is Strike);
    }
    if something_is_struck(moments) {
        let i = choose|i: int| 0 <= i < moments.len() && (#[trigger] moments[i]).gesture is Strike;
        assert(sounds_until(moments, i, i + 1));
        strikes_end_or_last(moments, i, i + 1);
        if sounds_until(moments, i, moments.len() as int) {
            assert(lasting.contains(i));
        } else {
            let e = choose|e: int| #[trigger] ends_first_at(moments, i, e);
            assert(completed.contains((i, e)));
        }
    }
}

/// How the notes of a file come about.
pub struct Account {
    /// The events, in the order in which they happen.
    pub spots: Seq<(int, int)>,
    /// The tick at which the file ends.
    pub end_tick: int,
    /// The strikes that end before the file does, with their ends.
    pub completed: Seq<(int, int)>,
    /// The strikes that last until the file ends.
    pub lasting: Seq<int>,
    /// The order of the notes.
    pub order: Seq<int>,
}

impl Account {
    pub open spec fn events(self, file: FileModel) -> Seq<Scheduled> {
        schedule(file.tracks, self.spots)
    }

    /// What the file plays.
    pub open spec fn moments(self, file: FileModel, quarter: int) -> Seq<Moment> {
        let events = schedule(file.tracks, self.spots);
        played_by(events, events.len() as int, quarter)
    }

    /// The notes of the file in the order in which they end.
    pub open spec fn notes(self, file: FileModel, quarter: int) -> Seq<Note> {
        let moments = self.moments(file, quarter);
        let end_ms = us_at_end(self.events(file), self.end_tick, quarter) / 1_000;
        completed_notes(moments, self.completed) + lasting_notes(
            moments,
            self.lasting,
            end_ms as u64,
        )
    }

    /// The strikes of the file, and how they end.
    pub open spec fn lists_strikes(self, file: FileModel, quarter: int) -> bool {
        &&& lists_completed(self.moments(file, quarter), self.completed)
        &&& lists_lasting(self.moments(file, quarter), self.lasting)
    }

    /// `found` are the notes of the file by onset, then by pitch, then in the order in which they
    /// end.
    pub open spec fn orders(self, file: FileModel, quarter: int, found: Seq<Note>) -> bool {
        let notes = self.notes(file, quarter);
        &&& lists_all(self.order, notes.len())
        &&& found == Seq::new(notes.len(), |m: int| notes[self.order[m]])
        &&& forall|a: int, b: int|
            #![trigger self.order[a], self.order[b]]
            0 <= a < b < found.len() ==> {
                let first = notes[self.order[a]];
                let second = notes[self.order[b]];
                ||| first.onset_ms < second.onset_ms
                ||| first.onset_ms == second.onset_ms && first.pitch < second.pitch
                ||| first.onset_ms == second.onset_ms && first.pitch == second.pitch
                    && self.order[a] < self.order[b]
            }
    }
}

proof fn schedule_of_file_is_ok(tracks: Seq<Seq<FileEvent>>, spots: Seq<(int, int)>)
    requires
        tracks_in_range(tracks),
        lists_events(tracks, spots),
    ensures
        schedule_ok(schedule(tracks, spots)),
        forall|end_tick: int, m: int|
            #![trigger is_end(tracks, end_tick), spots[m]]
            is_end(tracks, end_tick) && 0 <= m < spots.len() ==> tick_at(tracks, spots[m])
                <= end_tick,
{
    let events = schedule(tracks, spots);
    assert forall|m: int| 0 <= m < events.len() implies {
        &&& 0 <= (#[trigger] events[m]).tick <= u64::MAX
        &&& event_in_range(FileEvent { delta: 0, kind: events[m].kind })
    } by {
        let spot = spots[m];
        assert(is_spot(tracks, spot));
        assert(event_in_range(tracks[spot.0][spot.1]));
        distances_ascend(tracks[spot.0], -1, spot.1);
    }
    assert forall|a: int, b: int|
        #![trigger events[a], events[b]]
        0 <= a < b < events.len() implies events[a].tick <= events[b].tick by {
        assert(happens_before(tracks, spots[a], spots[b]));
    }
    assert forall|end_tick: int, m: int|
        #![trigger is_end(tracks, end_tick), spots[m]]
        is_end(tracks, end_tick) && 0 <= m < spots.len() implies tick_at(tracks, spots[m])
        <= end_tick by {
        let spot = spots[m];
        assert(is_spot(tracks, spot));
        let track = tracks[spot.0];
        distances_ascend(track, spot.1, track.len() - 1);
        assert(tick_of(tracks[spot.0], tracks[spot.0].len() - 1) <= end_tick);
    }
}

/// A file is imported as it is heard. Its events happen in the order of their ticks, whatever
/// track they are on. The time of an event is the sum of the stretches up to it, each at the tempo
/// that was set last before it, or at half a second per quarter note. Every strike is one note,
/// from the strike until it ends or the file does; nothing else is a note. The notes are ordered
/// by onset and pitch, and come with the first tempo that the file sets.
///
/// A file is refused if it holds several songs, has no ticks per quarter note, sets a tempo of
/// zero, is too long, or strikes no key.
pub proof fn files_are_imported_as_they_sound(file: FileModel) -> (account: Account)
    requires
        tracks_in_range(file.tracks),
    ensures
        file.header.format == FileFormat::Sequential ==> imported(file) == Err::<
            (Seq<Note>, u32),
            Seq<char>,
        >("Sequential multi-song MIDI files are not supported"@),
        file.header.format != FileFormat::Sequential && file.header.timing is Timecode ==> imported(
            file,
        ) == Err::<(Seq<Note>, u32), Seq<char>>("SMPTE-timed MIDI files are not supported"@),
        file.header.format != FileFormat::Sequential && file.header.timing == FileTiming::Metrical(
            0,
        ) ==> imported(file) == Err::<(Seq<Note>, u32), Seq<char>>(
            "MIDI file has zero ticks per quarter note"@,
        ),
        file.header.format != FileFormat::Sequential && file.header.timing is Metrical
            && file.header.timing->Metrical_0 > 0 ==> {
            let quarter = file.header.timing->Metrical_0 as int;
            let events = account.events(file);
            let end_us = us_at_end(events, account.end_tick, quarter);
            let all_played = forall|m: int|
                0 <= m < events.len() ==> #[trigger] can_be_played(events, m, quarter);
            &&& lists_events(file.tracks, account.spots)
            &&& is_end(file.tracks, account.end_tick)
            &&& match imported(file) {
                Ok((found, tempo)) => {
                    &&& all_played
                    &&& account.lists_strikes(file, quarter)
                    &&& end_us / 1_000 <= u64::MAX
                    &&& something_is_struck(account.moments(file, quarter))
                    &&& account.orders(file, quarter, found)
                    &&& is_first_tempo(events, events.len() as int, tempo as int)
                },
                Err(text) => if !all_played {
                    stops_at(events, events.len() as int, quarter, text)
                } else if end_us / 1_000 > u64::MAX {
                    text == "MIDI timeline is too long"@
                } else {
                    &&& !something_is_struck(account.moments(file, quarter))
                    &&& text == "MIDI file contains no notes"@
                },
            }
        },
{
    let spots = sorted_lists(file.tracks);
    let events = schedule(file.tracks, spots);
    let sorted = stable_sort(file_events(file.tracks));
    let end_tick = final_tick(file.tracks);
    final_tick_is_end(file.tracks);
    schedule_of_file_is_ok(file.tracks, spots);
    let nothing = Account {
        spots,
        end_tick,
        completed: Seq::empty(),
        lasting: Seq::empty(),
        order: Seq::empty(),
    };
    if file.header.format == FileFormat::Sequential || file.header.timing is Timecode
        || file.header.timing->Metrical_0 == 0 {
        nothing
    } else {
        let ticks = file.header.timing->Metrical_0;
        let quarter = ticks as int;
        let n = events.len() as int;
        assert forall|m: int| 0 <= m < events.len() implies stands_for(
            sorted[m],
            (#[trigger] events[m]).tick,
            events[m].kind,
        ) by {
            assert(is_spot(file.tracks, spots[m]));
        }
        let moments = played_by(events, n, quarter);
        let completed = playing_follows(sorted, events, n, ticks);
        assert(sorted.take(n) =~= sorted);
        match play_all(sorted, ticks) {
            Err(text) => {
                let m = choose|m: int|
                    {
                        &&& 0 <= m < n
                        &&& !#[trigger] can_be_played(events, m, quarter)
                        &&& forall|l: int|
                            0 <= l < m ==> #[trigger] can_be_played(events, l, quarter)
                        &&& text == if comes_too_late(events, m, quarter) {
                            "MIDI timeline is too long"@
                        } else {
                            "MIDI file contains a zero tempo"@
                        }
                    };
                assert(!can_be_played(events, m, quarter));
                nothing
            },
            Ok(progress) => {
                let end_us = us_at_end(events, end_tick, quarter);
                if n > 0 {
                    assert(spots[n - 1] == spots[n - 1]);
                    assert(events[n - 1].tick <= end_tick);
                }
                assert(progress.us_at(end_tick as u64, ticks) == end_us);
                if end_us / 1_000 > u64::MAX {
                    nothing
                } else {
                    let end_ms = (end_us / 1_000) as u64;
                    let keys = progress.channels.keys;
                    let lasting = ending_follows(moments, Seq::empty(), keys, completed, end_ms);
                    let notes = keys.finish_all(KEY_COUNT as int, end_ms).notes;
                    notes_come_from_strikes(moments, completed, lasting);
                    let order = stable_sort_reorders(notes);
                    let full = Account { spots, end_tick, completed, lasting, order };
                    assert(notes =~= full.notes(file, quarter));
                    full
                }
            },
        }
    }
}

} // verus!
