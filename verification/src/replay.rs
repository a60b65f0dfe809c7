//! Turning notes into timed events, and events into messages and samples.

use crate::midi::note_message;
use crate::order::{
    is_sorted, key_le, sort_by_key, stable_sort, stable_sort_keeps_items, stable_sort_reorders,
    stable_sort_sorts, Keyed,
};
use crate::playback::{present, PlaybackControl, PlaybackState, PlaybackTimeline};
use crate::state::{
    all_last, earliest_onset, ends_fit, first_onset, last_end, latest_end,
    latest_end_is_the_maximum, monus, Note, Shared,
};
use crate::text::{append_decimal, decimal};
use vstd::prelude::*;
use vstd::string::*;

verus! {

/// An event of playback: its time in milliseconds, whether a note starts, pitch, velocity.
pub type MidiEvent = (u64, bool, u8, u8);

/// The silence before the first event.
pub const LEAD_IN_MS: u64 = 100;

/// The longest stretch that is played in one go.
pub const MAX_PLAYBACK_MS: u64 = 300_000;

/// The sound that may follow the last event.
pub const TAIL_MS: u64 = 2_000;

/// The samples of each channel in a second.
pub const SAMPLE_RATE: u32 = 48_000;

/// At one time, notes end before others start.
impl Keyed for MidiEvent {
    open spec fn key(self) -> (int, int) {
        (self.0 as int, if self.1 { 1 } else { 0 })
    }

    fn sort_key(&self) -> (key: (u64, u8)) {
        (self.0, if self.1 { 1 } else { 0 })
    }
}

/// A note starts: at its onset, or right away if that lies before the start of playback.
pub open spec fn start_event(note: Note, musical_start_ms: u64) -> MidiEvent {
    (
        (LEAD_IN_MS + monus(note.onset_ms, musical_start_ms)) as u64,
        true,
        note.pitch,
        note.velocity,
    )
}

/// A note ends.
pub open spec fn end_event(note: Note, musical_start_ms: u64) -> MidiEvent {
    ((LEAD_IN_MS + note.end() - musical_start_ms) as u64, false, note.pitch, 0)
}

/// The start and the end of every note that sounds after the start of playback.
pub open spec fn replayed(notes: Seq<Note>, musical_start_ms: u64) -> Seq<MidiEvent>
    decreases notes.len(),
{
    if notes.len() == 0 {
        Seq::empty()
    } else {
        let before = replayed(notes.drop_last(), musical_start_ms);
        if notes.last().end() > musical_start_ms {
            before.push(start_event(notes.last(), musical_start_ms)).push(
                end_event(notes.last(), musical_start_ms),
            )
        } else {
            before
        }
    }
}

/// The events that play `notes` from `musical_start_ms` on, or why they are not played.
pub open spec fn replay_plan(notes: Seq<Note>, musical_start_ms: u64) -> Result<
    Seq<MidiEvent>,
    Seq<char>,
> {
    if latest_end(notes) <= musical_start_ms {
        Err("Nothing to play from this position"@)
    } else if latest_end(notes) - musical_start_ms > MAX_PLAYBACK_MS {
        Err("Playback is limited to five minutes. Clear older notes first."@)
    } else {
        Ok(stable_sort(replayed(notes, musical_start_ms)))
    }
}

/// Plans the playback of `notes` from `musical_start_ms` on.
pub fn replay_events_from(notes: &[Note], musical_start_ms: u64) -> (planned: Result<
    Vec<MidiEvent>,
    String,
>)
    requires
        ends_fit(notes@),
    ensures
        match replay_plan(notes@, musical_start_ms) {
            Ok(expected) => planned matches Ok(events) && events@ == expected,
            Err(expected) => planned matches Err(text) && text@ == expected,
        },
{
    let end = last_end(notes);
    if end <= musical_start_ms {
        return Err("Nothing to play from this position".to_owned());
    }
    if end - musical_start_ms > MAX_PLAYBACK_MS {
        return Err("Playback is limited to five minutes. Clear older notes first.".to_owned());
    }
    let mut events: Vec<MidiEvent> = Vec::new();
    let mut i: usize = 0;
    while i < notes.len()
        invariant
            i <= notes.len(),
            ends_fit(notes@),
            end == latest_end(notes@),
            musical_start_ms < end,
            end - musical_start_ms <= MAX_PLAYBACK_MS,
            events@ == replayed(notes@.take(i as int), musical_start_ms),
        decreases notes.len() - i,
    {
        assert(notes@.take(i + 1).drop_last() =~= notes@.take(i as int));
        proof {
            latest_end_is_the_maximum(notes@);
            assert(notes@[i as int].end() <= latest_end(notes@));
        }
        let note = notes[i];
        let note_end = note.onset_ms + note.duration_ms;
        if note_end > musical_start_ms {
            let onset = LEAD_IN_MS + note.onset_ms.saturating_sub(musical_start_ms);
            events.push((onset, true, note.pitch, note.velocity));
            events.push((LEAD_IN_MS + (note_end - musical_start_ms), false, note.pitch, 0));
        }
        i = i + 1;
    }
    assert(notes@.take(notes.len() as int) =~= notes@);
    Ok(sort_by_key(&events))
}

/// The start of playback: where it is wanted, else at the first note, else at the beginning.
pub fn replay_start(notes: &[Note], musical_start_ms: Option<u64>) -> (start: u64)
    ensures
        start == match musical_start_ms {
            Some(start) => start,
            None => match earliest_onset(notes@) {
                Some(onset) => onset,
                None => 0,
            },
        },
{
    match musical_start_ms {
        Some(start) => start,
        None => match first_onset(notes) {
            Some(onset) => onset,
            None => 0,
        },
    }
}

/// The events with their times counted from `base` on.
pub open spec fn shifted(events: Seq<MidiEvent>, base: u64) -> Seq<MidiEvent> {
    Seq::new(
        events.len(),
        |i: int| ((base + events[i].0) as u64, events[i].1, events[i].2, events[i].3),
    )
}

/// Shifts the times of all events.
pub fn shift_events(events: &Vec<MidiEvent>, base: u64) -> (out: Vec<MidiEvent>)
    requires
        forall|i: int| 0 <= i < events@.len() ==> base + (#[trigger] events@[i]).0 <= u64::MAX,
    ensures
        out@ == shifted(events@, base),
{
    let mut out: Vec<MidiEvent> = Vec::new();
    let mut i: usize = 0;
    while i < events.len()
        invariant
            i <= events.len(),
            forall|i: int| 0 <= i < events@.len() ==> base + (#[trigger] events@[i]).0 <= u64::MAX,
            out@ == shifted(events@, base).take(i as int),
        decreases events.len() - i,
    {
        let event = events[i];
        assert(base + events@[i as int].0 <= u64::MAX);
        out.push((base + event.0, event.1, event.2, event.3));
        assert(out@ =~= shifted(events@, base).take(i + 1));
        i = i + 1;
    }
    assert(out@ =~= shifted(events@, base));
    out
}

/// What the sender of messages is to do next.
#[derive(Clone, Copy, Debug, PartialEq, Eq)]
pub enum SendStep {
    /// All messages are sent.
    Done,
    /// The run is over: silence the output and send nothing more.
    Cancel,
    /// Ask again after that many milliseconds.
    Wait(u64),
    /// Send this message.
    Send([u8; 3]),
}

/// The messages that are still to be sent, each at its time.
pub struct MidiSender {
    pub events: Vec<MidiEvent>,
    pub next: usize,
}

impl MidiSender {
    /// What a step at `now_ms` does, and what it leaves to be sent.
    pub open spec fn stepped(
        self,
        active: bool,
        now_ms: u64,
        step: SendStep,
        after: MidiSender,
    ) -> bool {
        let left = self.next < self.events@.len();
        let event = self.events@[self.next as int];
        &&& after.events == self.events
        &&& match step {
            SendStep::Done => !left && after.next == self.next,
            SendStep::Cancel => left && !active && after.next == self.next,
            SendStep::Wait(ms) => {
                &&& left
                &&& active
                &&& now_ms + ms <= event.0
                &&& 1 <= ms <= 10
                &&& ms == 10 || now_ms + ms == event.0
                &&& after.next == self.next
            },
            SendStep::Send(message) => {
                &&& left
                &&& active
                &&& event.0 <= now_ms
                &&& message@ == seq![if event.1 { 0x90u8 } else { 0x80u8 }, event.2, event.3]
                &&& after.next == self.next + 1
            },
        }
    }

    pub fn new(events: Vec<MidiEvent>) -> (sender: Self)
        ensures
            sender.events == events,
            sender.next == 0,
    {
        MidiSender { events, next: 0 }
    }

    /// Decides the next step at `now_ms`. A message is due at its time and not before it; no
    /// wait is longer than ten milliseconds, so that the end of the run is noticed.
    pub fn step(&mut self, active: bool, now_ms: u64) -> (step: SendStep)
        ensures
            final(self).events == old(self).events,
            match step {
                SendStep::Done => old(self).next >= old(self).events@.len(),
                SendStep::Cancel => old(self).next < old(self).events@.len() && !active,
                SendStep::Wait(ms) => {
                    let time = old(self).events@[old(self).next as int].0;
                    &&& old(self).next < old(self).events@.len()
                    &&& active
                    &&& now_ms < time
                    &&& ms == if time - now_ms < 10 { time - now_ms } else { 10 }
                },
                SendStep::Send(message) => {
                    let event = old(self).events@[old(self).next as int];
                    &&& old(self).next < old(self).events@.len()
                    &&& active
                    &&& event.0 <= now_ms
                    &&& message@ == seq![if event.1 { 0x90u8 } else { 0x80u8 }, event.2, event.3]
                },
            },
            final(self).next == if step is Send { old(self).next + 1 } else { old(self).next as int },
            old(self).stepped(active, now_ms, step, *final(self)),
    {
        if self.next >= self.events.len() {
            return SendStep::Done;
        }
        if !active {
            return SendStep::Cancel;
        }
        let event = self.events[self.next];
        let remaining = event.0.saturating_sub(now_ms);
        if remaining == 0 {
            self.next = self.next + 1;
            SendStep::Send(note_message(event.1, event.2, event.3))
        } else {
            SendStep::Wait(if remaining < 10 { remaining } else { 10 })
        }
    }
}

/// A step of rendering: a stretch of samples, or what the synthesizer is told between two.
#[derive(Clone, Copy, Debug, PartialEq, Eq, Structural)]
pub enum RenderStep {
    Render { from: usize, to: usize },
    NoteOn { pitch: u8, velocity: u8 },
    NoteOff { pitch: u8 },
}

/// How many samples there are, and the steps that render them.
pub struct RenderPlan {
    pub sample_count: usize,
    pub steps: Vec<RenderStep>,
}

/// The sample at a time.
pub open spec fn sample_at(ms: int) -> int {
    ms * SAMPLE_RATE / 1_000
}

/// The time at which the sound of the last event is over.
pub open spec fn render_end_ms(events: Seq<MidiEvent>) -> int {
    TAIL_MS + if events.len() == 0 { 0 } else { events.last().0 as int }
}

/// How far the events have been rendered.
pub open spec fn rendered_until(events: Seq<MidiEvent>) -> int
    decreases events.len(),
{
    if events.len() == 0 {
        0
    } else {
        let before = rendered_until(events.drop_last());
        let next = sample_at(events.last().0 as int);
        if next > before { next } else { before }
    }
}

/// What the synthesizer is told of an event.
pub open spec fn note_step(event: MidiEvent) -> RenderStep {
    if event.1 {
        RenderStep::NoteOn { pitch: event.2, velocity: event.3 }
    } else {
        RenderStep::NoteOff { pitch: event.2 }
    }
}

/// The steps up to the last event: each event is preceded by the samples before it.
pub open spec fn event_steps(events: Seq<MidiEvent>) -> Seq<RenderStep>
    decreases events.len(),
{
    if events.len() == 0 {
        Seq::empty()
    } else {
        let before = event_steps(events.drop_last());
        let from = rendered_until(events.drop_last());
        let to = sample_at(events.last().0 as int);
        if to > from {
            before.push(RenderStep::Render { from: from as usize, to: to as usize }).push(
                note_step(events.last()),
            )
        } else {
            before.push(note_step(events.last()))
        }
    }
}

/// The samples that `steps` render in one piece from the first one on; `None` if there is a
/// gap or an overlap.
pub open spec fn rendered_in_one_piece(steps: Seq<RenderStep>) -> Option<int>
    decreases steps.len(),
{
    if steps.len() == 0 {
        Some(0)
    } else {
        match (rendered_in_one_piece(steps.drop_last()), steps.last()) {
            (Some(count), RenderStep::Render { from, to }) => if from == count && from <= to {
                Some(to as int)
            } else {
                None
            },
            (before, _) => before,
        }
    }
}

/// The times fit the counters, and no event comes after the sound of the last one is over.
pub open spec fn can_render(events: Seq<MidiEvent>) -> bool {
    &&& render_end_ms(events) * SAMPLE_RATE <= u64::MAX
    &&& sample_at(render_end_ms(events)) <= usize::MAX
    &&& forall|i: int|
        0 <= i < events.len() ==> (#[trigger] events[i]).0 <= render_end_ms(events)
}

proof fn sample_at_is_monotonic(a: int, b: int)
    requires
        0 <= a <= b,
    ensures
        0 <= sample_at(a) <= sample_at(b),
{
}

proof fn rendered_until_is_bounded(events: Seq<MidiEvent>, end_ms: int)
    requires
        forall|i: int| 0 <= i < events.len() ==> (#[trigger] events[i]).0 <= end_ms,
        0 <= end_ms,
    ensures
        0 <= rendered_until(events) <= sample_at(end_ms),
    decreases events.len(),
{
    if events.len() > 0 {
        assert forall|i: int| 0 <= i < events.len() - 1 implies (
        #[trigger] events.drop_last()[i]).0 <= end_ms by {
            assert(events[i].0 <= end_ms);
        }
        rendered_until_is_bounded(events.drop_last(), end_ms);
        assert(events[events.len() - 1].0 <= end_ms);
        sample_at_is_monotonic(events.last().0 as int, end_ms);
    }
}

proof fn event_steps_render_in_one_piece(events: Seq<MidiEvent>, end_ms: int)
    requires
        forall|i: int| 0 <= i < events.len() ==> (#[trigger] events[i]).0 <= end_ms,
        0 <= end_ms,
        sample_at(end_ms) <= usize::MAX,
    ensures
        rendered_in_one_piece(event_steps(events)) == Some(rendered_until(events)),
    decreases events.len(),
{
    if events.len() > 0 {
        let rest = events.drop_last();
        assert forall|i: int| 0 <= i < rest.len() implies (#[trigger] rest[i]).0 <= end_ms by {
            assert(rest[i] == events[i]);
        }
        event_steps_render_in_one_piece(rest, end_ms);
        rendered_until_is_bounded(rest, end_ms);
        assert(events[events.len() - 1].0 <= end_ms);
        sample_at_is_monotonic(events.last().0 as int, end_ms);
        let before = event_steps(rest);
        let from = rendered_until(rest);
        let to = sample_at(events.last().0 as int);
        let note = note_step(events.last());
        if to > from {
            let stretch = RenderStep::Render { from: from as usize, to: to as usize };
            assert(before.push(stretch).drop_last() =~= before);
            assert(rendered_in_one_piece(before.push(stretch)) == Some(to));
            assert(before.push(stretch).push(note).drop_last() =~= before.push(stretch));
        } else {
            assert(before.push(note).drop_last() =~= before);
        }
    }
}

/// The steps that render all samples, the tail after the last event among them.
pub open spec fn render_steps(events: Seq<MidiEvent>) -> Seq<RenderStep> {
    event_steps(events).push(
        RenderStep::Render {
            from: rendered_until(events) as usize,
            to: sample_at(render_end_ms(events)) as usize,
        },
    )
}

/// A plan renders every sample once and in order.
pub proof fn plans_render_everything(events: Seq<MidiEvent>)
    requires
        can_render(events),
    ensures
        rendered_in_one_piece(render_steps(events)) == Some(sample_at(render_end_ms(events))),
{
    let end_ms = render_end_ms(events);
    event_steps_render_in_one_piece(events, end_ms);
    rendered_until_is_bounded(events, end_ms);
    assert(render_steps(events).drop_last() =~= event_steps(events));
}

/// Events that are sorted by time can be rendered, if their times fit the counters.
pub proof fn sorted_events_can_be_rendered(events: Seq<MidiEvent>)
    requires
        is_sorted(events),
        render_end_ms(events) * SAMPLE_RATE <= u64::MAX,
        sample_at(render_end_ms(events)) <= usize::MAX,
    ensures
        can_render(events),
{
    assert forall|i: int| 0 <= i < events.len() implies (#[trigger] events[i]).0 <= render_end_ms(
        events,
    ) by {
        assert(key_le(events[i].key(), events[events.len() - 1].key()));
    }
}

/// Whether [`can_render`] holds.
pub fn check_render(events: &[MidiEvent]) -> (can: bool)
    ensures
        can == can_render(events@),
{
    let last: u64 = if events.len() == 0 {
        0
    } else {
        events[events.len() - 1].0
    };
    let ghost end_ms = render_end_ms(events@);
    if last > u64::MAX / (SAMPLE_RATE as u64) - TAIL_MS {
        return false;
    }
    let end = last + TAIL_MS;
    assert(end == end_ms);
    if end * (SAMPLE_RATE as u64) / 1_000 > usize::MAX as u64 {
        return false;
    }
    let mut i: usize = 0;
    while i < events.len()
        invariant
            i <= events.len(),
            end == render_end_ms(events@),
            end * SAMPLE_RATE <= u64::MAX,
            sample_at(end as int) <= usize::MAX,
            forall|k: int| 0 <= k < i ==> (#[trigger] events@[k]).0 <= end,
        decreases events.len() - i,
    {
        if events[i].0 > end {
            assert(events@[i as int].0 > render_end_ms(events@));
            return false;
        }
        i = i + 1;
    }
    true
}

/// Plans the rendering of events.
pub fn render_plan(events: &[MidiEvent]) -> (plan: RenderPlan)
    requires
        can_render(events@),
    ensures
        plan.sample_count == sample_at(render_end_ms(events@)),
        plan.steps@ == render_steps(events@),
        rendered_in_one_piece(plan.steps@) == Some(plan.sample_count as int),
        exists|at: Seq<int>| #[trigger] tells_in_time(events@, at, plan.steps@),
{
    let last: u64 = if events.len() == 0 {
        0
    } else {
        events[events.len() - 1].0
    };
    let ghost end_ms = render_end_ms(events@);
    let sample_count = ((last + TAIL_MS) * (SAMPLE_RATE as u64) / 1_000) as usize;
    assert(sample_count == sample_at(end_ms));
    let mut steps: Vec<RenderStep> = Vec::new();
    let mut position: usize = 0;
    let mut i: usize = 0;
    while i < events.len()
        invariant
            i <= events.len(),
            can_render(events@),
            end_ms == render_end_ms(events@),
            position == rendered_until(events@.take(i as int)),
            steps@ == event_steps(events@.take(i as int)),
        decreases events.len() - i,
    {
        assert(events@.take(i + 1).drop_last() =~= events@.take(i as int));
        let event = events[i];
        assert(events@[i as int].0 <= end_ms);
        proof {
            sample_at_is_monotonic(event.0 as int, end_ms);
        }
        let next = (event.0 * (SAMPLE_RATE as u64) / 1_000) as usize;
        assert(next == sample_at(event.0 as int));
        if next > position {
            steps.push(RenderStep::Render { from: position, to: next });
            position = next;
        }
        steps.push(
            if event.1 {
                RenderStep::NoteOn { pitch: event.2, velocity: event.3 }
            } else {
                RenderStep::NoteOff { pitch: event.2 }
            },
        );
        i = i + 1;
    }
    assert(events@.take(events.len() as int) =~= events@);
    steps.push(RenderStep::Render { from: position, to: sample_count });
    proof {
        let at = plans_tell_of_every_event(events@);
        plans_render_everything(events@);
    }
    RenderPlan { sample_count, steps }
}

/// Interleaves the samples of two channels, as far as both have some.
pub fn interleave<S: Copy>(left: &[S], right: &[S]) -> (samples: Vec<S>)
    ensures
        samples@.len() == 2 * if left@.len() <= right@.len() { left@.len() } else { right@.len() },
        forall|i: int|
            0 <= i < samples@.len() ==> (#[trigger] samples@[i]) == if i % 2 == 0 {
                left@[i / 2]
            } else {
                right@[i / 2]
            },
{
    let mut samples: Vec<S> = Vec::new();
    let mut i: usize = 0;
    while i < left.len() && i < right.len()
        invariant
            i <= left.len(),
            i <= right.len(),
            samples@.len() == 2 * i,
            forall|k: int|
                0 <= k < samples@.len() ==> (#[trigger] samples@[k]) == if k % 2 == 0 {
                    left@[k / 2]
                } else {
                    right@[k / 2]
                },
        decreases left.len() - i,
    {
        samples.push(left[i]);
        samples.push(right[i]);
        i = i + 1;
    }
    samples
}

/// Begins to render the playback of `notes` and returns the name of the run and where it
/// starts.
pub fn begin_replay<P>(
    notes: &[Note],
    musical_start_ms: Option<u64>,
    playback: &mut PlaybackControl<P>,
    shared: &mut Shared,
) -> (begun: (u64, u64))
    ensures
        begun.0 == final(playback).state.generation,
        begun.1 == match musical_start_ms {
            Some(start) => start,
            None => match earliest_onset(notes@) {
                Some(onset) => onset,
                None => 0,
            },
        },
        final(playback).state == old(playback).state.begun(),
        final(playback).player is None,
        final(playback).retired@ == old(playback).retired@ + present(old(playback).player),
        final(shared).status@ == "Rendering SoundFont..."@,
        *final(shared) == (Shared { status: final(shared).status, ..*old(shared) }),
{
    let start = replay_start(notes, musical_start_ms);
    let generation = playback.begin_rendering();
    shared.status = "Rendering SoundFont...".to_owned();
    (generation, start)
}

/// Ends a run that failed. Its error is shown, unless the run was over before.
pub fn fail_replay<P>(
    generation: u64,
    error: String,
    playback: &mut PlaybackControl<P>,
    shared: &mut Shared,
)
    ensures
        final(playback).state == old(playback).state.ended(generation),
        final(playback).player == if old(playback).state.generation == generation {
            None
        } else {
            old(playback).player
        },
        final(playback).retired == old(playback).retired,
        *final(shared) == if old(playback).state.active(generation) {
            Shared { status: error, ..*old(shared) }
        } else {
            *old(shared)
        },
{
    if playback.is_active(generation) {
        shared.status = error;
    }
    playback.finish(generation);
}

/// Ends a run that has been played to its end.
pub fn end_replay<P>(generation: u64, playback: &mut PlaybackControl<P>, shared: &mut Shared)
    ensures
        final(playback).state == old(playback).state.ended(generation),
        final(playback).player == if old(playback).state.generation == generation {
            None
        } else {
            old(playback).player
        },
        final(playback).retired == old(playback).retired,
        final(shared).status@ == if old(playback).state.active(generation) {
            "Ready"@
        } else {
            old(shared).status@
        },
        *final(shared) == (Shared { status: final(shared).status, ..*old(shared) }),
{
    if playback.is_active(generation) {
        shared.status = "Ready".to_owned();
    }
    playback.finish(generation);
}

/// Sets a run going at wall time `now_ms`: its timeline starts after the lead-in and ends
/// with the last note. Returns the events with their wall times. There are none to be sent unless
/// the run has been rendered and plays.
pub fn run_replay<P>(
    notes: &[Note],
    musical_start_ms: u64,
    events: &Vec<MidiEvent>,
    generation: u64,
    now_ms: u64,
    playback: &mut PlaybackControl<P>,
    shared: &mut Shared,
) -> (messages: Option<Vec<MidiEvent>>)
    requires
        ends_fit(notes@),
        now_ms + LEAD_IN_MS <= u64::MAX,
        forall|i: int| 0 <= i < events@.len() ==> now_ms + (#[trigger] events@[i]).0 <= u64::MAX,
    ensures
        messages is Some <==> old(playback).state.plays(generation),
        messages is None ==> *final(playback) == *old(playback) && *final(shared) == *old(shared),
        messages matches Some(messages) ==> {
            &&& messages@ == shifted(events@, now_ms)
            &&& final(playback).state == old(playback).state.timed(
                generation,
                PlaybackTimeline {
                    wall_start_ms: (now_ms + LEAD_IN_MS) as u64,
                    musical_start_ms,
                    musical_end_ms: latest_end(notes@) as u64,
                },
            )
            &&& final(playback).player == old(playback).player
            &&& final(playback).retired == old(playback).retired
            &&& final(shared).status@ == "Playing "@ + decimal((events@.len() / 2) as nat)
                + " notes"@
            &&& *final(shared) == (Shared { status: final(shared).status, ..*old(shared) })
        },
{
    if !playback.is_run_playing(generation) {
        return None;
    }
    let end = last_end(notes);
    playback.set_timeline(generation, now_ms + LEAD_IN_MS, musical_start_ms, end);
    let mut status = "Playing ".to_owned();
    append_decimal(&mut status, (events.len() / 2) as u64);
    status.append(" notes");
    shared.status = status;
    Some(shift_events(events, now_ms))
}

proof fn replayed_events(notes: Seq<Note>, musical_start_ms: u64)
    requires
        ends_fit(notes),
        latest_end(notes) - musical_start_ms <= MAX_PLAYBACK_MS,
    ensures
        forall|j: int|
            0 <= j < notes.len() && (#[trigger] notes[j]).end() > musical_start_ms ==> replayed(
                notes,
                musical_start_ms,
            ).contains(start_event(notes[j], musical_start_ms)) && replayed(
                notes,
                musical_start_ms,
            ).contains(end_event(notes[j], musical_start_ms)),
        forall|i: int|
            0 <= i < replayed(notes, musical_start_ms).len() ==> is_event_of(
                #[trigger] replayed(notes, musical_start_ms)[i],
                notes,
                musical_start_ms,
            ),
    decreases notes.len(),
{
    if notes.len() > 0 {
        let rest = notes.drop_last();
        let before = replayed(rest, musical_start_ms);
        let all = replayed(notes, musical_start_ms);
        assert forall|i: int| 0 <= i < rest.len() implies (#[trigger] rest[i]).end() <= u64::MAX by {
            assert(rest[i] == notes[i]);
        }
        replayed_events(rest, musical_start_ms);
        assert forall|j: int|
            0 <= j < notes.len() && (#[trigger] notes[j]).end() > musical_start_ms implies all.contains(
            start_event(notes[j], musical_start_ms),
        ) && all.contains(end_event(notes[j], musical_start_ms)) by {
            let starts = start_event(notes[j], musical_start_ms);
            let ends = end_event(notes[j], musical_start_ms);
            if j < rest.len() {
                assert(rest[j] == notes[j]);
                let a = choose|a: int| 0 <= a < before.len() && before[a] == starts;
                let b = choose|b: int| 0 <= b < before.len() && before[b] == ends;
                assert(all[a] == starts && all[b] == ends);
            } else {
                assert(all[before.len() as int] == starts);
                assert(all[(before.len() + 1) as int] == ends);
            }
        }
        assert forall|i: int| 0 <= i < all.len() implies is_event_of(
            #[trigger] all[i],
            notes,
            musical_start_ms,
        ) by {
            if i < before.len() {
                assert(is_event_of(before[i], rest, musical_start_ms));
                let j = choose|j: int|
                    0 <= j < rest.len() && (#[trigger] rest[j]).end() > musical_start_ms && (
                    before[i] == start_event(rest[j], musical_start_ms) || before[i] == end_event(
                        rest[j],
                        musical_start_ms,
                    ));
                assert(notes[j] == rest[j]);
            } else {
                assert(notes[notes.len() - 1].end() > musical_start_ms);
            }
        }
    }
}

/// An event starts or ends a note that sounds after the start of playback.
pub open spec fn is_event_of(event: MidiEvent, notes: Seq<Note>, musical_start_ms: u64) -> bool {
    exists|j: int|
        0 <= j < notes.len() && (#[trigger] notes[j]).end() > musical_start_ms && (event
            == start_event(notes[j], musical_start_ms) || event == end_event(
            notes[j],
            musical_start_ms,
        ))
}

/// Playback plays what sounds after its start, and nothing else: the events are those of such
/// notes, they come in the order of time, and none is later than five minutes after the
/// lead-in.
pub proof fn plans_play_what_sounds(notes: Seq<Note>, musical_start_ms: u64)
    requires
        ends_fit(notes),
        replay_plan(notes, musical_start_ms) is Ok,
    ensures
        ({
            let events = replay_plan(notes, musical_start_ms)->Ok_0;
            &&& is_sorted(events)
            &&& forall|i: int|
                0 <= i < events.len() ==> is_event_of(
                    #[trigger] events[i],
                    notes,
                    musical_start_ms,
                ) && LEAD_IN_MS <= events[i].0 <= LEAD_IN_MS + MAX_PLAYBACK_MS
            &&& forall|j: int|
                0 <= j < notes.len() && (#[trigger] notes[j]).end() > musical_start_ms
                    ==> events.contains(start_event(notes[j], musical_start_ms))
                    && events.contains(end_event(notes[j], musical_start_ms))
        }),
{
    let unsorted = replayed(notes, musical_start_ms);
    let events = stable_sort(unsorted);
    replayed_events(notes, musical_start_ms);
    stable_sort_sorts(unsorted);
    stable_sort_keeps_items(unsorted);
    unsorted.to_multiset_ensures();
    events.to_multiset_ensures();
    latest_end_is_the_maximum(notes);
    assert forall|i: int| 0 <= i < events.len() implies is_event_of(
        #[trigger] events[i],
        notes,
        musical_start_ms,
    ) && LEAD_IN_MS <= events[i].0 <= LEAD_IN_MS + MAX_PLAYBACK_MS by {
        assert(unsorted.contains(stable_sort(unsorted)[i]));
        let m = choose|m: int| 0 <= m < unsorted.len() && unsorted[m] == events[i];
        assert(is_event_of(unsorted[m], notes, musical_start_ms));
        let j = choose|j: int|
            0 <= j < notes.len() && (#[trigger] notes[j]).end() > musical_start_ms && (events[i]
                == start_event(notes[j], musical_start_ms) || events[i] == end_event(
                notes[j],
                musical_start_ms,
            ));
        assert(notes[j].end() <= latest_end(notes));
    }
    assert forall|j: int|
        0 <= j < notes.len() && (#[trigger] notes[j]).end() > musical_start_ms implies events.contains(
        start_event(notes[j], musical_start_ms),
    ) && events.contains(end_event(notes[j], musical_start_ms)) by {
        let starts = start_event(notes[j], musical_start_ms);
        let ends = end_event(notes[j], musical_start_ms);
        assert(unsorted.to_multiset().count(starts) > 0);
        assert(unsorted.to_multiset().count(ends) > 0);
    }
}

/// What is planned can be rendered.
pub proof fn planned_events_can_be_rendered(notes: Seq<Note>, musical_start_ms: u64)
    requires
        ends_fit(notes),
        replay_plan(notes, musical_start_ms) is Ok,
    ensures
        can_render(replay_plan(notes, musical_start_ms)->Ok_0),
{
    let events = replay_plan(notes, musical_start_ms)->Ok_0;
    plans_play_what_sounds(notes, musical_start_ms);
    if events.len() > 0 {
        assert(events[events.len() - 1].0 <= LEAD_IN_MS + MAX_PLAYBACK_MS);
    }
    sorted_events_can_be_rendered(events);
}

proof fn notes_start_before_they_end(notes: Seq<Note>, musical_start_ms: u64, j: int)
    requires
        ends_fit(notes),
        all_last(notes),
        replay_plan(notes, musical_start_ms) is Ok,
        0 <= j < notes.len(),
        notes[j].end() > musical_start_ms,
    ensures
        start_event(notes[j], musical_start_ms).0 < end_event(notes[j], musical_start_ms).0,
{
    latest_end_is_the_maximum(notes);
    assert(notes[j].duration_ms >= 1);
    assert(notes[j].end() <= latest_end(notes));
}

/// No note hangs: every note that is started is ended later on, if no note is shorter than a
/// millisecond.
#[verifier::spinoff_prover]
pub proof fn every_started_note_is_ended(notes: Seq<Note>, musical_start_ms: u64, i: int)
    requires
        ends_fit(notes),
        all_last(notes),
        replay_plan(notes, musical_start_ms) is Ok,
        0 <= i < replay_plan(notes, musical_start_ms)->Ok_0.len(),
        replay_plan(notes, musical_start_ms)->Ok_0[i].1,
    ensures
        ({
            let events = replay_plan(notes, musical_start_ms)->Ok_0;
            exists|k: int|
                i < k < events.len() && !(#[trigger] events[k]).1 && events[k].2 == events[i].2
                    && events[i].0 < events[k].0
        }),
{
    let events = replay_plan(notes, musical_start_ms)->Ok_0;
    plans_play_what_sounds(notes, musical_start_ms);
    assert(is_event_of(events[i], notes, musical_start_ms));
    let j = choose|j: int|
        0 <= j < notes.len() && (#[trigger] notes[j]).end() > musical_start_ms && (events[i]
            == start_event(notes[j], musical_start_ms) || events[i] == end_event(
            notes[j],
            musical_start_ms,
        ));
    let ends = end_event(notes[j], musical_start_ms);
    assert(events.contains(ends));
    notes_start_before_they_end(notes, musical_start_ms, j);
    let k = choose|k: int| 0 <= k < events.len() && events[k] == ends;
    assert(k > i) by {
        if k <= i {
            assert(key_le(events[k].key(), events[i].key()));
        }
    }
}

/// `steps` tell the synthesizer of every event, in order: `at` names the steps that do, and all
/// others render samples. The samples before an event reach up to the latest time of the events
/// so far.
pub open spec fn tells_in_time(
    events: Seq<MidiEvent>,
    at: Seq<int>,
    steps: Seq<RenderStep>,
) -> bool {
    &&& at.len() == events.len()
    &&& forall|i: int|
        0 <= i < at.len() ==> {
            &&& 0 <= #[trigger] at[i] < steps.len()
            &&& steps[at[i]] == if events[i].1 {
                RenderStep::NoteOn { pitch: events[i].2, velocity: events[i].3 }
            } else {
                RenderStep::NoteOff { pitch: events[i].2 }
            }
        }
    &&& forall|a: int, b: int|
        #![trigger at[a], at[b]]
        0 <= a < b < at.len() ==> at[a] < at[b]
    &&& forall|s: int|
        0 <= s < steps.len() && !((#[trigger] steps[s]) is Render) ==> at.contains(s)
    &&& forall|i: int|
        0 <= i < at.len() ==> {
            let count = rendered_in_one_piece(steps.take(#[trigger] at[i]));
            &&& count is Some
            &&& reaches(events, i, count->0)
        }
}

/// The samples up to the latest time of the events up to `i`.
pub open spec fn reaches(events: Seq<MidiEvent>, i: int, count: int) -> bool {
    &&& forall|k: int|
        0 <= k <= i ==> (#[trigger] events[k]).0 * 48_000 / 1_000 <= count
    &&& exists|k: int| 0 <= k <= i && (#[trigger] events[k]).0 * 48_000 / 1_000 == count
}

proof fn rendered_until_reaches(events: Seq<MidiEvent>)
    ensures
        events.len() > 0 ==> reaches(events, events.len() - 1, rendered_until(events)),
    decreases events.len(),
{
    if events.len() > 0 {
        let rest = events.drop_last();
        let last = rest.len() as int;
        let count = rendered_until(events);
        rendered_until_reaches(rest);
        assert forall|k: int| 0 <= k <= last implies (#[trigger] events[k]).0 * 48_000 / 1_000
            <= count by {
            if k < last {
                assert(rest[k] == events[k]);
            }
        }
        sample_at_is_monotonic(0, events[last].0 as int);
        assert(rest.len() == 0 ==> rendered_until(rest) == 0);
        if count == sample_at(events[last].0 as int) {
            assert(events[last].0 * 48_000 / 1_000 == count);
        } else {
            assert(rest.len() > 0);
            let k = choose|k: int|
                0 <= k <= last - 1 && (#[trigger] rest[k]).0 * 48_000 / 1_000 == rendered_until(
                    rest,
                );
            assert(rest[k] == events[k]);
        }
    }
}

proof fn event_steps_tell_in_time(events: Seq<MidiEvent>, end_ms: int) -> (at: Seq<int>)
    requires
        forall|i: int| 0 <= i < events.len() ==> (#[trigger] events[i]).0 <= end_ms,
        0 <= end_ms,
        sample_at(end_ms) <= usize::MAX,
    ensures
        tells_in_time(events, at, event_steps(events)),
    decreases events.len(),
{
    if events.len() == 0 {
        Seq::empty()
    } else {
        let rest = events.drop_last();
        let last = rest.len() as int;
        assert forall|i: int| 0 <= i < rest.len() implies (#[trigger] rest[i]).0 <= end_ms by {
            assert(rest[i] == events[i]);
        }
        let before_at = event_steps_tell_in_time(rest, end_ms);
        event_steps_render_in_one_piece(rest, end_ms);
        rendered_until_is_bounded(rest, end_ms);
        rendered_until_reaches(events);
        assert(events[last].0 <= end_ms);
        sample_at_is_monotonic(events[last].0 as int, end_ms);
        let before = event_steps(rest);
        let steps = event_steps(events);
        let from = rendered_until(rest);
        let to = sample_at(events[last].0 as int);
        let at = before_at.push(steps.len() - 1);
        let stretch = RenderStep::Render { from: from as usize, to: to as usize };
        assert(before.push(stretch).drop_last() =~= before);
        assert forall|s: int| 0 <= s < before.len() implies #[trigger] steps[s] == before[s] by {}
        assert forall|i: int| 0 <= i < at.len() implies {
            let count = rendered_in_one_piece(steps.take(#[trigger] at[i]));
            &&& count is Some
            &&& reaches(events, i, count->0)
        } by {
            if i < last {
                assert(at[i] == before_at[i]);
                assert(steps.take(at[i]) =~= before.take(before_at[i]));
                let count = rendered_in_one_piece(steps.take(at[i]))->0;
                assert(reaches(rest, i, count));
                assert forall|k: int| 0 <= k <= i implies (#[trigger] events[k]).0 * 48_000 / 1_000
                    <= count by {
                    assert(rest[k] == events[k]);
                }
                let k = choose|k: int|
                    0 <= k <= i && (#[trigger] rest[k]).0 * 48_000 / 1_000 == count;
                assert(rest[k] == events[k]);
            } else if to > from {
                assert(steps.take(at[i]) =~= before.push(stretch));
            } else {
                assert(steps.take(at[i]) =~= before);
            }
        }
        assert forall|i: int| 0 <= i < at.len() implies {
            &&& 0 <= #[trigger] at[i] < steps.len()
            &&& steps[at[i]] == if events[i].1 {
                RenderStep::NoteOn { pitch: events[i].2, velocity: events[i].3 }
            } else {
                RenderStep::NoteOff { pitch: events[i].2 }
            }
        } by {
            if i < last {
                assert(at[i] == before_at[i]);
                assert(rest[i] == events[i]);
                assert(steps[at[i]] == before[before_at[i]]);
            }
        }
        assert forall|a: int, b: int|
            #![trigger at[a], at[b]]
            0 <= a < b < at.len() implies at[a] < at[b] by {
            if b < last {
                assert(at[a] == before_at[a] && at[b] == before_at[b]);
            } else {
                assert(at[a] == before_at[a]);
                assert(before_at[a] < before.len());
            }
        }
        assert forall|s: int|
            0 <= s < steps.len() && !((#[trigger] steps[s]) is Render) implies at.contains(s) by {
            if s < before.len() {
                assert(before[s] == steps[s]);
                let i = choose|i: int| 0 <= i < before_at.len() && before_at[i] == s;
                assert(at[i] == s);
            } else {
                assert(s == steps.len() - 1);
                assert(at[last] == s);
            }
        }
        at
    }
}

/// A plan tells the synthesizer of every event, once and in order, when the samples before its
/// time are rendered and none beyond the latest time so far. It goes on for two seconds after the
/// last event.
pub proof fn plans_tell_of_every_event(events: Seq<MidiEvent>) -> (at: Seq<int>)
    requires
        can_render(events),
    ensures
        tells_in_time(events, at, render_steps(events)),
        rendered_in_one_piece(render_steps(events)) == Some(
            (2_000 + if events.len() == 0 {
                0
            } else {
                events[events.len() - 1].0 as int
            }) * 48_000 / 1_000,
        ),
{
    let end_ms = render_end_ms(events);
    let at = event_steps_tell_in_time(events, end_ms);
    plans_render_everything(events);
    let before = event_steps(events);
    let steps = render_steps(events);
    assert forall|i: int| 0 <= i < at.len() implies {
        let count = rendered_in_one_piece(steps.take(#[trigger] at[i]));
        &&& count is Some
        &&& reaches(events, i, count->0)
    } by {
        assert(steps.take(at[i]) =~= before.take(at[i]));
    }
    assert forall|i: int| 0 <= i < at.len() implies 0 <= #[trigger] at[i] < steps.len()
        && steps[at[i]] == before[at[i]] by {}
    assert forall|s: int|
        0 <= s < steps.len() && !((#[trigger] steps[s]) is Render) implies at.contains(s) by {
        assert(before[s] == steps[s]);
    }
    at
}

/// An event of a planned note, which sounds beyond the start of playback: at the onset, or right
/// away if that lies before, the note starts; at its end it ends. Both are a tenth of a second
/// later than they sound.
pub open spec fn is_slot_event(
    notes: Seq<Note>,
    musical_start_ms: u64,
    slot: (int, bool),
    event: MidiEvent,
) -> bool {
    let note = notes[slot.0];
    &&& event.1 == slot.1
    &&& event.2 == note.pitch
    &&& slot.1 ==> event.3 == note.velocity
    &&& !slot.1 ==> event.3 == 0
    &&& slot.1 && note.onset_ms >= musical_start_ms ==> event.0 == 100 + note.onset_ms
        - musical_start_ms
    &&& slot.1 && note.onset_ms < musical_start_ms ==> event.0 == 100
    &&& !slot.1 ==> event.0 == 100 + note.onset_ms + note.duration_ms - musical_start_ms
}

/// The slot belongs to a note that sounds beyond the start of playback.
pub open spec fn is_slot(notes: Seq<Note>, musical_start_ms: u64, slot: (int, bool)) -> bool {
    &&& 0 <= slot.0 < notes.len()
    &&& notes[slot.0].onset_ms + notes[slot.0].duration_ms > musical_start_ms
}

/// `events` play `notes`: `slots` names the start and the end of every note that sounds beyond the
/// start of playback, once, in the order of their times. At one time notes end before others
/// start, and else the order of the notes decides.
pub open spec fn plays_slots(
    notes: Seq<Note>,
    musical_start_ms: u64,
    slots: Seq<(int, bool)>,
    events: Seq<MidiEvent>,
) -> bool {
    &&& events.len() == slots.len()
    &&& forall|m: int|
        0 <= m < slots.len() ==> {
            &&& is_slot(notes, musical_start_ms, #[trigger] slots[m])
            &&& is_slot_event(notes, musical_start_ms, slots[m], events[m])
        }
    &&& forall|slot: (int, bool)| #[trigger]
        is_slot(notes, musical_start_ms, slot) ==> slots.contains(slot)
    &&& forall|a: int, b: int|
        #![trigger slots[a], slots[b]]
        0 <= a < b < slots.len() ==> {
            ||| events[a].0 < events[b].0
            ||| events[a].0 == events[b].0 && !slots[a].1 && slots[b].1
            ||| events[a].0 == events[b].0 && slots[a].1 == slots[b].1 && slots[a].0 < slots[b].0
        }
}

proof fn replayed_slots(notes: Seq<Note>, musical_start_ms: u64) -> (slots: Seq<(int, bool)>)
    requires
        ends_fit(notes),
        forall|j: int|
            0 <= j < notes.len() ==> (#[trigger] notes[j]).end() - musical_start_ms
                <= MAX_PLAYBACK_MS,
    ensures
        slots.len() == replayed(notes, musical_start_ms).len(),
        forall|m: int|
            0 <= m < slots.len() ==> {
                &&& is_slot(notes, musical_start_ms, #[trigger] slots[m])
                &&& is_slot_event(
                    notes,
                    musical_start_ms,
                    slots[m],
                    replayed(notes, musical_start_ms)[m],
                )
            },
        forall|slot: (int, bool)| #[trigger]
            is_slot(notes, musical_start_ms, slot) ==> slots.contains(slot),
        forall|a: int, b: int|
            #![trigger slots[a], slots[b]]
            0 <= a < b < slots.len() ==> slots[a].0 < slots[b].0 || slots[a].0 == slots[b].0
                && slots[a].1 && !slots[b].1,
    decreases notes.len(),
{
    if notes.len() == 0 {
        Seq::empty()
    } else {
        let rest = notes.drop_last();
        let last = rest.len() as int;
        assert forall|j: int| 0 <= j < rest.len() implies (#[trigger] rest[j]).end()
            <= u64::MAX && rest[j].end() - musical_start_ms <= MAX_PLAYBACK_MS by {
            assert(rest[j] == notes[j]);
            assert(notes[j].end() <= u64::MAX);
        }
        let before = replayed_slots(rest, musical_start_ms);
        let all = replayed(notes, musical_start_ms);
        assert(notes[last].end() - musical_start_ms <= MAX_PLAYBACK_MS);
        let slots = if notes[last].onset_ms + notes[last].duration_ms > musical_start_ms {
            before.push((last, true)).push((last, false))
        } else {
            before
        };
        assert forall|m: int| 0 <= m < slots.len() implies {
            &&& is_slot(notes, musical_start_ms, #[trigger] slots[m])
            &&& is_slot_event(notes, musical_start_ms, slots[m], all[m])
        } by {
            if m < before.len() {
                assert(slots[m] == before[m]);
                assert(is_slot(rest, musical_start_ms, before[m]));
                assert(rest[before[m].0] == notes[before[m].0]);
                assert(all[m] == replayed(rest, musical_start_ms)[m]);
            } else if m == before.len() {
                assert(all[m] == start_event(notes[last], musical_start_ms));
            } else {
                assert(all[m] == end_event(notes[last], musical_start_ms));
            }
        }
        assert forall|slot: (int, bool)| #[trigger]
            is_slot(notes, musical_start_ms, slot) implies slots.contains(slot) by {
            if slot.0 < last {
                assert(rest[slot.0] == notes[slot.0]);
                assert(is_slot(rest, musical_start_ms, slot));
                let m = choose|m: int| 0 <= m < before.len() && before[m] == slot;
                assert(slots[m] == slot);
            } else if slot.1 {
                assert(slots[before.len() as int] == slot);
            } else {
                assert(slots[before.len() as int + 1] == slot);
            }
        }
        assert forall|a: int, b: int|
            #![trigger slots[a], slots[b]]
            0 <= a < b < slots.len() implies slots[a].0 < slots[b].0 || slots[a].0 == slots[b].0
            && slots[a].1 && !slots[b].1 by {
            if a < before.len() {
                assert(slots[a] == before[a]);
                assert(is_slot(rest, musical_start_ms, before[a]));
            }
            if b < before.len() {
                assert(slots[b] == before[b]);
            }
        }
        slots
    }
}

/// Playback from a position on plays every note that sounds beyond it, and nothing else. It is
/// refused if there is no such note, or if one ends more than five minutes later.
pub proof fn playback_plays_every_note(notes: Seq<Note>, musical_start_ms: u64) -> (slots: Seq<
    (int, bool),
>)
    requires
        ends_fit(notes),
    ensures
        ({
            let silent = forall|j: int|
                0 <= j < notes.len() ==> (#[trigger] notes[j]).onset_ms + notes[j].duration_ms
                    <= musical_start_ms;
            let too_long = exists|j: int|
                0 <= j < notes.len() && (#[trigger] notes[j]).onset_ms + notes[j].duration_ms
                    > musical_start_ms + 300_000;
            match replay_plan(notes, musical_start_ms) {
                Ok(events) => {
                    &&& !silent
                    &&& !too_long
                    &&& plays_slots(notes, musical_start_ms, slots, events)
                },
                Err(text) => if silent {
                    text == "Nothing to play from this position"@
                } else {
                    &&& too_long
                    &&& text == "Playback is limited to five minutes. Clear older notes first."@
                },
            }
        }),
{
    latest_end_is_the_maximum(notes);
    if latest_end(notes) <= musical_start_ms {
        assert forall|j: int| 0 <= j < notes.len() implies (#[trigger] notes[j]).onset_ms
            + notes[j].duration_ms <= musical_start_ms by {
            assert(notes[j].end() <= latest_end(notes));
        }
        Seq::empty()
    } else {
        let longest = choose|j: int|
            0 <= j < notes.len() && (#[trigger] notes[j]).end() == latest_end(notes);
        assert(notes[longest].onset_ms + notes[longest].duration_ms > musical_start_ms);
        if latest_end(notes) - musical_start_ms > MAX_PLAYBACK_MS {
            Seq::empty()
        } else {
            assert forall|j: int| 0 <= j < notes.len() implies (#[trigger] notes[j]).end()
                - musical_start_ms <= MAX_PLAYBACK_MS by {
                assert(notes[j].end() <= latest_end(notes));
            }
            let events = replayed(notes, musical_start_ms);
            let unsorted = replayed_slots(notes, musical_start_ms);
            let order = stable_sort_reorders(events);
            let sorted = stable_sort(events);
            let slots = Seq::new(events.len(), |m: int| unsorted[order[m]]);
            assert forall|m: int| 0 <= m < slots.len() implies {
                &&& is_slot(notes, musical_start_ms, #[trigger] slots[m])
                &&& is_slot_event(notes, musical_start_ms, slots[m], sorted[m])
            } by {
                assert(0 <= order[m] < events.len());
                assert(slots[m] == unsorted[order[m]]);
                assert(sorted[m] == events[order[m]]);
            }
            assert forall|slot: (int, bool)| #[trigger]
                is_slot(notes, musical_start_ms, slot) implies slots.contains(slot) by {
                let k = choose|k: int| 0 <= k < unsorted.len() && unsorted[k] == slot;
                assert(order.contains(k));
                let m = choose|m: int| 0 <= m < order.len() && order[m] == k;
                assert(slots[m] == slot);
            }
            assert forall|a: int, b: int|
                #![trigger slots[a], slots[b]]
                0 <= a < b < slots.len() implies {
                ||| sorted[a].0 < sorted[b].0
                ||| sorted[a].0 == sorted[b].0 && !slots[a].1 && slots[b].1
                ||| sorted[a].0 == sorted[b].0 && slots[a].1 == slots[b].1 && slots[a].0
                    < slots[b].0
            } by {
                assert(0 <= order[a] < events.len() && 0 <= order[b] < events.len());
                assert(sorted[a] == events[order[a]] && sorted[b] == events[order[b]]);
                assert(is_slot_event(notes, musical_start_ms, slots[a], sorted[a]));
                assert(is_slot_event(notes, musical_start_ms, slots[b], sorted[b]));
                assert(slots[a] == unsorted[order[a]] && slots[b] == unsorted[order[b]]);
            }
            slots
        }
    }
}

/// Shifted events keep their order, their distances and everything but their times; an event at
/// zero comes at `base`.
pub proof fn shifting_moves_only_times(events: Seq<MidiEvent>, base: u64)
    requires
        forall|i: int| 0 <= i < events.len() ==> base + (#[trigger] events[i]).0 <= u64::MAX,
    ensures
        shifted(events, base).len() == events.len(),
        forall|i: int|
            0 <= i < events.len() ==> {
                let event = #[trigger] shifted(events, base)[i];
                &&& event.0 - events[i].0 == base
                &&& event.1 == events[i].1
                &&& event.2 == events[i].2
                &&& event.3 == events[i].3
            },
{
    assert forall|i: int| 0 <= i < events.len() implies {
        let event = #[trigger] shifted(events, base)[i];
        &&& event.0 - events[i].0 == base
        &&& event.1 == events[i].1
        &&& event.2 == events[i].2
        &&& event.3 == events[i].3
    } by {
        assert(base + events[i].0 <= u64::MAX);
    }
}

/// The playhead meets the notes: when the message that starts a note is due, its onset is heard, and
/// when the one that ends it is due, its end is. The messages of a run that is set going at `now_ms`
/// come at their times after that.
pub proof fn playhead_meets_the_notes(
    notes: Seq<Note>,
    musical_start_ms: u64,
    now_ms: u64,
    state: PlaybackState,
    slots: Seq<(int, bool)>,
    m: int,
)
    requires
        ends_fit(notes),
        replay_plan(notes, musical_start_ms) is Ok,
        plays_slots(
            notes,
            musical_start_ms,
            slots,
            replay_plan(notes, musical_start_ms)->Ok_0,
        ),
        0 <= m < slots.len(),
        now_ms + 100 + 300_000 <= u64::MAX,
        state.phase is Playing,
        state.timeline == Some(
            PlaybackTimeline {
                wall_start_ms: (now_ms + LEAD_IN_MS) as u64,
                musical_start_ms,
                musical_end_ms: latest_end(notes) as u64,
            },
        ),
    ensures
        ({
            let note = notes[slots[m].0];
            let due_ms = shifted(replay_plan(notes, musical_start_ms)->Ok_0, now_ms)[m].0;
            &&& slots[m].1 && note.onset_ms >= musical_start_ms ==> state.heard(due_ms) == Some(
                note.onset_ms,
            )
            &&& slots[m].1 && note.onset_ms < musical_start_ms ==> state.heard(due_ms) == Some(
                musical_start_ms,
            )
            &&& !slots[m].1 ==> state.heard(due_ms) == Some(
                (note.onset_ms + note.duration_ms) as u64,
            )
        }),
{
    let events = replay_plan(notes, musical_start_ms)->Ok_0;
    latest_end_is_the_maximum(notes);
    let slot = slots[m];
    assert(is_slot(notes, musical_start_ms, slot));
    assert(is_slot_event(notes, musical_start_ms, slot, events[m]));
    let note = notes[slot.0];
    assert(note.end() <= latest_end(notes));
    let longest = choose|j: int|
        0 <= j < notes.len() && (#[trigger] notes[j]).end() == latest_end(notes);
    assert(notes[longest].end() <= u64::MAX);
    assert(shifted(events, now_ms)[m].0 == now_ms + events[m].0);
}

/// A call of the sender, and what it was told to do.
pub struct SendCall {
    pub active: bool,
    pub now_ms: u64,
    pub step: SendStep,
}

/// The sender is called again and again: `senders` are its states in between.
pub open spec fn is_sending(senders: Seq<MidiSender>, calls: Seq<SendCall>) -> bool {
    &&& senders.len() == calls.len() + 1
    &&& senders[0].next == 0
    &&& forall|k: int|
        0 <= k < calls.len() ==> (#[trigger] senders[k]).stepped(
            calls[k].active,
            calls[k].now_ms,
            calls[k].step,
            senders[k + 1],
        )
}

/// `sent` names the calls that sent a message, of which there is one for each event so far, in the
/// order of the events.
pub open spec fn sends_in_order(
    events: Seq<MidiEvent>,
    calls: Seq<SendCall>,
    sent: Seq<int>,
) -> bool {
    &&& sent.len() <= events.len()
    &&& forall|m: int|
        0 <= m < sent.len() ==> {
            let call = calls[#[trigger] sent[m]];
            let event = events[m];
            &&& 0 <= sent[m] < calls.len()
            &&& call.active
            &&& call.now_ms >= event.0
            &&& call.step is Send
            &&& call.step->Send_0@.len() == 3
            &&& call.step->Send_0@[0] == if event.1 { 0x90u8 } else { 0x80u8 }
            &&& call.step->Send_0@[1] == event.2
            &&& call.step->Send_0@[2] == event.3
        }
    &&& forall|k: int|
        0 <= k < calls.len() && (#[trigger] calls[k]).step is Send ==> sent.contains(k)
    &&& forall|a: int, b: int|
        #![trigger sent[a], sent[b]]
        0 <= a < b < sent.len() ==> sent[a] < sent[b]
}

/// The messages of a run are sent one for each event, in their order, and none before its time. While
/// some are left, the sender waits for the next one, ten milliseconds at most, or gives up because
/// the run is over; it is done exactly when all are sent.
pub proof fn messages_are_sent_in_order(
    senders: Seq<MidiSender>,
    calls: Seq<SendCall>,
) -> (sent: Seq<int>)
    requires
        is_sending(senders, calls),
    ensures
        sends_in_order(senders[0].events@, calls, sent),
        senders.last().events == senders[0].events,
        senders.last().next == sent.len(),
        calls.len() > 0 ==> match calls.last().step {
            SendStep::Done => sent.len() == senders[0].events@.len(),
            SendStep::Cancel => !calls.last().active && sent.len() < senders[0].events@.len(),
            SendStep::Wait(ms) => {
                let time = senders[0].events@[sent.len() as int].0;
                &&& calls.last().active
                &&& sent.len() < senders[0].events@.len()
                &&& calls.last().now_ms < time
                &&& calls.last().now_ms + ms == if time - calls.last().now_ms < 10 {
                    time as int
                } else {
                    calls.last().now_ms + 10
                }
            },
            SendStep::Send(_) => true,
        },
    decreases calls.len(),
{
    let events = senders[0].events@;
    if calls.len() == 0 {
        Seq::empty()
    } else {
        let rest = calls.drop_last();
        let k = rest.len() as int;
        let before = senders.drop_last();
        assert forall|i: int| 0 <= i < rest.len() implies (#[trigger] before[i]).stepped(
            rest[i].active,
            rest[i].now_ms,
            rest[i].step,
            before[i + 1],
        ) by {
            assert(before[i] == senders[i] && before[i + 1] == senders[i + 1]);
            assert(rest[i] == calls[i]);
        }
        assert(before[0] == senders[0]);
        let sent_before = messages_are_sent_in_order(before, rest);
        assert(before.last() == senders[k]);
        assert(senders[k].stepped(
            calls[k].active,
            calls[k].now_ms,
            calls[k].step,
            senders[k + 1],
        ));
        assert(senders.last() == senders[k + 1]);
        let sent = if calls[k].step is Send {
            sent_before.push(k)
        } else {
            sent_before
        };
        assert forall|m: int| 0 <= m < sent_before.len() implies {
            let call = calls[#[trigger] sent[m]];
            let event = events[m];
            &&& 0 <= sent[m] < k
            &&& call.active
            &&& call.now_ms >= event.0
            &&& call.step is Send
            &&& call.step->Send_0@.len() == 3
            &&& call.step->Send_0@[0] == if event.1 { 0x90u8 } else { 0x80u8 }
            &&& call.step->Send_0@[1] == event.2
            &&& call.step->Send_0@[2] == event.3
        } by {
            assert(sent[m] == sent_before[m]);
            assert(rest[sent_before[m]] == calls[sent_before[m]]);
        }
        assert forall|i: int|
            0 <= i < calls.len() && (#[trigger] calls[i]).step is Send implies sent.contains(i) by {
            if i < k {
                assert(rest[i] == calls[i]);
                let m = choose|m: int| 0 <= m < sent_before.len() && sent_before[m] == i;
                assert(sent[m] == i);
            } else {
                assert(sent[sent_before.len() as int] == i);
            }
        }
        sent
    }
}

} // verus!
