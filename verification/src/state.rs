//! The notes on the timeline and the recording state that surrounds them.

use vstd::prelude::*;

verus! {

/// One note on the timeline. `generated` tells notes of the model from played ones.
#[derive(Clone, Copy, Debug, PartialEq, Eq, Structural)]
pub struct Note {
    pub pitch: u8,
    pub onset_ms: u64,
    pub duration_ms: u64,
    pub velocity: u8,
    pub generated: bool,
}

impl Note {
    /// The instant at which the note stops sounding.
    pub open spec fn end(self) -> int {
        self.onset_ms + self.duration_ms
    }
}

/// Every note ends at an instant that the clock can hold.
pub open spec fn ends_fit(notes: Seq<Note>) -> bool {
    forall|i: int| 0 <= i < notes.len() ==> (#[trigger] notes[i]).end() <= u64::MAX
}

/// Whether [`ends_fit`] holds.
pub fn check_ends(notes: &[Note]) -> (fit: bool)
    ensures
        fit == ends_fit(notes@),
        fit <==> forall|i: int|
            0 <= i < notes@.len() ==> (#[trigger] notes@[i]).onset_ms + notes@[i].duration_ms
                <= u64::MAX,
{
    let mut i: usize = 0;
    while i < notes.len()
        invariant
            i <= notes.len(),
            forall|k: int| 0 <= k < i ==> (#[trigger] notes@[k]).end() <= u64::MAX,
        decreases notes.len() - i,
    {
        if notes[i].onset_ms > u64::MAX - notes[i].duration_ms {
            assert(notes@[i as int].end() > u64::MAX);
            return false;
        }
        i = i + 1;
    }
    true
}

/// The latest end of any note, or zero for an empty timeline.
pub open spec fn latest_end(notes: Seq<Note>) -> int
    decreases notes.len(),
{
    if notes.len() == 0 {
        0
    } else {
        let before = latest_end(notes.drop_last());
        if notes.last().end() > before { notes.last().end() } else { before }
    }
}

/// `latest_end` is an upper bound of all ends, and it is the end of some note unless there
/// is none.
pub proof fn latest_end_is_the_maximum(notes: Seq<Note>)
    ensures
        forall|i: int| 0 <= i < notes.len() ==> (#[trigger] notes[i]).end() <= latest_end(notes),
        notes.len() == 0 ==> latest_end(notes) == 0,
        notes.len() > 0 ==> exists|i: int|
            0 <= i < notes.len() && (#[trigger] notes[i]).end() == latest_end(notes),
        latest_end(notes) >= 0,
    decreases notes.len(),
{
    if notes.len() > 0 {
        let rest = notes.drop_last();
        latest_end_is_the_maximum(rest);
        assert forall|i: int| 0 <= i < notes.len() implies (#[trigger] notes[i]).end()
            <= latest_end(notes) by {
            if i < notes.len() - 1 {
                assert(rest[i] == notes[i]);
            }
        }
        if notes.last().end() > latest_end(rest) {
            assert(notes[notes.len() - 1].end() == latest_end(notes));
        } else if rest.len() > 0 {
            let k = choose|i: int|
                0 <= i < rest.len() && (#[trigger] rest[i]).end() == latest_end(rest);
            assert(notes[k].end() == latest_end(notes));
        } else {
            assert(notes[notes.len() - 1].end() == latest_end(notes));
        }
    }
}

/// Computes [`latest_end`].
pub fn last_end(notes: &[Note]) -> (end: u64)
    requires
        ends_fit(notes@),
    ensures
        end == latest_end(notes@),
{
    let mut end: u64 = 0;
    let mut i: usize = 0;
    while i < notes.len()
        invariant
            i <= notes.len(),
            ends_fit(notes@),
            end == latest_end(notes@.take(i as int)),
        decreases notes.len() - i,
    {
        assert(notes@.take(i + 1).drop_last() =~= notes@.take(i as int));
        assert(notes@[i as int].end() <= u64::MAX);
        let note_end = notes[i].onset_ms + notes[i].duration_ms;
        if note_end > end {
            end = note_end;
        }
        i = i + 1;
    }
    assert(notes@.take(notes.len() as int) =~= notes@);
    end
}

/// The earliest onset of any note.
pub open spec fn earliest_onset(notes: Seq<Note>) -> Option<u64>
    decreases notes.len(),
{
    if notes.len() == 0 {
        None
    } else {
        match earliest_onset(notes.drop_last()) {
            Some(onset) => if notes.last().onset_ms < onset {
                Some(notes.last().onset_ms)
            } else {
                Some(onset)
            },
            None => Some(notes.last().onset_ms),
        }
    }
}

/// `earliest_onset` is a lower bound of all onsets, and it is the onset of some note unless
/// there is none.
pub proof fn earliest_onset_is_the_minimum(notes: Seq<Note>)
    ensures
        notes.len() == 0 <==> earliest_onset(notes) is None,
        forall|i: int|
            0 <= i < notes.len() ==> earliest_onset(notes)->0 <= (#[trigger] notes[i]).onset_ms,
        notes.len() > 0 ==> exists|i: int|
            0 <= i < notes.len() && (#[trigger] notes[i]).onset_ms == earliest_onset(notes)->0,
    decreases notes.len(),
{
    if notes.len() > 0 {
        let rest = notes.drop_last();
        earliest_onset_is_the_minimum(rest);
        assert forall|i: int| 0 <= i < notes.len() implies earliest_onset(notes)->0 <= (
        #[trigger] notes[i]).onset_ms by {
            if i < notes.len() - 1 {
                assert(rest[i] == notes[i]);
            }
        }
        if rest.len() > 0 && notes.last().onset_ms >= earliest_onset(rest)->0 {
            let k = choose|i: int|
                0 <= i < rest.len() && (#[trigger] rest[i]).onset_ms == earliest_onset(rest)->0;
            assert(notes[k].onset_ms == earliest_onset(notes)->0);
        } else {
            assert(notes[notes.len() - 1].onset_ms == earliest_onset(notes)->0);
        }
    }
}

/// Computes [`earliest_onset`].
pub fn first_onset(notes: &[Note]) -> (onset: Option<u64>)
    ensures
        onset == earliest_onset(notes@),
{
    let mut first: Option<u64> = None;
    let mut i: usize = 0;
    while i < notes.len()
        invariant
            i <= notes.len(),
            first == earliest_onset(notes@.take(i as int)),
        decreases notes.len() - i,
    {
        assert(notes@.take(i + 1).drop_last() =~= notes@.take(i as int));
        let onset = notes[i].onset_ms;
        first = match first {
            Some(earliest) => if onset < earliest {
                Some(onset)
            } else {
                Some(earliest)
            },
            None => Some(onset),
        };
        i = i + 1;
    }
    assert(notes@.take(notes.len() as int) =~= notes@);
    first
}

/// The recorder: the timeline, the text of the status line, and where recording stands.
///
/// While recording, the musical position is `capture_position_ms` plus the wall time since
/// `capture_started_ms`; otherwise it is frozen at `capture_position_ms`.
/// `capture_generation` changes whenever held keys stop to matter, and
/// `generation_revision` whenever a continuation that is still being computed has become
/// outdated.
pub struct Shared {
    pub notes: Vec<Note>,
    pub status: String,
    pub connected: bool,
    pub capturing: bool,
    pub capture_generation: u64,
    pub capture_started_ms: u64,
    pub capture_position_ms: u64,
    pub input_active: bool,
    pub last_input_ms: u64,
    pub generation_revision: u64,
}

/// The next value of a counter that wraps around at the end of its range.
pub open spec fn next_counter(value: u64) -> int {
    if value == u64::MAX { 0 } else { value + 1 }
}

/// What is left of `a` after taking `b` away, and zero where `b` is larger.
pub open spec fn monus(a: u64, b: u64) -> int {
    if a >= b { a - b } else { 0 }
}

impl Default for Shared {
    fn default() -> (shared: Self)
        ensures
            shared.notes@.len() == 0,
            shared.status@.len() == 0,
            !shared.connected,
            !shared.capturing,
            shared.capture_generation == 0,
            shared.capture_started_ms == 0,
            shared.capture_position_ms == 0,
            !shared.input_active,
            shared.last_input_ms == 0,
            shared.generation_revision == 0,
    {
        Shared {
            notes: Vec::new(),
            status: String::new(),
            connected: false,
            capturing: false,
            capture_generation: 0,
            capture_started_ms: 0,
            capture_position_ms: 0,
            input_active: false,
            last_input_ms: 0,
            generation_revision: 0,
        }
    }
}

impl Shared {
    /// The musical position at wall time `now_ms`.
    pub open spec fn position_at(self, now_ms: u64) -> int {
        self.capture_position_ms + if self.capturing {
            monus(now_ms, self.capture_started_ms)
        } else {
            0
        }
    }

    /// Where recording starts when it is switched on: at the selected position, else where it
    /// was frozen or at the end of the last note, whichever is later.
    pub open spec fn start_position(self, selected_position_ms: Option<u64>) -> int {
        match selected_position_ms {
            Some(position) => position as int,
            None => if latest_end(self.notes@) > self.capture_position_ms {
                latest_end(self.notes@)
            } else {
                self.capture_position_ms as int
            },
        }
    }

    /// `after` is the state once recording was switched off, freezing its position, or on.
    pub open spec fn toggled(
        self,
        now_ms: u64,
        selected_position_ms: Option<u64>,
        after: Shared,
    ) -> bool {
        &&& after.capturing == !self.capturing
        &&& after.capture_position_ms == if after.capturing {
            self.start_position(selected_position_ms)
        } else {
            self.position_at(now_ms)
        }
        &&& after.capture_started_ms == if after.capturing {
            now_ms
        } else {
            self.capture_started_ms
        }
        &&& after.capture_generation == next_counter(self.capture_generation)
        &&& after.generation_revision == next_counter(self.generation_revision)
        &&& after.status@ == if after.capturing {
            "Recording MIDI prompt..."@
        } else {
            "Recording stopped."@
        }
        &&& after == Shared {
            status: after.status,
            capturing: after.capturing,
            capture_generation: after.capture_generation,
            capture_started_ms: after.capture_started_ms,
            capture_position_ms: after.capture_position_ms,
            input_active: false,
            last_input_ms: now_ms,
            generation_revision: after.generation_revision,
            ..self
        }
    }

    /// `after` is the state once the timeline holds `notes` and recording is frozen at their
    /// end.
    pub open spec fn replaced(self, notes: Vec<Note>, now_ms: u64, after: Shared) -> bool {
        &&& after.capture_position_ms == latest_end(notes@)
        &&& after.capture_generation == next_counter(self.capture_generation)
        &&& after.generation_revision == next_counter(self.generation_revision)
        &&& after == Shared {
            notes,
            capture_position_ms: after.capture_position_ms,
            capture_started_ms: now_ms,
            capturing: false,
            capture_generation: after.capture_generation,
            input_active: false,
            last_input_ms: now_ms,
            generation_revision: after.generation_revision,
            ..self
        }
    }

    /// `after` is the state once the timeline is empty and the position back at its start.
    pub open spec fn cleared(self, now_ms: u64, after: Shared) -> bool {
        &&& after.notes@ == Seq::<Note>::empty()
        &&& after.capture_generation == next_counter(self.capture_generation)
        &&& after.generation_revision == next_counter(self.generation_revision)
        &&& after == Shared {
            notes: after.notes,
            capture_position_ms: 0,
            capture_started_ms: now_ms,
            capture_generation: after.capture_generation,
            generation_revision: after.generation_revision,
            input_active: false,
            last_input_ms: now_ms,
            ..self
        }
    }

    /// Outdates every continuation that is still being computed and returns the revision
    /// that a new one is to carry.
    pub fn invalidate_generation(&mut self) -> (revision: u64)
        ensures
            revision == next_counter(old(self).generation_revision),
            *final(self) == (Shared { generation_revision: revision, ..*old(self) }),
    {
        self.generation_revision = self.generation_revision.wrapping_add(1);
        self.generation_revision
    }

    /// Whether a continuation requested under `revision` is still wanted.
    pub fn generation_is_current(&self, revision: u64) -> (current: bool)
        ensures
            current == (self.generation_revision == revision),
    {
        self.generation_revision == revision
    }

    /// Adds a played note, which outdates every continuation.
    pub fn add_input_note(&mut self, note: Note)
        ensures
            final(self).notes@ == old(self).notes@.push(note),
            final(self).generation_revision == next_counter(old(self).generation_revision),
            *final(self) == (Shared {
                notes: final(self).notes,
                generation_revision: final(self).generation_revision,
                ..*old(self)
            }),
    {
        self.notes.push(note);
        self.invalidate_generation();
    }

    /// Puts `notes` in place of the timeline and freezes recording at their end.
    pub fn replace_notes(&mut self, notes: Vec<Note>, now_ms: u64)
        requires
            ends_fit(notes@),
        ensures
            old(self).replaced(notes, now_ms, *final(self)),
    {
        self.notes = notes;
        self.capture_position_ms = last_end(self.notes.as_slice());
        self.capture_started_ms = now_ms;
        self.capturing = false;
        self.capture_generation = self.capture_generation.wrapping_add(1);
        self.input_active = false;
        self.last_input_ms = now_ms;
        self.invalidate_generation();
    }

    /// The musical position at wall time `now_ms`.
    pub fn capture_position(&self, now_ms: u64) -> (position: u64)
        requires
            self.position_at(now_ms) <= u64::MAX,
        ensures
            position == self.position_at(now_ms),
    {
        self.capture_position_ms + if self.capturing {
            now_ms.saturating_sub(self.capture_started_ms)
        } else {
            0
        }
    }

    /// Whether the clock can hold the musical position at wall time `now_ms`.
    pub fn check_position(&self, now_ms: u64) -> (fits: bool)
        ensures
            fits == (self.position_at(now_ms) <= u64::MAX),
    {
        let elapsed: u64 = if self.capturing {
            now_ms.saturating_sub(self.capture_started_ms)
        } else {
            0
        };
        self.capture_position_ms <= u64::MAX - elapsed
    }

    /// Switches recording off, freezing its position, or on, and returns whether it is on.
    pub fn toggle_capture(&mut self, now_ms: u64, selected_position_ms: Option<u64>) -> (capturing:
        bool)
        requires
            old(self).capturing ==> old(self).position_at(now_ms) <= u64::MAX,
            !old(self).capturing && selected_position_ms is None ==> ends_fit(old(self).notes@),
        ensures
            old(self).toggled(now_ms, selected_position_ms, *final(self)),
            capturing == final(self).capturing,
    {
        if self.capturing {
            self.capture_position_ms = self.capture_position(now_ms);
            self.capturing = false;
        } else {
            self.capture_position_ms = match selected_position_ms {
                Some(position) => position,
                None => {
                    let end = last_end(self.notes.as_slice());
                    if end > self.capture_position_ms {
                        end
                    } else {
                        self.capture_position_ms
                    }
                },
            };
            self.capture_started_ms = now_ms;
            self.capturing = true;
        }
        self.capture_generation = self.capture_generation.wrapping_add(1);
        self.invalidate_generation();
        self.input_active = false;
        self.last_input_ms = now_ms;
        self.status = if self.capturing {
            "Recording MIDI prompt...".to_owned()
        } else {
            "Recording stopped.".to_owned()
        };
        self.capturing
    }

    /// Removes all notes and moves the position back to the start.
    pub fn clear_timeline(&mut self, now_ms: u64)
        ensures
            old(self).cleared(now_ms, *final(self)),
    {
        self.notes.clear();
        self.capture_position_ms = 0;
        self.capture_started_ms = now_ms;
        self.capture_generation = self.capture_generation.wrapping_add(1);
        self.invalidate_generation();
        self.input_active = false;
        self.last_input_ms = now_ms;
    }
}

/// Stopping a recording freezes its position, and it goes on from there when it is resumed,
/// unless there are notes behind it.
pub proof fn recording_resumes_where_it_was_frozen(
    recording: Shared,
    stopped: Shared,
    resumed: Shared,
    stop_ms: u64,
    resume_ms: u64,
)
    requires
        recording.capturing,
        recording.toggled(stop_ms, None, stopped),
        stopped.toggled(resume_ms, None, resumed),
    ensures
        forall|now_ms: u64| #[trigger]
            stopped.position_at(now_ms) == recording.position_at(stop_ms),
        latest_end(recording.notes@) <= recording.position_at(stop_ms) ==> forall|now_ms: u64|
            #[trigger]
            resumed.position_at(now_ms) == recording.position_at(stop_ms) + monus(
                now_ms,
                resume_ms,
            ),
{
}

/// Recording that is switched on without a selected position starts behind every note, and
/// never before the position where it was frozen.
pub proof fn recording_starts_behind_all_notes(stopped: Shared, resumed: Shared, now_ms: u64)
    requires
        !stopped.capturing,
        stopped.toggled(now_ms, None, resumed),
    ensures
        stopped.capture_position_ms <= resumed.position_at(now_ms),
        forall|i: int|
            0 <= i < stopped.notes@.len() ==> (#[trigger] stopped.notes@[i]).end()
                <= resumed.position_at(now_ms),
        resumed.position_at(now_ms) == stopped.capture_position_ms || resumed.position_at(now_ms)
            == latest_end(stopped.notes@),
{
    latest_end_is_the_maximum(stopped.notes@);
}

/// Recording starts at the selected position, whatever notes there are.
pub proof fn recording_starts_where_it_is_told(
    stopped: Shared,
    started: Shared,
    selected_ms: u64,
    start_ms: u64,
    now_ms: u64,
)
    requires
        !stopped.capturing,
        stopped.toggled(start_ms, Some(selected_ms), started),
    ensures
        started.position_at(now_ms) == selected_ms + monus(now_ms, start_ms),
{
}

/// Clearing the timeline leaves neither notes nor a position.
pub proof fn clearing_leaves_nothing(before: Shared, after: Shared, now_ms: u64)
    requires
        before.cleared(now_ms, after),
    ensures
        after.notes@.len() == 0,
        after.position_at(now_ms) == 0,
{
}

/// Whatever changes the timeline from outside or the recording outdates the continuation that
/// is being computed, and lets go of the keys that are held.
pub proof fn changes_outdate_continuations(
    before: Shared,
    after: Shared,
    now_ms: u64,
    selected_ms: Option<u64>,
    notes: Vec<Note>,
)
    requires
        before.toggled(now_ms, selected_ms, after) || before.replaced(notes, now_ms, after)
            || before.cleared(now_ms, after),
    ensures
        after.generation_revision != before.generation_revision,
        after.capture_generation != before.capture_generation,
        !after.input_active,
{
}

/// Every note lasts at least a millisecond.
pub open spec fn all_last(notes: Seq<Note>) -> bool {
    forall|i: int| 0 <= i < notes.len() ==> (#[trigger] notes[i]).duration_ms >= 1
}

/// While recording, the musical position runs with the clock from the moment at which recording
/// was switched on; otherwise it stands still.
pub proof fn recording_runs_with_the_clock(shared: Shared, earlier_ms: u64, later_ms: u64)
    requires
        earlier_ms <= later_ms,
    ensures
        !shared.capturing ==> shared.position_at(later_ms) == shared.position_at(earlier_ms),
        !shared.capturing ==> shared.position_at(later_ms) == shared.capture_position_ms,
        shared.capturing && shared.capture_started_ms <= earlier_ms ==> shared.position_at(later_ms)
            - shared.position_at(earlier_ms) == later_ms - earlier_ms,
        shared.capturing && later_ms <= shared.capture_started_ms ==> shared.position_at(later_ms)
            == shared.capture_position_ms,
{
}

/// Counters go up by one, and start again at zero behind the last number.
pub proof fn counters_go_around(value: u64)
    ensures
        next_counter(value) == (value + 1) % 0x1_0000_0000_0000_0000,
        0 <= next_counter(value) <= u64::MAX,
        next_counter(value) != value,
{
}

/// Switching recording on or off leaves the notes and the devices alone. Off, the position stays
/// where it was at that moment. On, it goes on from where recording starts, with the clock. Held
/// keys and continuations that are being computed are outdated, and silence counts anew.
pub proof fn switching_recording_leaves_the_notes(
    before: Shared,
    after: Shared,
    now_ms: u64,
    selected_ms: Option<u64>,
    later_ms: u64,
)
    requires
        before.toggled(now_ms, selected_ms, after),
        now_ms <= later_ms,
    ensures
        after.notes == before.notes,
        after.connected == before.connected,
        after.capturing != before.capturing,
        before.capturing ==> after.position_at(later_ms) == before.position_at(now_ms),
        before.capturing ==> after.status@ == "Recording stopped."@,
        after.capturing ==> after.position_at(later_ms) - after.position_at(now_ms) == later_ms
            - now_ms,
        after.capturing && selected_ms is Some ==> after.position_at(now_ms) == selected_ms->0,
        after.capturing && selected_ms is None ==> {
            &&& after.position_at(now_ms) >= before.capture_position_ms
            &&& forall|i: int|
                0 <= i < before.notes@.len() ==> (#[trigger] before.notes@[i]).onset_ms
                    + before.notes@[i].duration_ms <= after.position_at(now_ms)
            &&& after.position_at(now_ms) == before.capture_position_ms || exists|i: int|
                0 <= i < before.notes@.len() && (#[trigger] before.notes@[i]).onset_ms
                    + before.notes@[i].duration_ms == after.position_at(now_ms)
        },
        after.capturing ==> after.status@ == "Recording MIDI prompt..."@,
        after.capture_generation == (before.capture_generation + 1) % 0x1_0000_0000_0000_0000,
        after.generation_revision == (before.generation_revision + 1) % 0x1_0000_0000_0000_0000,
        !after.input_active,
        after.last_input_ms == now_ms,
{
    latest_end_is_the_maximum(before.notes@);
    if after.capturing && selected_ms is None && after.position_at(now_ms)
        != before.capture_position_ms {
        let k = choose|i: int|
            0 <= i < before.notes@.len() && (#[trigger] before.notes@[i]).end() == latest_end(
                before.notes@,
            );
        assert(before.notes@[k].onset_ms + before.notes@[k].duration_ms == after.position_at(
            now_ms,
        ));
    }
    assert forall|i: int|
        after.capturing && selected_ms is None && 0 <= i < before.notes@.len() implies (
    #[trigger] before.notes@[i]).onset_ms + before.notes@[i].duration_ms <= after.position_at(
        now_ms,
    ) by {
        assert(before.notes@[i].end() <= latest_end(before.notes@));
    }
}

/// New notes take the place of all others. Recording is off and stands at the end of the last of
/// them, or at zero if there is none.
pub proof fn replacing_puts_new_notes_in_place(
    before: Shared,
    after: Shared,
    notes: Vec<Note>,
    now_ms: u64,
    later_ms: u64,
)
    requires
        before.replaced(notes, now_ms, after),
    ensures
        after.notes == notes,
        after.status == before.status,
        after.connected == before.connected,
        !after.capturing,
        forall|i: int|
            0 <= i < notes@.len() ==> (#[trigger] notes@[i]).onset_ms + notes@[i].duration_ms
                <= after.position_at(later_ms),
        if notes@.len() == 0 {
            after.position_at(later_ms) == 0
        } else {
            exists|i: int|
                0 <= i < notes@.len() && (#[trigger] notes@[i]).onset_ms + notes@[i].duration_ms
                    == after.position_at(later_ms)
        },
        after.capture_generation == (before.capture_generation + 1) % 0x1_0000_0000_0000_0000,
        after.generation_revision == (before.generation_revision + 1) % 0x1_0000_0000_0000_0000,
        !after.input_active,
        after.last_input_ms == now_ms,
{
    latest_end_is_the_maximum(notes@);
    if notes@.len() > 0 {
        let k = choose|i: int|
            0 <= i < notes@.len() && (#[trigger] notes@[i]).end() == latest_end(notes@);
        assert(notes@[k].onset_ms + notes@[k].duration_ms == after.position_at(later_ms));
    }
    assert forall|i: int| 0 <= i < notes@.len() implies (#[trigger] notes@[i]).onset_ms
        + notes@[i].duration_ms <= after.position_at(later_ms) by {
        assert(notes@[i].end() <= latest_end(notes@));
    }
}

/// Clearing the timeline removes the notes and moves the position back to zero. Recording that is
/// on goes on from there; the devices and the status stay as they are.
pub proof fn clearing_starts_anew(before: Shared, after: Shared, now_ms: u64, later_ms: u64)
    requires
        before.cleared(now_ms, after),
        now_ms <= later_ms,
    ensures
        after.notes@.len() == 0,
        after.status == before.status,
        after.connected == before.connected,
        after.capturing == before.capturing,
        after.position_at(later_ms) == if before.capturing {
            later_ms - now_ms
        } else {
            0
        },
        after.capture_generation == (before.capture_generation + 1) % 0x1_0000_0000_0000_0000,
        after.generation_revision == (before.generation_revision + 1) % 0x1_0000_0000_0000_0000,
        !after.input_active,
        after.last_input_ms == now_ms,
{
}

} // verus!
