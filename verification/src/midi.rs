//! Capturing notes from a live MIDI input.

use crate::keys::{
    adds_played_notes, all_struck, finish_note, keys_add_played_notes, keys_of, lift_pedal,
    lift_pedal_adds_played_notes, lift_pedal_keeps_pressed_keys, press_key, release_key, HeldNote,
    Keys,
};
use crate::performance::{
    completed_notes, first_of, follows, holds_what_sounds, key_struck, letting_go_follows,
    lists_completed, pedal_is_down, pedal_of_prefix, pedalling_follows, silence_follows,
    sounds_of_prefix, sounds_until, striking_follows, waiting_follows, Gesture, Moment,
};
use crate::state::{Note, Shared};
use vstd::prelude::*;

verus! {

/// The number of the sustain pedal among the controllers.
pub const SUSTAIN_PEDAL: u8 = 64;

/// What is known of the keys of the input device. All its channels count as one.
pub struct Capture {
    pub held: Vec<Option<HeldNote>>,
    pub sustain: bool,
}

/// A message that speaks of a key that exists: its key number fits in seven bits.
pub open spec fn keys_in_range(message: Seq<u8>) -> bool {
    message.len() >= 3 && (message[0] / 16 == 8 || message[0] / 16 == 9) ==> message[1] < 128
}

/// Whether [`keys_in_range`] holds.
pub fn check_keys(message: &[u8]) -> (in_range: bool)
    ensures
        in_range == keys_in_range(message@),
        in_range <==> !(message@.len() >= 3 && 0x80 <= message@[0] <= 0x9f && message@[1] >= 128),
{
    !(message.len() >= 3 && (message[0] / 16 == 8 || message[0] / 16 == 9)) || message[1] < 128
}

/// The notes and keys, and whether the pedal is down, after a message.
#[verifier::ext_equal]
pub struct Captured {
    pub keys: Keys,
    pub sustain: bool,
}

impl Captured {
    /// What `message` does at the musical position `now_ms`: a note-on strikes a key, a
    /// note-off or a silent note-on lets it go, and controller 64 moves the pedal. Anything
    /// else, or a message that is too short, changes nothing.
    pub open spec fn receive(self, message: Seq<u8>, now_ms: u64) -> Captured {
        if message.len() < 3 {
            self
        } else {
            let status = message[0] / 16;
            if status == 9 && message[2] > 0 {
                Captured { keys: self.keys.press(message[1] as int, message[2], now_ms), ..self }
            } else if status == 8 || status == 9 {
                Captured {
                    keys: self.keys.release(message[1] as int, self.sustain, now_ms),
                    ..self
                }
            } else if status == 11 && message[1] == SUSTAIN_PEDAL {
                let down = message[2] >= 64;
                Captured {
                    keys: if self.sustain && !down {
                        self.keys.lift_pedal(0, 128, now_ms)
                    } else {
                        self.keys
                    },
                    sustain: down,
                }
            } else {
                self
            }
        }
    }
}

impl Capture {
    /// There are 128 keys.
    pub open spec fn wf(self) -> bool {
        self.held@.len() == 128
    }

    /// The state of the keys next to the notes on the timeline.
    pub open spec fn with_notes(self, notes: Seq<Note>) -> Captured {
        Captured { keys: keys_of(self.held@, notes), sustain: self.sustain }
    }

    /// No key is held and the pedal is up.
    pub fn new() -> (capture: Self)
        ensures
            capture.wf(),
            capture.held@ == Seq::new(128, |i: int| None::<HeldNote>),
            !capture.sustain,
    {
        let mut held: Vec<Option<HeldNote>> = Vec::new();
        let mut i: usize = 0;
        while i < 128
            invariant
                i <= 128,
                held@ == Seq::new(i as nat, |i: int| None::<HeldNote>),
            decreases 128 - i,
        {
            held.push(None);
            assert(held@ =~= Seq::new((i + 1) as nat, |i: int| None::<HeldNote>));
            i = i + 1;
        }
        Capture { held, sustain: false }
    }

    /// Ends the note of a key, if it is held.
    pub fn finish(&mut self, pitch: u8, end_ms: u64, shared: &mut Shared)
        requires
            old(self).wf(),
            pitch < 128,
        ensures
            final(self).wf(),
            final(self).sustain == old(self).sustain,
            keys_of(final(self).held@, final(shared).notes@) == keys_of(
                old(self).held@,
                old(shared).notes@,
            ).finish(pitch as int, end_ms),
            *final(shared) == (Shared { notes: final(shared).notes, ..*old(shared) }),
    {
        finish_note(pitch as usize, end_ms, &mut self.held, &mut shared.notes);
    }

    /// Takes in one message of the input device at the musical position `now_ms`.
    pub fn receive(&mut self, message: &[u8], now_ms: u64, shared: &mut Shared)
        requires
            old(self).wf(),
            keys_in_range(message@),
        ensures
            final(self).wf(),
            final(self).with_notes(final(shared).notes@) == old(self).with_notes(
                old(shared).notes@,
            ).receive(message@, now_ms),
            *final(shared) == (Shared { notes: final(shared).notes, ..*old(shared) }),
    {
        if message.len() < 3 {
            return ;
        }
        let status = message[0] / 16;
        if status == 9 && message[2] > 0 {
            press_key(
                message[1] as usize,
                message[2],
                now_ms,
                &mut self.held,
                &mut shared.notes,
            );
        } else if status == 8 || status == 9 {
            release_key(
                message[1] as usize,
                self.sustain,
                now_ms,
                &mut self.held,
                &mut shared.notes,
            );
        } else if status == 11 && message[1] == SUSTAIN_PEDAL {
            let was_down = self.sustain;
            self.sustain = message[2] >= 64;
            if was_down && !self.sustain {
                lift_pedal(0, now_ms, &mut self.held, &mut shared.notes);
            }
        }
    }

    /// Whether some key is held down or sustained.
    pub fn is_sounding(&self) -> (sounding: bool)
        ensures
            forall|notes: Seq<Note>| #[trigger]
                keys_of(self.held@, notes).sounds() == sounding,
    {
        let mut i: usize = 0;
        while i < self.held.len()
            invariant
                i <= self.held.len(),
                forall|k: int| 0 <= k < i ==> (#[trigger] self.held@[k]) is None,
            decreases self.held.len() - i,
        {
            if self.held[i].is_some() {
                assert forall|notes: Seq<Note>| #[trigger] keys_of(self.held@, notes).sounds() by {
                    assert(keys_of(self.held@, notes).held[i as int] is Some);
                }
                return true;
            }
            i = i + 1;
        }
        false
    }
}

/// Nothing is held and the pedal is up.
pub open spec fn untouched(notes: Seq<Note>) -> Captured {
    Captured {
        keys: keys_of(Seq::new(128, |i: int| None::<HeldNote>), notes),
        sustain: false,
    }
}

/// The keys together with how long they have been silent: whether a note is pressed or
/// sustained, and the last moment at which one was seen to be.
#[verifier::ext_equal]
pub struct Activity {
    pub captured: Captured,
    pub active: bool,
    pub last_ms: u64,
}

impl Activity {
    /// What is known after a message that comes in at wall time `now_ms`, at the musical
    /// position `position_ms`.
    pub open spec fn receive(self, message: Seq<u8>, position_ms: u64, now_ms: u64) -> Activity {
        let captured = self.captured.receive(message, position_ms);
        Activity {
            captured,
            active: captured.keys.sounds(),
            last_ms: if self.captured.keys.sounds() || captured.keys.sounds() {
                now_ms
            } else {
                self.last_ms
            },
        }
    }
}

/// A message of an input device: when it came in, at which musical position, and its bytes.
pub struct Arrival {
    pub now_ms: u64,
    pub position_ms: u64,
    pub message: Seq<u8>,
}

/// What is known after a run of messages.
pub open spec fn after_arrivals(start: Activity, arrivals: Seq<Arrival>) -> Activity
    decreases arrivals.len(),
{
    if arrivals.len() == 0 {
        start
    } else {
        let last = arrivals.last();
        after_arrivals(start, arrivals.drop_last()).receive(
            last.message,
            last.position_ms,
            last.now_ms,
        )
    }
}

/// Messages come in one after the other.
pub open spec fn in_order(arrivals: Seq<Arrival>) -> bool {
    forall|i: int, k: int|
        #![trigger arrivals[i], arrivals[k]]
        0 <= i <= k < arrivals.len() ==> arrivals[i].now_ms <= arrivals[k].now_ms
}

/// Silence is counted from the last sound: a note that sounded until a message came in sounded
/// no later than the moment that is remembered.
pub proof fn silence_counts_from_the_last_sound(start: Activity, arrivals: Seq<Arrival>, k: int)
    requires
        in_order(arrivals),
        0 <= k < arrivals.len(),
        after_arrivals(start, arrivals.take(k)).captured.keys.sounds(),
    ensures
        arrivals[k].now_ms <= after_arrivals(start, arrivals).last_ms,
        after_arrivals(start, arrivals).active == after_arrivals(
            start,
            arrivals,
        ).captured.keys.sounds(),
    decreases arrivals.len(),
{
    let last = arrivals.len() - 1;
    let rest = arrivals.drop_last();
    assert(arrivals[k].now_ms <= arrivals[last].now_ms);
    if k == last {
        assert(arrivals.take(k) =~= rest);
    } else {
        assert(in_order(rest)) by {
            assert forall|i: int, j: int|
                #![trigger rest[i], rest[j]]
                0 <= i <= j < rest.len() implies rest[i].now_ms <= rest[j].now_ms by {
                assert(rest[i] == arrivals[i] && rest[j] == arrivals[j]);
            }
        }
        assert(rest.take(k) =~= arrivals.take(k));
        silence_counts_from_the_last_sound(start, rest, k);
        assert(rest[k] == arrivals[k]);
    }
}

/// An open input device. Its keys belong to one run of recording, which
/// `capture_generation` names; when recording has moved on, they are forgotten.
pub struct InputSession {
    pub capture: Capture,
    pub capture_generation: u64,
}

impl InputSession {
    pub open spec fn wf(self) -> bool {
        self.capture.wf()
    }

    /// The keys as they stand before the next message.
    pub open spec fn current(self, shared: Shared) -> Captured {
        if self.capture_generation == shared.capture_generation {
            self.capture.with_notes(shared.notes@)
        } else {
            untouched(shared.notes@)
        }
    }

    /// What is known of the input as it stands before the next message.
    pub open spec fn current_activity(self, shared: Shared) -> Activity {
        Activity {
            captured: self.current(shared),
            active: shared.input_active,
            last_ms: shared.last_input_ms,
        }
    }

    /// What is known of the input.
    pub open spec fn activity(self, shared: Shared) -> Activity {
        Activity {
            captured: self.capture.with_notes(shared.notes@),
            active: shared.input_active,
            last_ms: shared.last_input_ms,
        }
    }

    pub fn new() -> (session: Self)
        ensures
            session.wf(),
            session.capture.with_notes(Seq::empty()) == untouched(Seq::empty()),
            session.capture_generation == 0,
    {
        InputSession { capture: Capture::new(), capture_generation: 0 }
    }

    /// Takes in one message of the input device at wall time `now_ms`. It counts only while
    /// recording, at the musical position of that moment.
    pub fn receive(&mut self, message: &[u8], now_ms: u64, shared: &mut Shared)
        requires
            old(self).wf(),
            old(shared).capturing ==> keys_in_range(message@) && old(shared).position_at(now_ms)
                <= u64::MAX,
        ensures
            final(self).wf(),
            final(self).capture_generation == old(shared).capture_generation,
            final(self).activity(*final(shared)) == if old(shared).capturing {
                old(self).current_activity(*old(shared)).receive(
                    message@,
                    old(shared).position_at(now_ms) as u64,
                    now_ms,
                )
            } else {
                old(self).current_activity(*old(shared))
            },
            *final(shared) == (Shared {
                notes: final(shared).notes,
                input_active: final(shared).input_active,
                last_input_ms: final(shared).last_input_ms,
                ..*old(shared)
            }),
    {
        if shared.capture_generation != self.capture_generation {
            self.capture = Capture::new();
            self.capture_generation = shared.capture_generation;
        }
        if shared.capturing {
            let position = shared.capture_position(now_ms);
            let was_sounding = self.capture.is_sounding();
            assert(was_sounding == keys_of(self.capture.held@, shared.notes@).sounds());
            self.capture.receive(message, position, shared);
            shared.input_active = self.capture.is_sounding();
            assert(shared.input_active == keys_of(self.capture.held@, shared.notes@).sounds());
            if was_sounding || shared.input_active {
                shared.last_input_ms = now_ms;
            }
        }
    }
}

/// The messages that silence an output: all sound off, then all notes off.
pub fn silence_messages() -> (messages: [[u8; 3]; 2])
    ensures
        messages[0]@ == seq![0xb0u8, 120, 0],
        messages[1]@ == seq![0xb0u8, 123, 0],
{
    [[0xb0, 120, 0], [0xb0, 123, 0]]
}

/// The message that starts or ends a note on the first channel.
pub fn note_message(on: bool, pitch: u8, velocity: u8) -> (message: [u8; 3])
    ensures
        message@ == seq![if on { 0x90u8 } else { 0x80u8 }, pitch, velocity],
{
    [if on { 0x90 } else { 0x80 }, pitch, velocity]
}

/// A message of an input device never changes the notes that are there, and adds only played
/// ones.
pub proof fn receiving_adds_played_notes(before: Captured, message: Seq<u8>, now_ms: u64)
    requires
        before.keys.held.len() == 128,
        all_struck(before.keys.held),
        forall|i: int| 1 <= i < message.len() ==> (#[trigger] message[i]) < 128,
    ensures
        adds_played_notes(before.keys, before.receive(message, now_ms).keys),
{
    if message.len() >= 3 {
        assert(message[1] < 128 && message[2] < 128);
        let velocity: u8 = if message[2] > 0 { message[2] } else { 1 };
        keys_add_played_notes(
            before.keys,
            message[1] as int,
            velocity,
            before.sustain,
            now_ms,
        );
        lift_pedal_adds_played_notes(before.keys, 0, 128, now_ms);
    }
}

/// What a message of an input device does. All channels count as one.
pub open spec fn gesture_of(message: Seq<u8>) -> Gesture {
    if message.len() < 3 {
        Gesture::Nothing
    } else if 0x90 <= message[0] <= 0x9f && message[2] != 0 {
        Gesture::Strike { key: message[1] as int, velocity: message[2] }
    } else if 0x80 <= message[0] <= 0x9f {
        Gesture::LetGo { key: message[1] as int }
    } else if 0xb0 <= message[0] <= 0xbf && message[1] == 64 {
        Gesture::Pedal { first: 0, down: message[2] >= 64 }
    } else {
        Gesture::Nothing
    }
}

/// The performance on an input device, at musical positions.
pub open spec fn performed(arrivals: Seq<Arrival>) -> Seq<Moment> {
    Seq::new(
        arrivals.len(),
        |i: int|
            Moment {
                gesture: gesture_of(arrivals[i].message),
                at_ms: arrivals[i].position_ms,
            },
    )
}

/// Messages that name a key name one of 128.
pub open spec fn name_keys(arrivals: Seq<Arrival>) -> bool {
    forall|i: int|
        0 <= i < arrivals.len() && (#[trigger] arrivals[i]).message.len() >= 3 && 0x80
            <= arrivals[i].message[0] <= 0x9f ==> arrivals[i].message[1] < 128
}

/// Something sounds before the moment `j`.
pub open spec fn something_sounds(moments: Seq<Moment>, j: int) -> bool {
    exists|i: int| #[trigger] sounds_until(moments, i, j)
}

/// Something sounds before or after the message `k`.
pub open spec fn sounds_around(moments: Seq<Moment>, k: int) -> bool {
    something_sounds(moments, k) || something_sounds(moments, k + 1)
}

/// The last moment at which something sounded, if anything did.
pub open spec fn is_last_sound(arrivals: Seq<Arrival>, start_ms: u64, last_ms: u64) -> bool {
    let moments = performed(arrivals);
    ||| last_ms == start_ms && forall|k: int|
        0 <= k < arrivals.len() ==> !#[trigger] sounds_around(moments, k)
    ||| exists|k: int|
        {
            &&& 0 <= k < arrivals.len()
            &&& #[trigger] sounds_around(moments, k)
            &&& last_ms == arrivals[k].now_ms
            &&& forall|l: int| k < l < arrivals.len() ==> !#[trigger] sounds_around(moments, l)
        }
}

proof fn sounds_around_of_prefix(moments: Seq<Moment>, next: Moment, k: int)
    requires
        k < moments.len(),
    ensures
        sounds_around(moments.push(next), k) == sounds_around(moments, k),
{
    assert forall|i: int, j: int| j <= moments.len() implies #[trigger] sounds_until(
        moments.push(next),
        i,
        j,
    ) == sounds_until(moments, i, j) by {
        sounds_of_prefix(moments, next, i, j);
    }
    assert forall|j: int| j <= moments.len() implies #[trigger] something_sounds(
        moments.push(next),
        j,
    ) == something_sounds(moments, j) by {
        if something_sounds(moments.push(next), j) {
            let i = choose|i: int| #[trigger] sounds_until(moments.push(next), i, j);
            assert(sounds_until(moments, i, j));
        }
        if something_sounds(moments, j) {
            let i = choose|i: int| #[trigger] sounds_until(moments, i, j);
            assert(sounds_until(moments.push(next), i, j));
        }
    }
}

proof fn keys_sound_as_performed(
    moments: Seq<Moment>,
    earlier: Seq<Note>,
    keys: Keys,
    completed: Seq<(int, int)>,
)
    requires
        follows(moments, earlier, keys, completed),
    ensures
        keys.sounds() == something_sounds(moments, moments.len() as int),
{
    if keys.sounds() {
        let k = choose|k: int| 0 <= k < keys.held.len() && (#[trigger] keys.held[k]) is Some;
        assert(something_sounds(moments, moments.len() as int));
    }
    if something_sounds(moments, moments.len() as int) {
        let i = choose|i: int| #[trigger] sounds_until(moments, i, moments.len() as int);
        assert(moments[i].gesture is Strike);
        assert(keys.held[key_struck(moments, i)] is Some);
    }
}

/// The pedal before the next moment is where its last movement put it.
pub open spec fn pedal_follows(moments: Seq<Moment>, sustain: bool) -> bool {
    sustain == pedal_is_down(moments, moments.len() as int, 0)
}

proof fn receiving_follows(
    moments: Seq<Moment>,
    earlier: Seq<Note>,
    before: Captured,
    completed: Seq<(int, int)>,
    message: Seq<u8>,
    position_ms: u64,
) -> (completed_after: Seq<(int, int)>)
    requires
        follows(moments, earlier, before.keys, completed),
        pedal_follows(moments, before.sustain),
        before.keys.held.len() == 128,
        message.len() >= 3 && 0x80 <= message[0] <= 0x9f ==> message[1] < 128,
    ensures
        ({
            let longer = moments.push(
                Moment { gesture: gesture_of(message), at_ms: position_ms },
            );
            let after = before.receive(message, position_ms);
            &&& follows(longer, earlier, after.keys, completed_after)
            &&& pedal_follows(longer, after.sustain)
            &&& after.keys.held.len() == 128
        }),
{
    let next = Moment { gesture: gesture_of(message), at_ms: position_ms };
    let longer = moments.push(next);
    let n = moments.len() as int;
    assert(longer[n] == next);
    pedal_of_prefix(moments, next, n, 0);
    assert(pedal_is_down(longer, n + 1, 0) == match next.gesture {
        Gesture::Pedal { first, down } => if first == 0 {
            down
        } else {
            pedal_is_down(longer, n, 0)
        },
        _ => pedal_is_down(longer, n, 0),
    });
    match next.gesture {
        Gesture::Strike { key, velocity } => striking_follows(
            moments,
            earlier,
            before.keys,
            completed,
            key,
            velocity,
            position_ms,
        ),
        Gesture::LetGo { key } => {
            assert(first_of(key) == 0);
            letting_go_follows(moments, earlier, before.keys, completed, key, position_ms)
        },
        Gesture::Pedal { first, down } => {
            lift_pedal_keeps_pressed_keys(before.keys, 0, 128, position_ms);
            pedalling_follows(moments, earlier, before.keys, completed, first, down, position_ms)
        },
        Gesture::Nothing => waiting_follows(
            moments,
            earlier,
            before.keys,
            completed,
            position_ms,
        ),
    }
}

proof fn capture_follows(
    notes: Seq<Note>,
    active: bool,
    start_ms: u64,
    arrivals: Seq<Arrival>,
) -> (completed: Seq<(int, int)>)
    requires
        name_keys(arrivals),
    ensures
        ({
            let start = Activity { captured: untouched(notes), active, last_ms: start_ms };
            let after = after_arrivals(start, arrivals);
            &&& follows(performed(arrivals), notes, after.captured.keys, completed)
            &&& pedal_follows(performed(arrivals), after.captured.sustain)
            &&& after.captured.keys.held.len() == 128
            &&& arrivals.len() > 0 ==> after.active == after.captured.keys.sounds()
            &&& is_last_sound(arrivals, start_ms, after.last_ms)
        }),
    decreases arrivals.len(),
{
    let start = Activity { captured: untouched(notes), active, last_ms: start_ms };
    let moments = performed(arrivals);
    if arrivals.len() == 0 {
        silence_follows(notes, 128);
        assert(moments =~= Seq::empty());
        Seq::empty()
    } else {
        let rest = arrivals.drop_last();
        let last = arrivals.last();
        assert forall|i: int|
            0 <= i < rest.len() && (#[trigger] rest[i]).message.len() >= 3 && 0x80
                <= rest[i].message[0] <= 0x9f implies rest[i].message[1] < 128 by {
            assert(rest[i] == arrivals[i]);
        }
        let completed = capture_follows(notes, active, start_ms, rest);
        let before = after_arrivals(start, rest);
        let after = after_arrivals(start, arrivals);
        let earlier_moments = performed(rest);
        let next = Moment { gesture: gesture_of(last.message), at_ms: last.position_ms };
        let n = rest.len() as int;
        assert(moments =~= earlier_moments.push(next));
        assert(arrivals[n] == last);
        let completed_after = receiving_follows(
            earlier_moments,
            notes,
            before.captured,
            completed,
            last.message,
            last.position_ms,
        );
        keys_sound_as_performed(earlier_moments, notes, before.captured.keys, completed);
        keys_sound_as_performed(moments, notes, after.captured.keys, completed_after);
        assert forall|k: int| 0 <= k < n implies #[trigger] sounds_around(moments, k)
            == sounds_around(earlier_moments, k) by {
            sounds_around_of_prefix(earlier_moments, next, k);
        }
        assert(something_sounds(moments, n) == something_sounds(earlier_moments, n)) by {
            assert forall|i: int| #[trigger] sounds_until(moments, i, n) == sounds_until(
                earlier_moments,
                i,
                n,
            ) by {
                sounds_of_prefix(earlier_moments, next, i, n);
            }
            if something_sounds(moments, n) {
                let i = choose|i: int| #[trigger] sounds_until(moments, i, n);
                assert(sounds_until(earlier_moments, i, n));
            }
            if something_sounds(earlier_moments, n) {
                let i = choose|i: int| #[trigger] sounds_until(earlier_moments, i, n);
                assert(sounds_until(moments, i, n));
            }
        }
        assert(sounds_around(moments, n) == (before.captured.keys.sounds()
            || after.captured.keys.sounds()));
        if !sounds_around(moments, n) {
            assert(after.last_ms == before.last_ms);
            if !(before.last_ms == start_ms && forall|k: int|
                0 <= k < rest.len() ==> !#[trigger] sounds_around(earlier_moments, k)) {
                let k = choose|k: int|
                    {
                        &&& 0 <= k < rest.len()
                        &&& #[trigger] sounds_around(earlier_moments, k)
                        &&& before.last_ms == rest[k].now_ms
                        &&& forall|l: int|
                            k < l < rest.len() ==> !#[trigger] sounds_around(earlier_moments, l)
                    };
                assert(sounds_around(moments, k));
                assert(rest[k] == arrivals[k]);
                assert forall|l: int| k < l < arrivals.len() implies !#[trigger] sounds_around(
                    moments,
                    l,
                ) by {}
            } else {
                assert forall|k: int| 0 <= k < arrivals.len() implies !#[trigger] sounds_around(
                    moments,
                    k,
                ) by {}
            }
        }
        completed_after
    }
}

/// What an input device plays is what it sounds like: every strike that has ended is a note,
/// once, from the strike until it ends; nothing else is. A struck key counts as held down,
/// whatever state it was in: it sounds on when the pedal is lifted before it is let go, and when
/// it is let go while the pedal is down it sounds until the pedal is lifted. Silence is counted
/// from the last message around which something sounded.
pub proof fn captured_notes_are_what_was_played(
    notes: Seq<Note>,
    active: bool,
    start_ms: u64,
    arrivals: Seq<Arrival>,
) -> (completed: Seq<(int, int)>)
    requires
        name_keys(arrivals),
    ensures
        ({
            let moments = performed(arrivals);
            let start = Activity {
                captured: Captured {
                    keys: Keys { held: Seq::new(128, |i: int| None::<HeldNote>), notes },
                    sustain: false,
                },
                active,
                last_ms: start_ms,
            };
            let after = after_arrivals(start, arrivals);
            &&& lists_completed(moments, completed)
            &&& after.captured.keys.notes == notes + completed_notes(moments, completed)
            &&& holds_what_sounds(moments, after.captured.keys.held)
            &&& arrivals.len() > 0 ==> after.active == something_sounds(
                moments,
                moments.len() as int,
            )
            &&& is_last_sound(arrivals, start_ms, after.last_ms)
        }),
{
    let completed = capture_follows(notes, active, start_ms, arrivals);
    let start = Activity { captured: untouched(notes), active, last_ms: start_ms };
    let after = after_arrivals(start, arrivals);
    keys_sound_as_performed(performed(arrivals), notes, after.captured.keys, completed);
    completed
}

/// When recording has moved on, the next message finds no key held and the pedal up; else it
/// finds them as the message before left them. Either way it finds the notes on the timeline.
pub proof fn keys_belong_to_one_recording(session: InputSession, shared: Shared)
    ensures
        session.current(shared).keys.notes == shared.notes@,
        session.capture_generation == shared.capture_generation ==> {
            &&& session.current(shared).keys.held == session.capture.held@
            &&& session.current(shared).sustain == session.capture.sustain
        },
        session.capture_generation != shared.capture_generation ==> {
            &&& session.current(shared).keys.held.len() == 128
            &&& forall|k: int|
                0 <= k < 128 ==> (#[trigger] session.current(shared).keys.held[k]) is None
            &&& !session.current(shared).sustain
        },
        session.current_activity(shared).captured == session.current(shared),
        session.current_activity(shared).active == shared.input_active,
        session.current_activity(shared).last_ms == shared.last_input_ms,
        session.activity(shared).captured.keys.held == session.capture.held@,
        session.activity(shared).captured.keys.notes == shared.notes@,
        session.activity(shared).captured.sustain == session.capture.sustain,
        session.activity(shared).active == shared.input_active,
        session.activity(shared).last_ms == shared.last_input_ms,
{
}

} // verus!
