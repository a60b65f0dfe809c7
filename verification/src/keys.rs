//! Keys that are held down, and the notes that they become when they are let go.

use crate::state::Note;
use vstd::prelude::*;

verus! {

/// A key that sounds. `released` marks one that only the sustain pedal still holds.
#[derive(Clone, Copy, Debug, PartialEq, Eq, Structural)]
pub struct HeldNote {
    pub onset_ms: u64,
    pub velocity: u8,
    pub released: bool,
}

/// The note that a held key becomes when it stops sounding at `end_ms`. It lasts at least a
/// millisecond.
pub open spec fn finished_note(pitch: u8, held: HeldNote, end_ms: u64) -> Note {
    Note {
        pitch,
        onset_ms: held.onset_ms,
        duration_ms: if end_ms > held.onset_ms { (end_ms - held.onset_ms) as u64 } else { 1 },
        velocity: held.velocity,
        generated: false,
    }
}

/// The held keys of one or more channels, 128 of each, and the notes that are complete.
#[verifier::ext_equal]
pub struct Keys {
    pub held: Seq<Option<HeldNote>>,
    pub notes: Seq<Note>,
}

impl Keys {
    /// The key stops sounding: if it was held, its note is complete.
    pub open spec fn finish(self, index: int, end_ms: u64) -> Keys {
        match self.held[index] {
            Some(note) => Keys {
                held: self.held.update(index, None),
                notes: self.notes.push(finished_note((index % 128) as u8, note, end_ms)),
            },
            None => self,
        }
    }

    /// The key is struck: it stops sounding as it did, and starts anew.
    pub open spec fn press(self, index: int, velocity: u8, now_ms: u64) -> Keys {
        let stopped = self.finish(index, now_ms);
        Keys {
            held: stopped.held.update(
                index,
                Some(HeldNote { onset_ms: now_ms, velocity, released: false }),
            ),
            notes: stopped.notes,
        }
    }

    /// The key is let go: it stops sounding, unless the pedal sustains it.
    pub open spec fn release(self, index: int, sustained: bool, now_ms: u64) -> Keys {
        if !sustained {
            self.finish(index, now_ms)
        } else {
            match self.held[index] {
                Some(note) => Keys {
                    held: self.held.update(index, Some(HeldNote { released: true, ..note })),
                    notes: self.notes,
                },
                None => self,
            }
        }
    }

    /// Some key is held down or sustained.
    pub open spec fn sounds(self) -> bool {
        exists|i: int| 0 <= i < self.held.len() && (#[trigger] self.held[i]) is Some
    }

    /// Whether only the pedal holds the key.
    pub open spec fn is_sustained(self, index: int) -> bool {
        self.held[index] is Some && self.held[index]->0.released
    }

    /// The pedal no longer sustains the first `count` keys from `base` on: of those, the ones
    /// that were let go stop sounding, in ascending order.
    pub open spec fn lift_pedal(self, base: int, count: int, now_ms: u64) -> Keys
        decreases count,
    {
        if count <= 0 {
            self
        } else {
            let lower = self.lift_pedal(base, count - 1, now_ms);
            if lower.is_sustained(base + count - 1) {
                lower.finish(base + count - 1, now_ms)
            } else {
                lower
            }
        }
    }

    /// The first `count` keys stop sounding, in ascending order.
    pub open spec fn finish_all(self, count: int, end_ms: u64) -> Keys
        decreases count,
    {
        if count <= 0 {
            self
        } else {
            self.finish_all(count - 1, end_ms).finish(count - 1, end_ms)
        }
    }
}

/// What a vector of held keys and one of notes hold.
pub open spec fn keys_of(held: Seq<Option<HeldNote>>, notes: Seq<Note>) -> Keys {
    Keys { held, notes }
}

/// Lifting the pedal silences exactly the keys that only the pedal held, and leaves every
/// other key as it was.
pub proof fn lift_pedal_keeps_pressed_keys(keys: Keys, base: int, count: int, now_ms: u64)
    requires
        0 <= base,
        0 <= count,
        base + count <= keys.held.len(),
    ensures
        ({
            let after = keys.lift_pedal(base, count, now_ms);
            &&& after.held.len() == keys.held.len()
            &&& forall|i: int|
                0 <= i < keys.held.len() ==> (#[trigger] after.held[i]) == if base <= i < base
                    + count && keys.is_sustained(i) {
                    None
                } else {
                    keys.held[i]
                }
        }),
    decreases count,
{
    if count > 0 {
        lift_pedal_keeps_pressed_keys(keys, base, count - 1, now_ms);
    }
}

/// After all keys stopped sounding none is held.
pub proof fn finish_all_leaves_nothing_held(keys: Keys, count: int, end_ms: u64)
    requires
        0 <= count <= keys.held.len(),
    ensures
        ({
            let after = keys.finish_all(count, end_ms);
            &&& after.held.len() == keys.held.len()
            &&& forall|i: int|
                0 <= i < keys.held.len() ==> (#[trigger] after.held[i]) == if i < count {
                    None
                } else {
                    keys.held[i]
                }
        }),
    decreases count,
{
    if count > 0 {
        finish_all_leaves_nothing_held(keys, count - 1, end_ms);
    }
}

/// Ends the note of the key `index`, if it is held.
pub fn finish_note(
    index: usize,
    end_ms: u64,
    held: &mut Vec<Option<HeldNote>>,
    notes: &mut Vec<Note>,
)
    requires
        index < old(held)@.len(),
    ensures
        keys_of(final(held)@, final(notes)@) == keys_of(old(held)@, old(notes)@).finish(
            index as int,
            end_ms,
        ),
        final(held)@.len() == old(held)@.len(),
{
    if let Some(note) = held[index] {
        held.set(index, None);
        let elapsed = end_ms.saturating_sub(note.onset_ms);
        notes.push(
            Note {
                pitch: (index % 128) as u8,
                onset_ms: note.onset_ms,
                duration_ms: if elapsed > 1 { elapsed } else { 1 },
                velocity: note.velocity,
                generated: false,
            },
        );
    }
}

/// Strikes the key `index`.
pub fn press_key(
    index: usize,
    velocity: u8,
    now_ms: u64,
    held: &mut Vec<Option<HeldNote>>,
    notes: &mut Vec<Note>,
)
    requires
        index < old(held)@.len(),
    ensures
        keys_of(final(held)@, final(notes)@) == keys_of(old(held)@, old(notes)@).press(
            index as int,
            velocity,
            now_ms,
        ),
        final(held)@.len() == old(held)@.len(),
{
    finish_note(index, now_ms, held, notes);
    held.set(index, Some(HeldNote { onset_ms: now_ms, velocity, released: false }));
}

/// Lets the key `index` go.
pub fn release_key(
    index: usize,
    sustained: bool,
    now_ms: u64,
    held: &mut Vec<Option<HeldNote>>,
    notes: &mut Vec<Note>,
)
    requires
        index < old(held)@.len(),
    ensures
        keys_of(final(held)@, final(notes)@) == keys_of(old(held)@, old(notes)@).release(
            index as int,
            sustained,
            now_ms,
        ),
        final(held)@.len() == old(held)@.len(),
{
    if sustained {
        if let Some(note) = held[index] {
            held.set(
                index,
                Some(
                    HeldNote { onset_ms: note.onset_ms, velocity: note.velocity, released: true },
                ),
            );
        }
    } else {
        finish_note(index, now_ms, held, notes);
    }
}

/// Ends the notes of all 128 keys from `base` on that only the pedal holds.
pub fn lift_pedal(
    base: usize,
    now_ms: u64,
    held: &mut Vec<Option<HeldNote>>,
    notes: &mut Vec<Note>,
)
    requires
        base + 128 <= old(held)@.len(),
    ensures
        keys_of(final(held)@, final(notes)@) == keys_of(old(held)@, old(notes)@).lift_pedal(
            base as int,
            128,
            now_ms,
        ),
        final(held)@.len() == old(held)@.len(),
{
    let ghost before = keys_of(held@, notes@);
    let count = held.len();
    let mut pitch: usize = 0;
    while pitch < 128
        invariant
            pitch <= 128,
            base + 128 <= count,
            count == held@.len(),
            held@.len() == old(held)@.len(),
            keys_of(held@, notes@) == before.lift_pedal(base as int, pitch as int, now_ms),
        decreases 128 - pitch,
    {
        let sustained = match held[base + pitch] {
            Some(note) => note.released,
            None => false,
        };
        if sustained {
            finish_note(base + pitch, now_ms, held, notes);
        }
        pitch = pitch + 1;
    }
}

/// The notes that `lift_pedal` completes come behind the others, and each key that only the
/// pedal held is among them.
proof fn lift_pedal_completes(keys: Keys, base: int, count: int, now_ms: u64, index: int)
    requires
        0 <= base,
        0 <= count,
        base + count <= keys.held.len(),
        base <= index < base + count,
        keys.is_sustained(index),
    ensures
        keys.lift_pedal(base, count, now_ms).notes.contains(
            finished_note((index % 128) as u8, keys.held[index]->0, now_ms),
        ),
    decreases count,
{
    let note = finished_note((index % 128) as u8, keys.held[index]->0, now_ms);
    let last = base + count - 1;
    let lower = keys.lift_pedal(base, count - 1, now_ms);
    let after = keys.lift_pedal(base, count, now_ms);
    lift_pedal_keeps_pressed_keys(keys, base, count - 1, now_ms);
    if index < last {
        lift_pedal_completes(keys, base, count - 1, now_ms, index);
        let k = choose|k: int| 0 <= k < lower.notes.len() && lower.notes[k] == note;
        assert(after.notes[k] == note);
    } else {
        assert(lower.held[index] == keys.held[index]);
        assert(after.notes[lower.notes.len() as int] == note);
    }
}

/// A key that is let go while the pedal is down goes on sounding, and its note lasts until the
/// pedal is lifted.
pub proof fn sustain_is_part_of_the_note(
    keys: Keys,
    base: int,
    index: int,
    let_go_ms: u64,
    lift_ms: u64,
)
    requires
        0 <= base,
        base + 128 <= keys.held.len(),
        base <= index < base + 128,
        keys.held[index] is Some,
    ensures
        ({
            let let_go = keys.release(index, true, let_go_ms);
            let lifted = let_go.lift_pedal(base, 128, lift_ms);
            &&& let_go.notes == keys.notes
            &&& let_go.held[index] is Some
            &&& lifted.held[index] is None
            &&& lifted.notes.contains(
                finished_note((index % 128) as u8, keys.held[index]->0, lift_ms),
            )
        }),
{
    let let_go = keys.release(index, true, let_go_ms);
    lift_pedal_keeps_pressed_keys(let_go, base, 128, lift_ms);
    lift_pedal_completes(let_go, base, 128, lift_ms, index);
    assert(finished_note((index % 128) as u8, let_go.held[index]->0, lift_ms) == finished_note(
        (index % 128) as u8,
        keys.held[index]->0,
        lift_ms,
    ));
}

/// A key that is let go while the pedal is up is a complete note, with the velocity that it was
/// struck with and the time that it was held.
pub proof fn striking_and_letting_go_makes_a_note(
    keys: Keys,
    index: int,
    velocity: u8,
    strike_ms: u64,
    let_go_ms: u64,
)
    requires
        0 <= index < keys.held.len(),
        keys.held[index] is None,
    ensures
        keys.press(index, velocity, strike_ms).release(index, false, let_go_ms) == (Keys {
            held: keys.held,
            notes: keys.notes.push(
                Note {
                    pitch: (index % 128) as u8,
                    onset_ms: strike_ms,
                    duration_ms: if let_go_ms > strike_ms {
                        (let_go_ms - strike_ms) as u64
                    } else {
                        1
                    },
                    velocity,
                    generated: false,
                },
            ),
        }),
{
    let after = keys.press(index, velocity, strike_ms).release(index, false, let_go_ms);
    assert(after.held =~= keys.held);
}

/// A note that was played: it lasts at least a millisecond, and its pitch and velocity are
/// those of a key that was struck.
pub open spec fn is_played(note: Note) -> bool {
    &&& !note.generated
    &&& note.duration_ms >= 1
    &&& note.pitch < 128
    &&& 1 <= note.velocity <= 127
}

/// Every held key was struck.
pub open spec fn all_struck(held: Seq<Option<HeldNote>>) -> bool {
    forall|i: int|
        0 <= i < held.len() ==> ((#[trigger] held[i]) matches Some(note) ==> 1 <= note.velocity
            <= 127)
}

/// `after` holds the notes of `before` unchanged and behind them only played ones.
pub open spec fn adds_played_notes(before: Keys, after: Keys) -> bool {
    &&& after.held.len() == before.held.len()
    &&& all_struck(after.held)
    &&& before.notes.len() <= after.notes.len()
    &&& forall|i: int|
        0 <= i < before.notes.len() ==> (#[trigger] after.notes[i]) == before.notes[i]
    &&& forall|i: int|
        before.notes.len() <= i < after.notes.len() ==> is_played(#[trigger] after.notes[i])
}

/// Ending, striking and letting go keys adds only played notes.
pub proof fn keys_add_played_notes(
    keys: Keys,
    index: int,
    velocity: u8,
    sustained: bool,
    now_ms: u64,
)
    requires
        all_struck(keys.held),
        0 <= index < keys.held.len(),
        1 <= velocity <= 127,
    ensures
        adds_played_notes(keys, keys.finish(index, now_ms)),
        adds_played_notes(keys, keys.press(index, velocity, now_ms)),
        adds_played_notes(keys, keys.release(index, sustained, now_ms)),
{
    let finished = keys.finish(index, now_ms);
    assert(finished.held.len() == keys.held.len());
    assert(all_struck(finished.held));
    assert(all_struck(keys.press(index, velocity, now_ms).held));
    assert(all_struck(keys.release(index, sustained, now_ms).held));
}

/// Lifting the pedal adds only played notes.
pub proof fn lift_pedal_adds_played_notes(keys: Keys, base: int, count: int, now_ms: u64)
    requires
        all_struck(keys.held),
        0 <= base,
        0 <= count,
        base + count <= keys.held.len(),
    ensures
        adds_played_notes(keys, keys.lift_pedal(base, count, now_ms)),
    decreases count,
{
    if count > 0 {
        lift_pedal_adds_played_notes(keys, base, count - 1, now_ms);
        let lower = keys.lift_pedal(base, count - 1, now_ms);
        keys_add_played_notes(lower, base + count - 1, 1, false, now_ms);
    }
}

/// Ending all keys adds only played notes.
pub proof fn finish_all_adds_played_notes(keys: Keys, count: int, end_ms: u64)
    requires
        all_struck(keys.held),
        0 <= count <= keys.held.len(),
    ensures
        adds_played_notes(keys, keys.finish_all(count, end_ms)),
    decreases count,
{
    if count > 0 {
        finish_all_adds_played_notes(keys, count - 1, end_ms);
        let lower = keys.finish_all(count - 1, end_ms);
        keys_add_played_notes(lower, count - 1, 1, false, end_ms);
    }
}

/// How many keys are held.
pub open spec fn held_count(held: Seq<Option<HeldNote>>) -> nat
    decreases held.len(),
{
    if held.len() == 0 {
        0
    } else {
        held_count(held.drop_last()) + if held.last() is Some { 1nat } else { 0nat }
    }
}

impl Keys {
    /// The notes that are complete and those that still sound.
    pub open spec fn struck(self) -> nat {
        self.notes.len() + held_count(self.held)
    }
}

proof fn held_count_after_update(held: Seq<Option<HeldNote>>, index: int, key: Option<HeldNote>)
    requires
        0 <= index < held.len(),
    ensures
        held_count(held.update(index, key)) + (if held[index] is Some { 1int } else { 0 })
            == held_count(held) + (if key is Some { 1int } else { 0 }),
    decreases held.len(),
{
    let rest = held.drop_last();
    if index < rest.len() {
        held_count_after_update(rest, index, key);
        assert(held.update(index, key).drop_last() =~= rest.update(index, key));
    } else {
        assert(held.update(index, key).drop_last() =~= rest);
    }
}

/// No note is lost and none is made up: striking a key adds one, and letting keys go, with or
/// without the pedal, only completes those that sound.
pub proof fn every_strike_is_one_note(
    keys: Keys,
    index: int,
    velocity: u8,
    sustained: bool,
    now_ms: u64,
)
    requires
        0 <= index < keys.held.len(),
    ensures
        keys.press(index, velocity, now_ms).struck() == keys.struck() + 1,
        keys.release(index, sustained, now_ms).struck() == keys.struck(),
        keys.finish(index, now_ms).struck() == keys.struck(),
{
    let stopped = keys.finish(index, now_ms);
    held_count_after_update(keys.held, index, None);
    held_count_after_update(
        stopped.held,
        index,
        Some(HeldNote { onset_ms: now_ms, velocity, released: false }),
    );
    if let Some(note) = keys.held[index] {
        held_count_after_update(keys.held, index, Some(HeldNote { released: true, ..note }));
    }
}

/// Lifting the pedal loses no note and makes none up.
pub proof fn lifting_the_pedal_loses_no_note(keys: Keys, base: int, count: int, now_ms: u64)
    requires
        0 <= base,
        0 <= count,
        base + count <= keys.held.len(),
    ensures
        keys.lift_pedal(base, count, now_ms).struck() == keys.struck(),
    decreases count,
{
    if count > 0 {
        lifting_the_pedal_loses_no_note(keys, base, count - 1, now_ms);
        lift_pedal_keeps_pressed_keys(keys, base, count - 1, now_ms);
        let lower = keys.lift_pedal(base, count - 1, now_ms);
        every_strike_is_one_note(lower, base + count - 1, 1, false, now_ms);
    }
}

/// Ending the first `count` keys loses no note and makes none up.
pub proof fn ending_keys_loses_no_note(keys: Keys, count: int, end_ms: u64)
    requires
        0 <= count <= keys.held.len(),
    ensures
        keys.finish_all(count, end_ms).struck() == keys.struck(),
    decreases count,
{
    if count > 0 {
        ending_keys_loses_no_note(keys, count - 1, end_ms);
        finish_all_leaves_nothing_held(keys, count - 1, end_ms);
        let lower = keys.finish_all(count - 1, end_ms);
        every_strike_is_one_note(lower, count - 1, 1, false, end_ms);
    }
}

/// A struck key counts as held down, whatever state it was in. Lifting the pedal before it is let
/// go leaves it sounding, and its note then lasts from the strike until it is let go. Let go while
/// the pedal is down, it lasts from the strike until the pedal is lifted.
pub proof fn a_struck_key_is_held_down(
    keys: Keys,
    base: int,
    index: int,
    velocity: u8,
    strike_ms: u64,
    lift_ms: u64,
    let_go_ms: u64,
)
    requires
        0 <= base <= index < base + 128 <= keys.held.len(),
        strike_ms < lift_ms,
        strike_ms < let_go_ms,
    ensures
        ({
            let struck = keys.press(index, velocity, strike_ms);
            let lifted = struck.lift_pedal(base, 128, lift_ms);
            let note = Note {
                pitch: (index % 128) as u8,
                onset_ms: strike_ms,
                duration_ms: (let_go_ms - strike_ms) as u64,
                velocity,
                generated: false,
            };
            &&& struck.held[index] is Some
            &&& lifted.held[index] == struck.held[index]
            &&& lifted.release(index, false, let_go_ms).held[index] is None
            &&& lifted.release(index, false, let_go_ms).notes == lifted.notes.push(note)
            &&& struck.release(index, false, let_go_ms).notes == struck.notes.push(note)
            &&& struck.release(index, true, let_go_ms).held[index] is Some
            &&& struck.release(index, true, let_go_ms).notes == struck.notes
            &&& struck.release(index, true, let_go_ms).lift_pedal(
                base,
                128,
                lift_ms,
            ).held[index] is None
            &&& struck.release(index, true, let_go_ms).lift_pedal(
                base,
                128,
                lift_ms,
            ).notes.contains(Note { duration_ms: (lift_ms - strike_ms) as u64, ..note })
        }),
{
    let struck = keys.press(index, velocity, strike_ms);
    let sustained = struck.release(index, true, let_go_ms);
    lift_pedal_keeps_pressed_keys(struck, base, 128, lift_ms);
    lift_pedal_keeps_pressed_keys(sustained, base, 128, lift_ms);
    lift_pedal_completes(sustained, base, 128, lift_ms, index);
}

} // verus!
