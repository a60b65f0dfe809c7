//! What a performance on keys with a sustain pedal sounds like, told by what the player does and
//! when.

use crate::keys::{
    finish_all_leaves_nothing_held, finished_note, lift_pedal_keeps_pressed_keys, HeldNote, Keys,
};
use crate::state::Note;
use vstd::prelude::*;

verus! {

/// Something that a player does. Keys are counted through all channels, 128 of each; a pedal
/// belongs to the channel whose first key is `first`.
pub enum Gesture {
    Strike { key: int, velocity: u8 },
    LetGo { key: int },
    Pedal { first: int, down: bool },
    Nothing,
}

/// A gesture and the time at which it is made.
pub struct Moment {
    pub gesture: Gesture,
    pub at_ms: u64,
}

/// The first key of the channel of a key.
pub open spec fn first_of(key: int) -> int {
    (key / 128) * 128
}

/// Whether the pedal of a channel is down before the moment `j`: its last movement put it there.
pub open spec fn pedal_is_down(moments: Seq<Moment>, j: int, channel: int) -> bool
    decreases j,
{
    if j <= 0 {
        false
    } else {
        match moments[j - 1].gesture {
            Gesture::Pedal { first, down } => if first == channel {
                down
            } else {
                pedal_is_down(moments, j - 1, channel)
            },
            _ => pedal_is_down(moments, j - 1, channel),
        }
    }
}

/// The key that is struck at the moment `i`.
pub open spec fn key_struck(moments: Seq<Moment>, i: int) -> int {
    moments[i].gesture->Strike_key
}

/// The key is let go after the moment `i` and before the moment `j`.
pub open spec fn let_go_between(moments: Seq<Moment>, key: int, i: int, j: int) -> bool {
    exists|r: int| i < r < j && (#[trigger] moments[r]).gesture == Gesture::LetGo { key }
}

/// What is struck at the moment `i`, and sounds until then, ends at the moment `j`: the key is
/// struck again, or let go while the pedal is up, or was let go before and the pedal is lifted.
pub open spec fn ends(moments: Seq<Moment>, i: int, j: int) -> bool {
    let struck = key_struck(moments, i);
    match moments[j].gesture {
        Gesture::Strike { key, .. } => key == struck,
        Gesture::LetGo { key } => key == struck && !pedal_is_down(moments, j, first_of(struck)),
        Gesture::Pedal { first, down } => {
            &&& first == first_of(struck)
            &&& !down
            &&& pedal_is_down(moments, j, first)
            &&& let_go_between(moments, struck, i, j)
        },
        Gesture::Nothing => false,
    }
}

/// What is struck at the moment `i` sounds until the moment `j`.
pub open spec fn sounds_until(moments: Seq<Moment>, i: int, j: int) -> bool {
    &&& 0 <= i < j <= moments.len()
    &&& moments[i].gesture is Strike
    &&& forall|q: int| i < q < j ==> !#[trigger] ends(moments, i, q)
}

/// What is struck at the moment `i` ends at the moment `j`.
pub open spec fn ends_first_at(moments: Seq<Moment>, i: int, j: int) -> bool {
    sounds_until(moments, i, j) && j < moments.len() && ends(moments, i, j)
}

/// The note that is struck at the moment `i` and lasts until `end_ms`, or a millisecond if that
/// is no later.
pub open spec fn note_struck(moments: Seq<Moment>, i: int, end_ms: u64) -> Note {
    Note {
        pitch: (key_struck(moments, i) % 128) as u8,
        onset_ms: moments[i].at_ms,
        duration_ms: if end_ms > moments[i].at_ms { (end_ms - moments[i].at_ms) as u64 } else { 1 },
        velocity: moments[i].gesture->Strike_velocity,
        generated: false,
    }
}

/// `completed` lists every strike that has ended, once, with the moment of its end. Earlier ends
/// come first; of those at one moment, lower keys do.
pub open spec fn lists_completed(moments: Seq<Moment>, completed: Seq<(int, int)>) -> bool {
    &&& forall|m: int|
        0 <= m < completed.len() ==> ends_first_at(
            moments,
            (#[trigger] completed[m]).0,
            completed[m].1,
        )
    &&& forall|i: int, j: int| #[trigger]
        ends_first_at(moments, i, j) ==> completed.contains((i, j))
    &&& forall|a: int, b: int|
        #![trigger completed[a], completed[b]]
        0 <= a < b < completed.len() ==> {
            ||| completed[a].1 < completed[b].1
            ||| completed[a].1 == completed[b].1 && key_struck(moments, completed[a].0)
                < key_struck(moments, completed[b].0)
        }
}

/// The notes of the strikes that have ended.
pub open spec fn completed_notes(moments: Seq<Moment>, completed: Seq<(int, int)>) -> Seq<Note> {
    Seq::new(
        completed.len(),
        |m: int| note_struck(moments, completed[m].0, moments[completed[m].1].at_ms),
    )
}

/// The held keys are the strikes that still sound. They are marked if they were let go.
pub open spec fn holds_what_sounds(moments: Seq<Moment>, held: Seq<Option<HeldNote>>) -> bool {
    &&& forall|i: int| #[trigger]
        sounds_until(moments, i, moments.len() as int) ==> held[key_struck(moments, i)] == Some(
            HeldNote {
                onset_ms: moments[i].at_ms,
                velocity: moments[i].gesture->Strike_velocity,
                released: let_go_between(
                    moments,
                    key_struck(moments, i),
                    i,
                    moments.len() as int,
                ),
            },
        )
    &&& forall|k: int|
        0 <= k < held.len() && (#[trigger] held[k]) is Some ==> exists|i: int| #[trigger]
            sounds_until(moments, i, moments.len() as int) && key_struck(moments, i) == k
}

/// All gestures are made on keys that exist.
pub open spec fn on_keys(moments: Seq<Moment>, count: nat) -> bool {
    forall|i: int|
        0 <= i < moments.len() ==> match (#[trigger] moments[i]).gesture {
            Gesture::Strike { key, .. } => 0 <= key < count,
            Gesture::LetGo { key } => 0 <= key < count,
            Gesture::Pedal { first, .. } => 0 <= first && first + 128 <= count && first % 128 == 0,
            Gesture::Nothing => true,
        }
}

/// The keys after a performance, which began with the notes `earlier` and no key held.
pub open spec fn follows(
    moments: Seq<Moment>,
    earlier: Seq<Note>,
    keys: Keys,
    completed: Seq<(int, int)>,
) -> bool {
    &&& on_keys(moments, keys.held.len())
    &&& holds_what_sounds(moments, keys.held)
    &&& lists_completed(moments, completed)
    &&& keys.notes == earlier + completed_notes(moments, completed)
}

pub(crate) proof fn pedal_of_prefix(moments: Seq<Moment>, next: Moment, j: int, channel: int)
    requires
        0 <= j <= moments.len(),
    ensures
        pedal_is_down(moments.push(next), j, channel) == pedal_is_down(moments, j, channel),
    decreases j,
{
    if j > 0 {
        pedal_of_prefix(moments, next, j - 1, channel);
    }
}

proof fn let_go_of_prefix(moments: Seq<Moment>, next: Moment, key: int, i: int, j: int)
    requires
        0 <= i,
        j <= moments.len(),
    ensures
        let_go_between(moments.push(next), key, i, j) == let_go_between(moments, key, i, j),
{
    let longer = moments.push(next);
    if let_go_between(longer, key, i, j) {
        let r = choose|r: int| i < r < j && (#[trigger] longer[r]).gesture == Gesture::LetGo { key };
        assert(moments[r].gesture == Gesture::LetGo { key });
    }
    if let_go_between(moments, key, i, j) {
        let r = choose|r: int|
            i < r < j && (#[trigger] moments[r]).gesture == Gesture::LetGo { key };
        assert(longer[r].gesture == Gesture::LetGo { key });
    }
}

proof fn ends_of_prefix(moments: Seq<Moment>, next: Moment, i: int, j: int)
    requires
        0 <= i < j < moments.len(),
    ensures
        ends(moments.push(next), i, j) == ends(moments, i, j),
{
    let struck = key_struck(moments, i);
    assert(key_struck(moments.push(next), i) == struck);
    pedal_of_prefix(moments, next, j, first_of(struck));
    let_go_of_prefix(moments, next, struck, i, j);
    if let Gesture::Pedal { first, down } = moments[j].gesture {
        pedal_of_prefix(moments, next, j, first);
    }
}

pub(crate) proof fn sounds_of_prefix(moments: Seq<Moment>, next: Moment, i: int, j: int)
    requires
        j <= moments.len(),
    ensures
        sounds_until(moments.push(next), i, j) == sounds_until(moments, i, j),
{
    let longer = moments.push(next);
    if sounds_until(longer, i, j) {
        assert forall|q: int| i < q < j implies !#[trigger] ends(moments, i, q) by {
            ends_of_prefix(moments, next, i, q);
            assert(!ends(longer, i, q));
        }
    }
    if sounds_until(moments, i, j) {
        assert forall|q: int| i < q < j implies !#[trigger] ends(longer, i, q) by {
            ends_of_prefix(moments, next, i, q);
            assert(!ends(moments, i, q));
        }
    }
}

/// What still sounds after one more gesture.
proof fn sounds_one_more(moments: Seq<Moment>, next: Moment, i: int)
    ensures
        ({
            let n = moments.len() as int;
            let longer = moments.push(next);
            sounds_until(longer, i, n + 1) <==> (i == n && next.gesture is Strike) || (
            sounds_until(moments, i, n) && !ends(longer, i, n))
        }),
{
    let n = moments.len() as int;
    let longer = moments.push(next);
    if i < n {
        sounds_of_prefix(moments, next, i, n);
        if sounds_until(longer, i, n + 1) {
            assert(!ends(longer, i, n));
            assert forall|q: int| i < q < n implies !#[trigger] ends(longer, i, q) by {}
            assert(sounds_until(longer, i, n));
        }
        if sounds_until(moments, i, n) && !ends(longer, i, n) {
            assert(sounds_until(longer, i, n));
            assert forall|q: int| i < q < n + 1 implies !#[trigger] ends(longer, i, q) by {}
        }
    }
}

/// A key that is struck again ends the strike before: of two strikes of one key, only one sounds.
proof fn one_strike_sounds(moments: Seq<Moment>, i: int, k: int, j: int)
    requires
        sounds_until(moments, i, j),
        sounds_until(moments, k, j),
        key_struck(moments, i) == key_struck(moments, k),
    ensures
        i == k,
{
    if i < k {
        assert(ends(moments, i, k));
    }
    if k < i {
        assert(ends(moments, k, i));
    }
}

/// Whether a gesture ends what a key sounds.
spec fn gesture_ends(moments: Seq<Moment>, gesture: Gesture, key: int, let_go: bool) -> bool {
    match gesture {
        Gesture::Strike { key: struck, .. } => struck == key,
        Gesture::LetGo { key: struck } => struck == key && !pedal_is_down(
            moments,
            moments.len() as int,
            first_of(key),
        ),
        Gesture::Pedal { first, down } => {
            &&& first == first_of(key)
            &&& !down
            &&& pedal_is_down(moments, moments.len() as int, first)
            &&& let_go
        },
        Gesture::Nothing => false,
    }
}

proof fn ends_now(moments: Seq<Moment>, next: Moment, i: int)
    requires
        0 <= i < moments.len(),
    ensures
        ends(moments.push(next), i, moments.len() as int) == gesture_ends(
            moments,
            next.gesture,
            key_struck(moments, i),
            let_go_between(moments, key_struck(moments, i), i, moments.len() as int),
        ),
{
    let n = moments.len() as int;
    let struck = key_struck(moments, i);
    assert(key_struck(moments.push(next), i) == struck);
    pedal_of_prefix(moments, next, n, first_of(struck));
    let_go_of_prefix(moments, next, struck, i, n);
    if let Gesture::Pedal { first, down } = next.gesture {
        pedal_of_prefix(moments, next, n, first);
    }
}

/// The held key after a gesture.
spec fn held_after(
    moments: Seq<Moment>,
    next: Moment,
    key: int,
    held: Option<HeldNote>,
) -> Option<HeldNote> {
    if next.gesture is Strike && next.gesture->Strike_key == key {
        Some(
            HeldNote {
                onset_ms: next.at_ms,
                velocity: next.gesture->Strike_velocity,
                released: false,
            },
        )
    } else if held is Some && gesture_ends(moments, next.gesture, key, held->0.released) {
        None
    } else if held is Some && next.gesture == (Gesture::LetGo { key }) {
        Some(HeldNote { released: true, ..held->0 })
    } else {
        held
    }
}

/// `ending` lists the held keys that a gesture ends, in ascending order.
spec fn lists_ending(
    moments: Seq<Moment>,
    next: Moment,
    held: Seq<Option<HeldNote>>,
    ending: Seq<int>,
) -> bool {
    &&& forall|x: int| 0 <= x < ending.len() ==> 0 <= #[trigger] ending[x] < held.len()
    &&& forall|x: int, y: int|
        #![trigger ending[x], ending[y]]
        0 <= x < y < ending.len() ==> ending[x] < ending[y]
    &&& forall|k: int|
        0 <= k < held.len() ==> (#[trigger] ending.contains(k) <==> held[k] is Some
            && gesture_ends(moments, next.gesture, k, held[k]->0.released))
}

/// The strike that a held key goes back to.
spec fn strike_of(moments: Seq<Moment>, key: int) -> int {
    choose|i: int| #[trigger]
        sounds_until(moments, i, moments.len() as int) && key_struck(moments, i) == key
}

proof fn holds_after(
    moments: Seq<Moment>,
    next: Moment,
    held: Seq<Option<HeldNote>>,
    after: Seq<Option<HeldNote>>,
)
    requires
        on_keys(moments.push(next), held.len()),
        holds_what_sounds(moments, held),
        after.len() == held.len(),
        forall|k: int|
            0 <= k < held.len() ==> (#[trigger] after[k]) == held_after(moments, next, k, held[k]),
    ensures
        holds_what_sounds(moments.push(next), after),
{
    let n = moments.len() as int;
    let longer = moments.push(next);
    assert(longer[n] == next);
    assert forall|i: int| 0 <= i < n implies #[trigger] longer[i] == moments[i] by {}
    assert forall|i: int| #[trigger] sounds_until(longer, i, n + 1) implies after[key_struck(
        longer,
        i,
    )] == Some(
        HeldNote {
            onset_ms: longer[i].at_ms,
            velocity: longer[i].gesture->Strike_velocity,
            released: let_go_between(longer, key_struck(longer, i), i, n + 1),
        },
    ) by {
        sounds_one_more(moments, next, i);
        let key = key_struck(longer, i);
        assert(longer[i].gesture is Strike);
        assert(0 <= key < held.len());
        if i == n {
            assert(!let_go_between(longer, key, n, n + 1));
        } else {
            ends_now(moments, next, i);
            let_go_of_prefix(moments, next, key, i, n);
            assert(held[key] is Some);
            assert(!(next.gesture is Strike && next.gesture->Strike_key == key));
            if let_go_between(longer, key, i, n + 1) {
                let r = choose|r: int|
                    i < r < n + 1 && (#[trigger] longer[r]).gesture == Gesture::LetGo { key };
                if r < n {
                    assert(longer[r].gesture == Gesture::LetGo { key });
                    assert(let_go_between(longer, key, i, n));
                }
            }
            if let_go_between(longer, key, i, n) {
                let r = choose|r: int|
                    i < r < n && (#[trigger] longer[r]).gesture == Gesture::LetGo { key };
                assert(longer[r].gesture == Gesture::LetGo { key });
                assert(let_go_between(longer, key, i, n + 1));
            }
            if next.gesture == (Gesture::LetGo { key }) {
                assert(longer[n].gesture == Gesture::LetGo { key });
                assert(let_go_between(longer, key, i, n + 1));
            }
        }
    }
    assert forall|k: int| 0 <= k < after.len() && (#[trigger] after[k]) is Some implies exists|i: int|
        #[trigger]
        sounds_until(longer, i, n + 1) && key_struck(longer, i) == k by {
        if next.gesture is Strike && next.gesture->Strike_key == k {
            sounds_one_more(moments, next, n);
            assert(sounds_until(longer, n, n + 1));
        } else {
            assert(held[k] is Some);
            let i = choose|i: int| #[trigger]
                sounds_until(moments, i, n) && key_struck(moments, i) == k;
            ends_now(moments, next, i);
            sounds_one_more(moments, next, i);
            assert(sounds_until(longer, i, n + 1));
            assert(key_struck(longer, i) == k);
        }
    }
}

proof fn completes_after(
    moments: Seq<Moment>,
    next: Moment,
    held: Seq<Option<HeldNote>>,
    completed: Seq<(int, int)>,
    ending: Seq<int>,
)
    requires
        on_keys(moments.push(next), held.len()),
        holds_what_sounds(moments, held),
        lists_completed(moments, completed),
        lists_ending(moments, next, held, ending),
    ensures
        lists_completed(
            moments.push(next),
            completed + Seq::new(
                ending.len(),
                |x: int| (strike_of(moments, ending[x]), moments.len() as int),
            ),
        ),
        forall|x: int|
            0 <= x < ending.len() ==> {
                let i = strike_of(moments, #[trigger] ending[x]);
                &&& sounds_until(moments, i, moments.len() as int)
                &&& key_struck(moments, i) == ending[x]
                &&& held[ending[x]] is Some
                &&& held[ending[x]]->0.onset_ms == moments[i].at_ms
                &&& held[ending[x]]->0.velocity == moments[i].gesture->Strike_velocity
            },
{
    let n = moments.len() as int;
    let longer = moments.push(next);
    let new = Seq::new(ending.len(), |x: int| (strike_of(moments, ending[x]), n));
    let all = completed + new;
    assert forall|x: int| 0 <= x < ending.len() implies {
        let i = strike_of(moments, #[trigger] ending[x]);
        &&& sounds_until(moments, i, n)
        &&& key_struck(moments, i) == ending[x]
        &&& held[ending[x]] is Some
        &&& held[ending[x]]->0.onset_ms == moments[i].at_ms
        &&& held[ending[x]]->0.velocity == moments[i].gesture->Strike_velocity
        &&& ends_first_at(longer, i, n)
    } by {
        let k = ending[x];
        assert(ending.contains(k));
        assert(held[k] is Some);
        let i = strike_of(moments, k);
        assert(sounds_until(moments, i, n) && key_struck(moments, i) == k);
        ends_now(moments, next, i);
        sounds_of_prefix(moments, next, i, n);
    }
    assert forall|m: int| 0 <= m < all.len() implies ends_first_at(
        longer,
        (#[trigger] all[m]).0,
        all[m].1,
    ) by {
        if m < completed.len() {
            let (i, j) = completed[m];
            assert(all[m] == completed[m]);
            assert(ends_first_at(moments, i, j));
            sounds_of_prefix(moments, next, i, j);
            ends_of_prefix(moments, next, i, j);
        } else {
            let x = m - completed.len();
            assert(all[m] == new[x]);
            assert(ends_first_at(longer, strike_of(moments, ending[x]), n));
        }
    }
    assert forall|i: int, j: int| #[trigger] ends_first_at(longer, i, j) implies all.contains((i, j))
        by {
        if j < n {
            sounds_of_prefix(moments, next, i, j);
            ends_of_prefix(moments, next, i, j);
            assert(ends_first_at(moments, i, j));
            let m = choose|m: int| 0 <= m < completed.len() && completed[m] == (i, j);
            assert(all[m] == (i, j));
        } else {
            sounds_of_prefix(moments, next, i, n);
            ends_now(moments, next, i);
            let k = key_struck(moments, i);
            assert(moments[i].gesture is Strike);
            assert(longer[i] == moments[i]);
            assert(0 <= k < held.len());
            assert(held[k] is Some);
            assert(ending.contains(k));
            let x = choose|x: int| 0 <= x < ending.len() && ending[x] == k;
            one_strike_sounds(moments, i, strike_of(moments, k), n);
            assert(all[completed.len() + x] == new[x]);
            assert(new[x] == (i, j));
        }
    }
    assert forall|a: int, b: int|
        #![trigger all[a], all[b]]
        0 <= a < b < all.len() implies {
        ||| all[a].1 < all[b].1
        ||| all[a].1 == all[b].1 && key_struck(longer, all[a].0) < key_struck(longer, all[b].0)
    } by {
        if b < completed.len() {
            assert(all[a] == completed[a] && all[b] == completed[b]);
            assert(ends_first_at(moments, completed[a].0, completed[a].1));
            assert(ends_first_at(moments, completed[b].0, completed[b].1));
        } else if a < completed.len() {
            assert(all[a] == completed[a]);
            assert(ends_first_at(moments, completed[a].0, completed[a].1));
            assert(all[b] == new[b - completed.len()]);
        } else {
            let x = a - completed.len();
            let y = b - completed.len();
            assert(all[a] == new[x] && all[b] == new[y]);
            assert(ending[x] < ending[y]);
        }
    }
}

/// The notes of held keys that stop sounding together, in ascending order.
spec fn stopped_notes(held: Seq<Option<HeldNote>>, ending: Seq<int>, end_ms: u64) -> Seq<Note> {
    Seq::new(
        ending.len(),
        |x: int| finished_note((ending[x] % 128) as u8, held[ending[x]]->0, end_ms),
    )
}

proof fn follows_on(
    moments: Seq<Moment>,
    next: Moment,
    earlier: Seq<Note>,
    keys: Keys,
    after: Keys,
    completed: Seq<(int, int)>,
    ending: Seq<int>,
) -> (completed_after: Seq<(int, int)>)
    requires
        follows(moments, earlier, keys, completed),
        on_keys(moments.push(next), keys.held.len()),
        after.held.len() == keys.held.len(),
        forall|k: int|
            0 <= k < keys.held.len() ==> (#[trigger] after.held[k]) == held_after(
                moments,
                next,
                k,
                keys.held[k],
            ),
        lists_ending(moments, next, keys.held, ending),
        after.notes == keys.notes + stopped_notes(keys.held, ending, next.at_ms),
    ensures
        follows(moments.push(next), earlier, after, completed_after),
{
    let n = moments.len() as int;
    let longer = moments.push(next);
    let new = Seq::new(ending.len(), |x: int| (strike_of(moments, ending[x]), n));
    holds_after(moments, next, keys.held, after.held);
    completes_after(moments, next, keys.held, completed, ending);
    let all = completed + new;
    let notes = completed_notes(longer, all);
    assert(after.notes =~= earlier + notes) by {
        assert(notes.len() == completed.len() + ending.len());
        assert forall|m: int| 0 <= m < completed.len() implies #[trigger] notes[m]
            == completed_notes(moments, completed)[m] by {
            assert(all[m] == completed[m]);
            assert(ends_first_at(moments, completed[m].0, completed[m].1));
        }
        assert forall|x: int| 0 <= x < ending.len() implies #[trigger] notes[completed.len() + x]
            == stopped_notes(keys.held, ending, next.at_ms)[x] by {
            let i = strike_of(moments, ending[x]);
            assert(all[completed.len() + x] == new[x]);
            assert(new[x] == (i, n));
            assert(sounds_until(moments, i, n));
            assert(longer[i] == moments[i]);
            assert(longer[n] == next);
        }
    }
    all
}

/// A performance goes on: a key is struck.
pub(crate) proof fn striking_follows(
    moments: Seq<Moment>,
    earlier: Seq<Note>,
    keys: Keys,
    completed: Seq<(int, int)>,
    key: int,
    velocity: u8,
    at_ms: u64,
) -> (completed_after: Seq<(int, int)>)
    requires
        follows(moments, earlier, keys, completed),
        0 <= key < keys.held.len(),
    ensures
        follows(
            moments.push(Moment { gesture: Gesture::Strike { key, velocity }, at_ms }),
            earlier,
            keys.press(key, velocity, at_ms),
            completed_after,
        ),
{
    let next = Moment { gesture: Gesture::Strike { key, velocity }, at_ms };
    let after = keys.press(key, velocity, at_ms);
    let ending: Seq<int> = if keys.held[key] is Some {
        seq![key]
    } else {
        Seq::empty()
    };
    assert forall|k: int| 0 <= k < keys.held.len() implies (#[trigger] ending.contains(k)
        <==> keys.held[k] is Some && gesture_ends(
        moments,
        next.gesture,
        k,
        keys.held[k]->0.released,
    )) by {
        if k == key && keys.held[k] is Some {
            assert(ending[0] == k);
        }
    }
    assert(after.notes =~= keys.notes + stopped_notes(keys.held, ending, at_ms));
    follows_on(moments, next, earlier, keys, after, completed, ending)
}

/// A performance goes on: a key is let go.
pub(crate) proof fn letting_go_follows(
    moments: Seq<Moment>,
    earlier: Seq<Note>,
    keys: Keys,
    completed: Seq<(int, int)>,
    key: int,
    at_ms: u64,
) -> (completed_after: Seq<(int, int)>)
    requires
        follows(moments, earlier, keys, completed),
        0 <= key < keys.held.len(),
    ensures
        follows(
            moments.push(Moment { gesture: Gesture::LetGo { key }, at_ms }),
            earlier,
            keys.release(key, pedal_is_down(moments, moments.len() as int, first_of(key)), at_ms),
            completed_after,
        ),
{
    let next = Moment { gesture: Gesture::LetGo { key }, at_ms };
    let down = pedal_is_down(moments, moments.len() as int, first_of(key));
    let after = keys.release(key, down, at_ms);
    let ending: Seq<int> = if keys.held[key] is Some && !down {
        seq![key]
    } else {
        Seq::empty()
    };
    assert forall|k: int| 0 <= k < keys.held.len() implies (#[trigger] ending.contains(k)
        <==> keys.held[k] is Some && gesture_ends(
        moments,
        next.gesture,
        k,
        keys.held[k]->0.released,
    )) by {
        if k == key && keys.held[k] is Some && !down {
            assert(ending[0] == k);
        }
    }
    assert(after.notes =~= keys.notes + stopped_notes(keys.held, ending, at_ms));
    follows_on(moments, next, earlier, keys, after, completed, ending)
}

/// The keys that lifting a pedal silences, in ascending order.
proof fn lifting_stops(keys: Keys, base: int, count: int, now_ms: u64) -> (ending: Seq<int>)
    requires
        0 <= base,
        0 <= count,
        base + count <= keys.held.len(),
    ensures
        keys.lift_pedal(base, count, now_ms).notes == keys.notes + stopped_notes(
            keys.held,
            ending,
            now_ms,
        ),
        forall|x: int| 0 <= x < ending.len() ==> base <= #[trigger] ending[x] < base + count,
        forall|x: int, y: int|
            #![trigger ending[x], ending[y]]
            0 <= x < y < ending.len() ==> ending[x] < ending[y],
        forall|k: int| #[trigger]
            ending.contains(k) <==> base <= k < base + count && keys.held[k] is Some
                && keys.held[k]->0.released,
    decreases count,
{
    if count == 0 {
        let ending = Seq::<int>::empty();
        assert(keys.notes =~= keys.notes + stopped_notes(keys.held, ending, now_ms));
        ending
    } else {
        let last = base + count - 1;
        let lower = lifting_stops(keys, base, count - 1, now_ms);
        lift_pedal_keeps_pressed_keys(keys, base, count - 1, now_ms);
        if keys.held[last] is Some && keys.held[last]->0.released {
            let ending = lower.push(last);
            assert forall|k: int| #[trigger] ending.contains(k) <==> base <= k < base + count
                && keys.held[k] is Some && keys.held[k]->0.released by {
                if ending.contains(k) && k != last {
                    let x = choose|x: int| 0 <= x < ending.len() && ending[x] == k;
                    assert(lower[x] == k);
                    assert(lower.contains(k));
                }
                if lower.contains(k) {
                    let x = choose|x: int| 0 <= x < lower.len() && lower[x] == k;
                    assert(ending[x] == k);
                }
                assert(ending[lower.len() as int] == last);
                assert(lower.contains(k) || !lower.contains(k));
            }
            assert(keys.lift_pedal(base, count, now_ms).notes =~= keys.notes + stopped_notes(
                keys.held,
                ending,
                now_ms,
            ));
            ending
        } else {
            assert forall|k: int| #[trigger] lower.contains(k) <==> base <= k < base + count
                && keys.held[k] is Some && keys.held[k]->0.released by {}
            lower
        }
    }
}

/// A performance goes on: a pedal moves.
pub(crate) proof fn pedalling_follows(
    moments: Seq<Moment>,
    earlier: Seq<Note>,
    keys: Keys,
    completed: Seq<(int, int)>,
    first: int,
    down: bool,
    at_ms: u64,
) -> (completed_after: Seq<(int, int)>)
    requires
        follows(moments, earlier, keys, completed),
        0 <= first,
        first + 128 <= keys.held.len(),
        first % 128 == 0,
    ensures
        follows(
            moments.push(Moment { gesture: Gesture::Pedal { first, down }, at_ms }),
            earlier,
            if pedal_is_down(moments, moments.len() as int, first) && !down {
                keys.lift_pedal(first, 128, at_ms)
            } else {
                keys
            },
            completed_after,
        ),
{
    let next = Moment { gesture: Gesture::Pedal { first, down }, at_ms };
    assert forall|k: int| 0 <= k < keys.held.len() implies (#[trigger] first_of(k) == first
        <==> first <= k < first + 128) by {}
    if pedal_is_down(moments, moments.len() as int, first) && !down {
        let after = keys.lift_pedal(first, 128, at_ms);
        let ending = lifting_stops(keys, first, 128, at_ms);
        lift_pedal_keeps_pressed_keys(keys, first, 128, at_ms);
        assert forall|k: int| 0 <= k < keys.held.len() implies (#[trigger] after.held[k])
            == held_after(moments, next, k, keys.held[k]) by {
            assert(first_of(k) == first <==> first <= k < first + 128);
        }
        assert forall|k: int| 0 <= k < keys.held.len() implies (#[trigger] ending.contains(k)
            <==> keys.held[k] is Some && gesture_ends(
            moments,
            next.gesture,
            k,
            keys.held[k]->0.released,
        )) by {
            assert(first_of(k) == first <==> first <= k < first + 128);
        }
        follows_on(moments, next, earlier, keys, after, completed, ending)
    } else {
        let ending = Seq::<int>::empty();
        assert(keys.notes =~= keys.notes + stopped_notes(keys.held, ending, at_ms));
        follows_on(moments, next, earlier, keys, keys, completed, ending)
    }
}

/// A performance goes on: nothing happens.
pub(crate) proof fn waiting_follows(
    moments: Seq<Moment>,
    earlier: Seq<Note>,
    keys: Keys,
    completed: Seq<(int, int)>,
    at_ms: u64,
) -> (completed_after: Seq<(int, int)>)
    requires
        follows(moments, earlier, keys, completed),
    ensures
        follows(
            moments.push(Moment { gesture: Gesture::Nothing, at_ms }),
            earlier,
            keys,
            completed_after,
        ),
{
    let next = Moment { gesture: Gesture::Nothing, at_ms };
    let ending = Seq::<int>::empty();
    assert(keys.notes =~= keys.notes + stopped_notes(keys.held, ending, at_ms));
    follows_on(moments, next, earlier, keys, keys, completed, ending)
}

/// Before the first gesture no key is held.
pub(crate) proof fn silence_follows(earlier: Seq<Note>, count: nat)
    ensures
        follows(
            Seq::empty(),
            earlier,
            Keys { held: Seq::new(count, |i: int| None::<HeldNote>), notes: earlier },
            Seq::empty(),
        ),
{
    let none = Seq::<Moment>::empty();
    assert(earlier =~= earlier + completed_notes(none, Seq::empty()));
}

/// `lasting` lists every strike that sounds until the end of the performance, once. Lower keys
/// come first.
pub open spec fn lists_lasting(moments: Seq<Moment>, lasting: Seq<int>) -> bool {
    &&& forall|m: int|
        0 <= m < lasting.len() ==> sounds_until(
            moments,
            #[trigger] lasting[m],
            moments.len() as int,
        )
    &&& forall|i: int| #[trigger]
        sounds_until(moments, i, moments.len() as int) ==> lasting.contains(i)
    &&& forall|a: int, b: int|
        #![trigger lasting[a], lasting[b]]
        0 <= a < b < lasting.len() ==> key_struck(moments, lasting[a]) < key_struck(
            moments,
            lasting[b],
        )
}

/// The notes of strikes that last until `end_ms`.
pub open spec fn lasting_notes(moments: Seq<Moment>, lasting: Seq<int>, end_ms: u64) -> Seq<Note> {
    Seq::new(lasting.len(), |m: int| note_struck(moments, lasting[m], end_ms))
}

/// The keys that are held when all keys stop, in ascending order.
proof fn finishing_stops(keys: Keys, count: int, end_ms: u64) -> (ending: Seq<int>)
    requires
        0 <= count <= keys.held.len(),
    ensures
        keys.finish_all(count, end_ms).notes == keys.notes + stopped_notes(
            keys.held,
            ending,
            end_ms,
        ),
        forall|x: int| 0 <= x < ending.len() ==> 0 <= #[trigger] ending[x] < count,
        forall|x: int, y: int|
            #![trigger ending[x], ending[y]]
            0 <= x < y < ending.len() ==> ending[x] < ending[y],
        forall|k: int| #[trigger]
            ending.contains(k) <==> 0 <= k < count && keys.held[k] is Some,
    decreases count,
{
    if count == 0 {
        let ending = Seq::<int>::empty();
        assert(keys.notes =~= keys.notes + stopped_notes(keys.held, ending, end_ms));
        ending
    } else {
        let last = count - 1;
        let lower = finishing_stops(keys, count - 1, end_ms);
        finish_all_leaves_nothing_held(keys, count - 1, end_ms);
        if keys.held[last] is Some {
            let ending = lower.push(last);
            assert forall|k: int| #[trigger] ending.contains(k) <==> 0 <= k < count
                && keys.held[k] is Some by {
                if ending.contains(k) && k != last {
                    let x = choose|x: int| 0 <= x < ending.len() && ending[x] == k;
                    assert(lower[x] == k);
                    assert(lower.contains(k));
                }
                if lower.contains(k) {
                    let x = choose|x: int| 0 <= x < lower.len() && lower[x] == k;
                    assert(ending[x] == k);
                }
                assert(ending[lower.len() as int] == last);
            }
            assert(keys.finish_all(count, end_ms).notes =~= keys.notes + stopped_notes(
                keys.held,
                ending,
                end_ms,
            ));
            ending
        } else {
            assert forall|k: int| #[trigger] lower.contains(k) <==> 0 <= k < count
                && keys.held[k] is Some by {}
            lower
        }
    }
}

/// When a performance ends, what still sounds lasts until then.
pub(crate) proof fn ending_follows(
    moments: Seq<Moment>,
    earlier: Seq<Note>,
    keys: Keys,
    completed: Seq<(int, int)>,
    end_ms: u64,
) -> (lasting: Seq<int>)
    requires
        follows(moments, earlier, keys, completed),
    ensures
        lists_lasting(moments, lasting),
        keys.finish_all(keys.held.len() as int, end_ms).notes == earlier + completed_notes(
            moments,
            completed,
        ) + lasting_notes(moments, lasting, end_ms),
{
    let n = moments.len() as int;
    let ending = finishing_stops(keys, keys.held.len() as int, end_ms);
    let lasting = Seq::new(ending.len(), |x: int| strike_of(moments, ending[x]));
    assert forall|x: int| 0 <= x < ending.len() implies {
        let i = #[trigger] lasting[x];
        &&& sounds_until(moments, i, n)
        &&& key_struck(moments, i) == ending[x]
        &&& keys.held[ending[x]] is Some
        &&& keys.held[ending[x]]->0.onset_ms == moments[i].at_ms
        &&& keys.held[ending[x]]->0.velocity == moments[i].gesture->Strike_velocity
    } by {
        let k = ending[x];
        assert(ending.contains(k));
        let i = strike_of(moments, k);
        assert(sounds_until(moments, i, n) && key_struck(moments, i) == k);
    }
    assert forall|i: int| #[trigger] sounds_until(moments, i, n) implies lasting.contains(i) by {
        let k = key_struck(moments, i);
        assert(moments[i].gesture is Strike);
        assert(0 <= k < keys.held.len());
        assert(ending.contains(k));
        let x = choose|x: int| 0 <= x < ending.len() && ending[x] == k;
        one_strike_sounds(moments, i, lasting[x], n);
    }
    assert forall|a: int, b: int|
        #![trigger lasting[a], lasting[b]]
        0 <= a < b < lasting.len() implies key_struck(moments, lasting[a]) < key_struck(
        moments,
        lasting[b],
    ) by {
        assert(ending[a] < ending[b]);
    }
    assert(stopped_notes(keys.held, ending, end_ms) =~= lasting_notes(moments, lasting, end_ms)) by {
        assert forall|x: int| 0 <= x < ending.len() implies stopped_notes(
            keys.held,
            ending,
            end_ms,
        )[x] == #[trigger] lasting_notes(moments, lasting, end_ms)[x] by {
            assert(sounds_until(moments, lasting[x], n));
        }
    }
    lasting
}

} // verus!
