//! Placing the notes of the model on the timeline.

use crate::model::{at_least_one, distance_over, ModelNote};
use crate::state::{all_last, Note, Shared};
use crate::text::{append_decimal, decimal};
use vstd::prelude::*;
use vstd::string::*;

verus! {

/// What became of a continuation: it came too late, or its notes are on the timeline and the
/// first one, if any, starts at that position.
#[derive(Clone, Copy, Debug, PartialEq, Eq, Structural)]
#[must_use]
pub enum GeneratedUpdate {
    Stale,
    Applied(Option<u64>),
}

/// The latest onset of a played note, or zero if there is none.
pub open spec fn latest_played_onset(notes: Seq<Note>) -> u64
    decreases notes.len(),
{
    if notes.len() == 0 {
        0
    } else {
        let before = latest_played_onset(notes.drop_last());
        if !notes.last().generated && notes.last().onset_ms > before {
            notes.last().onset_ms
        } else {
            before
        }
    }
}

/// Where a continuation starts to count: at the wanted position, else at the last played note.
pub open spec fn continuation_base(notes: Seq<Note>, musical_start_ms: Option<u64>) -> u64 {
    match musical_start_ms {
        Some(start) => start,
        None => latest_played_onset(notes),
    }
}

/// The onset of the last of `generated`, whose distances count from `base` on. The count stops
/// at the end of its range.
pub open spec fn onset_of_last(generated: Seq<ModelNote>, base: u64) -> u64
    decreases generated.len(),
{
    if generated.len() == 0 {
        base
    } else {
        let onset = onset_of_last(generated.drop_last(), base) + generated.last().1;
        if onset > u64::MAX { u64::MAX } else { onset as u64 }
    }
}

/// The last note of a pitch, if there is any.
pub open spec fn last_of_pitch(notes: Seq<Note>, pitch: u8) -> Option<int>
    decreases notes.len(),
{
    if notes.len() == 0 {
        None
    } else if notes.last().pitch == pitch {
        Some(notes.len() - 1)
    } else {
        last_of_pitch(notes.drop_last(), pitch)
    }
}

/// A note that is still sounding at `limit_ms` is cut there, but keeps a millisecond.
pub open spec fn cut_at(note: Note, limit_ms: u64) -> Note {
    if note.end() > limit_ms {
        Note {
            duration_ms: if limit_ms > note.onset_ms {
                (limit_ms - note.onset_ms) as u64
            } else {
                1
            },
            ..note
        }
    } else {
        note
    }
}

/// The notes with the last one of a pitch cut at `limit_ms`.
pub open spec fn make_room(notes: Seq<Note>, pitch: u8, limit_ms: u64) -> Seq<Note> {
    match last_of_pitch(notes, pitch) {
        Some(i) => notes.update(i, cut_at(notes[i], limit_ms)),
        None => notes,
    }
}

/// The notes of a continuation on the timeline: each starts its distance after the one before
/// it, ends the note of its pitch that may still sound, and lasts at least a millisecond.
pub open spec fn placed(generated: Seq<ModelNote>, base: u64) -> Seq<Note>
    decreases generated.len(),
{
    if generated.len() == 0 {
        Seq::empty()
    } else {
        let note = generated.last();
        let onset = onset_of_last(generated, base);
        make_room(placed(generated.drop_last(), base), note.0, onset).push(
            Note {
                pitch: note.0,
                onset_ms: onset,
                duration_ms: at_least_one(note.2),
                velocity: note.3,
                generated: true,
            },
        )
    }
}

/// What a new continuation from `base` on leaves of the timeline: all played notes, and the
/// generated notes that start before it, cut where it begins.
pub open spec fn kept(notes: Seq<Note>, base: u64) -> Seq<Note>
    decreases notes.len(),
{
    if notes.len() == 0 {
        Seq::empty()
    } else {
        let note = notes.last();
        let before = kept(notes.drop_last(), base);
        if !note.generated {
            before.push(note)
        } else if note.onset_ms < base {
            before.push(cut_at(note, base))
        } else {
            before
        }
    }
}

/// The status line after a continuation of `count` notes.
pub open spec fn generated_status(count: nat) -> Seq<char> {
    if count == 0 {
        "Model generated no notes"@
    } else {
        "Generated "@ + decimal(count) + " notes. Click Play to render them."@
    }
}

/// The onset of the first note, if there is any.
pub open spec fn first_start(notes: Seq<Note>) -> Option<u64> {
    if notes.len() == 0 { None } else { Some(notes[0].onset_ms) }
}

fn find_base(notes: &Vec<Note>, musical_start_ms: Option<u64>) -> (base: u64)
    ensures
        base == continuation_base(notes@, musical_start_ms),
{
    if let Some(start) = musical_start_ms {
        return start;
    }
    let mut base: u64 = 0;
    let mut i: usize = 0;
    while i < notes.len()
        invariant
            i <= notes.len(),
            base == latest_played_onset(notes@.take(i as int)),
        decreases notes.len() - i,
    {
        assert(notes@.take(i + 1).drop_last() =~= notes@.take(i as int));
        if !notes[i].generated && notes[i].onset_ms > base {
            base = notes[i].onset_ms;
        }
        i = i + 1;
    }
    assert(notes@.take(notes.len() as int) =~= notes@);
    base
}

/// Cuts the last note of a pitch that starts no later than `limit_ms`.
fn cut_last(notes: &mut Vec<Note>, pitch: u8, limit_ms: u64)
    requires
        forall|i: int|
            0 <= i < old(notes)@.len() ==> (#[trigger] old(notes)@[i]).onset_ms <= limit_ms,
    ensures
        final(notes)@ == make_room(old(notes)@, pitch, limit_ms),
{
    let ghost all = notes@;
    let mut count = notes.len();
    assert(all.take(count as int) =~= all);
    while count > 0
        invariant
            count <= notes@.len(),
            notes@ == all,
            all == old(notes)@,
            forall|i: int| 0 <= i < all.len() ==> (#[trigger] all[i]).onset_ms <= limit_ms,
            last_of_pitch(all.take(count as int), pitch) == last_of_pitch(all, pitch),
        decreases count,
    {
        let note = notes[count - 1];
        assert(all.take(count as int).drop_last() =~= all.take(count - 1));
        if note.pitch == pitch {
            assert(all[count - 1].onset_ms <= limit_ms);
            let room = limit_ms - note.onset_ms;
            let cut = Note {
                pitch: note.pitch,
                onset_ms: note.onset_ms,
                duration_ms: if note.duration_ms > room {
                    if room > 0 {
                        room
                    } else {
                        1
                    }
                } else {
                    note.duration_ms
                },
                velocity: note.velocity,
                generated: note.generated,
            };
            assert(cut == cut_at(note, limit_ms));
            notes.set(count - 1, cut);
            return ;
        }
        count = count - 1;
    }
}

proof fn placed_onsets_are_bounded(generated: Seq<ModelNote>, base: u64)
    ensures
        placed(generated, base).len() == generated.len(),
        forall|i: int|
            0 <= i < generated.len() ==> (#[trigger] placed(generated, base)[i]).onset_ms
                <= onset_of_last(generated, base),
    decreases generated.len(),
{
    if generated.len() > 0 {
        let rest = generated.drop_last();
        placed_onsets_are_bounded(rest, base);
        let before = placed(rest, base);
        let onset = onset_of_last(generated, base);
        last_of_pitch_is_an_index(before, generated.last().0);
        assert forall|i: int| 0 <= i < generated.len() implies (
        #[trigger] placed(generated, base)[i]).onset_ms <= onset by {
            if i < before.len() {
                assert(before[i].onset_ms <= onset_of_last(rest, base));
            }
        }
    }
}

proof fn last_of_pitch_is_an_index(notes: Seq<Note>, pitch: u8)
    ensures
        last_of_pitch(notes, pitch) matches Some(i) ==> 0 <= i < notes.len() && notes[i].pitch
            == pitch && forall|k: int| i < k < notes.len() ==> (#[trigger] notes[k]).pitch != pitch,
        last_of_pitch(notes, pitch) is None ==> forall|k: int|
            0 <= k < notes.len() ==> (#[trigger] notes[k]).pitch != pitch,
    decreases notes.len(),
{
    if notes.len() > 0 {
        let rest = notes.drop_last();
        last_of_pitch_is_an_index(rest, pitch);
        assert(forall|k: int| 0 <= k < rest.len() ==> #[trigger] notes[k] == rest[k]);
    }
}

fn place(generated: &Vec<ModelNote>, base: u64) -> (notes: Vec<Note>)
    ensures
        notes@ == placed(generated@, base),
{
    let mut notes: Vec<Note> = Vec::new();
    let mut onset: u64 = base;
    let mut i: usize = 0;
    while i < generated.len()
        invariant
            i <= generated.len(),
            onset == onset_of_last(generated@.take(i as int), base),
            notes@ == placed(generated@.take(i as int), base),
        decreases generated.len() - i,
    {
        assert(generated@.take(i + 1).drop_last() =~= generated@.take(i as int));
        let note = generated[i];
        proof {
            placed_onsets_are_bounded(generated@.take(i as int), base);
        }
        let ghost before = onset;
        onset = onset.saturating_add(note.1);
        assert forall|k: int| 0 <= k < notes@.len() implies (#[trigger] notes@[k]).onset_ms
            <= onset by {
            assert(placed(generated@.take(i as int), base)[k].onset_ms <= before);
        }
        cut_last(&mut notes, note.0, onset);
        notes.push(
            Note {
                pitch: note.0,
                onset_ms: onset,
                duration_ms: if note.2 == 0 { 1 } else { note.2 },
                velocity: note.3,
                generated: true,
            },
        );
        i = i + 1;
    }
    assert(generated@.take(generated.len() as int) =~= generated@);
    notes
}

fn keep(notes: &Vec<Note>, base: u64) -> (left: Vec<Note>)
    ensures
        left@ == kept(notes@, base),
{
    let mut left: Vec<Note> = Vec::new();
    let mut i: usize = 0;
    while i < notes.len()
        invariant
            i <= notes.len(),
            left@ == kept(notes@.take(i as int), base),
        decreases notes.len() - i,
    {
        assert(notes@.take(i + 1).drop_last() =~= notes@.take(i as int));
        let note = notes[i];
        if !note.generated {
            left.push(note);
        } else if note.onset_ms < base {
            let room = base - note.onset_ms;
            left.push(
                Note {
                    pitch: note.pitch,
                    onset_ms: note.onset_ms,
                    duration_ms: if note.duration_ms > room { room } else { note.duration_ms },
                    velocity: note.velocity,
                    generated: note.generated,
                },
            );
        }
        i = i + 1;
    }
    assert(notes@.take(notes.len() as int) =~= notes@);
    left
}

/// Puts a continuation on the timeline, in place of what was generated from its start on.
/// The distances and durations of `generated` are in milliseconds. Returns where its first
/// note starts.
pub fn add_generated(
    generated: &Vec<ModelNote>,
    musical_start_ms: Option<u64>,
    shared: &mut Shared,
) -> (start: Option<u64>)
    ensures
        ({
            let base = continuation_base(old(shared).notes@, musical_start_ms);
            &&& final(shared).notes@ == kept(old(shared).notes@, base) + placed(generated@, base)
            &&& start == first_start(placed(generated@, base))
        }),
        exists|base: u64, from: Seq<int>| #[trigger]
            continues(
                old(shared).notes@,
                generated@,
                musical_start_ms,
                base,
                from,
                final(shared).notes@,
            ),
        final(shared).status@ == generated_status(generated@.len()),
        *final(shared) == (Shared {
            notes: final(shared).notes,
            status: final(shared).status,
            ..*old(shared)
        }),
{
    let base = find_base(&shared.notes, musical_start_ms);
    let mut notes = place(generated, base);
    proof {
        placed_onsets_are_bounded(generated@, base);
        let from = continuations_keep_earlier_notes(
            shared.notes@,
            generated@,
            musical_start_ms,
        );
    }
    let count = notes.len();
    let start = if count > 0 {
        Some(notes[0].onset_ms)
    } else {
        None
    };
    let mut all = keep(&shared.notes, base);
    all.append(&mut notes);
    shared.notes = all;
    shared.status = if count == 0 {
        "Model generated no notes".to_owned()
    } else {
        let mut status = "Generated ".to_owned();
        append_decimal(&mut status, count as u64);
        status.append(" notes. Click Play to render them.");
        status
    };
    start
}

/// Puts a continuation on the timeline if it was requested under the current revision.
pub fn apply_generated(
    generated: &Vec<ModelNote>,
    musical_start_ms: Option<u64>,
    revision: u64,
    shared: &mut Shared,
) -> (update: GeneratedUpdate)
    ensures
        old(shared).generation_revision != revision ==> update is Stale && *final(shared) == *old(
            shared,
        ),
        old(shared).generation_revision == revision ==> {
            let base = continuation_base(old(shared).notes@, musical_start_ms);
            &&& update == GeneratedUpdate::Applied(first_start(placed(generated@, base)))
            &&& final(shared).notes@ == kept(old(shared).notes@, base) + placed(generated@, base)
            &&& exists|base: u64, from: Seq<int>| #[trigger]
                continues(
                    old(shared).notes@,
                    generated@,
                    musical_start_ms,
                    base,
                    from,
                    final(shared).notes@,
                )
            &&& final(shared).status@ == generated_status(generated@.len())
            &&& *final(shared) == (Shared {
                notes: final(shared).notes,
                status: final(shared).status,
                ..*old(shared)
            })
        },
{
    if !shared.generation_is_current(revision) {
        return GeneratedUpdate::Stale;
    }
    GeneratedUpdate::Applied(add_generated(generated, musical_start_ms, shared))
}

/// The notes of a timeline that were played.
pub open spec fn played(notes: Seq<Note>) -> Seq<Note>
    decreases notes.len(),
{
    if notes.len() == 0 {
        Seq::empty()
    } else if notes.last().generated {
        played(notes.drop_last())
    } else {
        played(notes.drop_last()).push(notes.last())
    }
}

/// The played notes are notes of the timeline.
pub proof fn played_notes_are_notes(notes: Seq<Note>, i: int)
    requires
        0 <= i < played(notes).len(),
    ensures
        notes.contains(played(notes)[i]),
        !played(notes)[i].generated,
    decreases notes.len(),
{
    let rest = notes.drop_last();
    if i < played(rest).len() {
        played_notes_are_notes(rest, i);
        let k = choose|k: int| 0 <= k < rest.len() && rest[k] == played(rest)[i];
        assert(notes[k] == played(notes)[i]);
    } else {
        assert(notes[notes.len() - 1] == played(notes)[i]);
    }
}

proof fn played_push(notes: Seq<Note>, note: Note)
    ensures
        played(notes.push(note)) == if note.generated {
            played(notes)
        } else {
            played(notes).push(note)
        },
{
    assert(notes.push(note).drop_last() =~= notes);
}

proof fn kept_notes(notes: Seq<Note>, base: u64)
    ensures
        played(kept(notes, base)) == played(notes),
        forall|i: int|
            0 <= i < kept(notes, base).len() ==> ((#[trigger] kept(notes, base)[i]).generated
                ==> kept(notes, base)[i].onset_ms < base && kept(notes, base)[i].end() <= base),
        all_last(notes) ==> all_last(kept(notes, base)),
    decreases notes.len(),
{
    if notes.len() > 0 {
        let rest = notes.drop_last();
        kept_notes(rest, base);
        let note = notes.last();
        let before = kept(rest, base);
        assert(note == notes[notes.len() - 1]);
        if all_last(notes) {
            assert forall|i: int| 0 <= i < rest.len() implies (#[trigger] rest[i]).duration_ms
                >= 1 by {
                assert(rest[i] == notes[i]);
            }
            assert(notes[notes.len() - 1].duration_ms >= 1);
        }
        if !note.generated {
            played_push(before, note);
        } else if note.onset_ms < base {
            played_push(before, cut_at(note, base));
        }
    }
}

proof fn nothing_played_is_added(notes: Seq<Note>, added: Seq<Note>)
    requires
        forall|i: int| 0 <= i < added.len() ==> (#[trigger] added[i]).generated,
    ensures
        played(notes + added) == played(notes),
    decreases added.len(),
{
    if added.len() == 0 {
        assert(notes + added =~= notes);
    } else {
        let rest = added.drop_last();
        assert forall|i: int| 0 <= i < rest.len() implies (#[trigger] rest[i]).generated by {
            assert(rest[i] == added[i]);
        }
        nothing_played_is_added(notes, rest);
        assert(notes + added =~= (notes + rest).push(added.last()));
        assert(added[added.len() - 1].generated);
        played_push(notes + rest, added.last());
    }
}

/// The notes of a continuation are marked as generated, last at least a millisecond, and start
/// one after the other, none before `base`.
pub proof fn placed_notes_follow_each_other(generated: Seq<ModelNote>, base: u64)
    ensures
        placed(generated, base).len() == generated.len(),
        all_last(placed(generated, base)),
        forall|i: int|
            0 <= i < generated.len() ==> {
                let note = #[trigger] placed(generated, base)[i];
                &&& note.generated
                &&& note.pitch == generated[i].0
                &&& note.velocity == generated[i].3
                &&& base <= note.onset_ms <= onset_of_last(generated, base)
                &&& note.onset_ms == onset_of_last(generated.take(i + 1), base)
            },
        forall|i: int, k: int|
            #![trigger placed(generated, base)[i], placed(generated, base)[k]]
            0 <= i <= k < generated.len() ==> placed(generated, base)[i].onset_ms <= placed(
                generated,
                base,
            )[k].onset_ms,
        base <= onset_of_last(generated, base),
    decreases generated.len(),
{
    if generated.len() > 0 {
        let rest = generated.drop_last();
        let last = generated.len() - 1;
        placed_notes_follow_each_other(rest, base);
        let before = placed(rest, base);
        let all = placed(generated, base);
        last_of_pitch_is_an_index(before, generated.last().0);
        assert(generated.take(generated.len() as int) =~= generated);
        assert forall|i: int| 0 <= i < generated.len() implies {
            let note = #[trigger] all[i];
            &&& note.generated
            &&& note.pitch == generated[i].0
            &&& note.velocity == generated[i].3
            &&& base <= note.onset_ms <= onset_of_last(generated, base)
            &&& note.onset_ms == onset_of_last(generated.take(i + 1), base)
        } by {
            if i < last {
                assert(before[i].generated);
                assert(rest.take(i + 1) =~= generated.take(i + 1));
                assert(rest[i] == generated[i]);
            }
        }
        assert forall|i: int| 0 <= i < all.len() implies (#[trigger] all[i]).duration_ms >= 1 by {
            if i < last {
                assert(before[i].duration_ms >= 1);
            }
        }
        assert forall|i: int, k: int|
            #![trigger all[i], all[k]]
            0 <= i <= k < generated.len() implies all[i].onset_ms <= all[k].onset_ms by {
            if i < last {
                assert(before[i].onset_ms == all[i].onset_ms);
            }
            if k < last {
                assert(before[k].onset_ms == all[k].onset_ms);
            }
        }
    }
}

/// Two notes of a continuation with the same pitch do not overlap, but for a note of a single
/// millisecond where both start together.
pub proof fn placed_notes_stay_apart(generated: Seq<ModelNote>, base: u64)
    ensures
        forall|i: int, k: int|
            #![trigger placed(generated, base)[i], placed(generated, base)[k]]
            0 <= i < k < generated.len() && placed(generated, base)[i].pitch == placed(
                generated,
                base,
            )[k].pitch ==> {
                ||| placed(generated, base)[i].end() <= placed(generated, base)[k].onset_ms
                ||| placed(generated, base)[i].duration_ms == 1 && placed(
                    generated,
                    base,
                )[i].onset_ms == placed(generated, base)[k].onset_ms
            },
    decreases generated.len(),
{
    if generated.len() > 0 {
        let rest = generated.drop_last();
        let last = generated.len() - 1;
        placed_notes_stay_apart(rest, base);
        placed_notes_follow_each_other(rest, base);
        placed_notes_follow_each_other(generated, base);
        let pitch = generated.last().0;
        let before = placed(rest, base);
        let all = placed(generated, base);
        last_of_pitch_is_an_index(before, pitch);
        assert forall|i: int, k: int|
            #![trigger all[i], all[k]]
            0 <= i < k < generated.len() && all[i].pitch == all[k].pitch implies {
            ||| all[i].end() <= all[k].onset_ms
            ||| all[i].duration_ms == 1 && all[i].onset_ms == all[k].onset_ms
        } by {
            assert(before[i].pitch == all[i].pitch && before[i].onset_ms == all[i].onset_ms);
            assert(before[i].duration_ms >= 1);
            assert(all[i].onset_ms <= all[k].onset_ms);
            if k < last {
                assert(before[k].pitch == all[k].pitch && before[k].onset_ms == all[k].onset_ms);
            } else {
                let m = last_of_pitch(before, pitch)->0;
                assert(before[i].pitch == pitch);
                assert(i <= m);
                if i < m {
                    assert(before[m].pitch == pitch);
                    assert(before[m].onset_ms == all[m].onset_ms);
                    assert(all[m].onset_ms <= all[k].onset_ms);
                    assert(all[i] == before[i]);
                }
            }
        }
    }
}

/// A continuation leaves every played note as it is. Of the notes that were generated before,
/// those that start before it stay, and end where it begins at the latest; all others give way
/// to it. No note becomes shorter than a millisecond.
pub proof fn continuations_replace_generated_notes(
    notes: Seq<Note>,
    generated: Seq<ModelNote>,
    base: u64,
)
    ensures
        ({
            let left = kept(notes, base);
            let after = left + placed(generated, base);
            &&& played(after) == played(notes)
            &&& forall|i: int|
                0 <= i < left.len() ==> ((#[trigger] after[i]).generated ==> after[i].onset_ms
                    < base && after[i].end() <= base)
            &&& forall|i: int|
                left.len() <= i < after.len() ==> (#[trigger] after[i]).generated
                    && after[i].onset_ms >= base
            &&& all_last(notes) ==> all_last(after)
        }),
{
    kept_notes(notes, base);
    placed_notes_follow_each_other(generated, base);
    let left = kept(notes, base);
    let added = placed(generated, base);
    nothing_played_is_added(left, added);
    let after = left + added;
    assert forall|i: int| left.len() <= i < after.len() implies (#[trigger] after[i]).generated
        && after[i].onset_ms >= base by {
        assert(after[i] == added[i - left.len()]);
    }
    assert forall|i: int|
        0 <= i < left.len() && (#[trigger] after[i]).generated implies after[i].onset_ms < base
        && after[i].end() <= base by {
        assert(after[i] == left[i]);
    }
    if all_last(notes) {
        assert forall|i: int| 0 <= i < after.len() implies (#[trigger] after[i]).duration_ms
            >= 1 by {
            if i < left.len() {
                assert(after[i] == left[i]);
            } else {
                assert(after[i] == added[i - left.len()]);
            }
        }
    }
}

/// The latest played onset is that of a played note, or zero if there is none, and no played note
/// starts later.
pub proof fn the_last_played_note_starts_last(notes: Seq<Note>)
    ensures
        forall|i: int|
            0 <= i < notes.len() && !(#[trigger] notes[i]).generated ==> notes[i].onset_ms
                <= latest_played_onset(notes),
        latest_played_onset(notes) != 0 ==> exists|i: int|
            0 <= i < notes.len() && !(#[trigger] notes[i]).generated && notes[i].onset_ms
                == latest_played_onset(notes),
    decreases notes.len(),
{
    if notes.len() > 0 {
        let rest = notes.drop_last();
        let last = rest.len() as int;
        the_last_played_note_starts_last(rest);
        assert forall|i: int|
            0 <= i < notes.len() && !(#[trigger] notes[i]).generated implies notes[i].onset_ms
            <= latest_played_onset(notes) by {
            if i < last {
                assert(rest[i] == notes[i]);
            }
        }
        if latest_played_onset(notes) != 0 {
            if !notes[last].generated && notes[last].onset_ms > latest_played_onset(rest) {
                assert(notes[last].onset_ms == latest_played_onset(notes));
            } else {
                let i = choose|i: int|
                    0 <= i < rest.len() && !(#[trigger] rest[i]).generated && rest[i].onset_ms
                        == latest_played_onset(rest);
                assert(notes[i] == rest[i]);
            }
        }
    }
}

/// Where a continuation of `notes` starts to count: at the wanted position; else at the onset of
/// the last played note, or at zero if there is none.
pub open spec fn is_base(notes: Seq<Note>, musical_start_ms: Option<u64>, base: u64) -> bool {
    match musical_start_ms {
        Some(start) => base == start,
        None => {
            &&& forall|i: int|
                0 <= i < notes.len() && !(#[trigger] notes[i]).generated ==> notes[i].onset_ms
                    <= base
            &&& base == 0 || exists|i: int|
                0 <= i < notes.len() && !(#[trigger] notes[i]).generated && notes[i].onset_ms
                    == base
        },
    }
}

/// `left` is what remains of `notes`: `from` names them in their order. Every played note stays
/// as it is. Every generated note that starts before `base` stays, and if it goes on beyond `base`
/// it ends there. Only generated notes that start at `base` or later are gone.
pub open spec fn remains(
    notes: Seq<Note>,
    base: u64,
    from: Seq<int>,
    left: Seq<Note>,
) -> bool {
    &&& left.len() == from.len()
    &&& forall|m: int|
        0 <= m < from.len() ==> {
            let note = notes[#[trigger] from[m]];
            &&& 0 <= from[m] < notes.len()
            &&& note.generated ==> note.onset_ms < base
            &&& left[m] == if note.generated && note.onset_ms + note.duration_ms > base {
                Note { duration_ms: (base - note.onset_ms) as u64, ..note }
            } else {
                note
            }
        }
    &&& forall|i: int|
        0 <= i < notes.len() && (!(#[trigger] notes[i]).generated || notes[i].onset_ms < base)
            ==> from.contains(i)
    &&& forall|a: int, b: int|
        #![trigger from[a], from[b]]
        0 <= a < b < from.len() ==> from[a] < from[b]
}

proof fn kept_remains(notes: Seq<Note>, base: u64) -> (from: Seq<int>)
    ensures
        remains(notes, base, from, kept(notes, base)),
    decreases notes.len(),
{
    if notes.len() == 0 {
        Seq::empty()
    } else {
        let rest = notes.drop_last();
        let last = rest.len() as int;
        let before = kept_remains(rest, base);
        let from = if !notes[last].generated || notes[last].onset_ms < base {
            before.push(last)
        } else {
            before
        };
        let left = kept(notes, base);
        assert forall|m: int| 0 <= m < from.len() implies {
            let note = notes[#[trigger] from[m]];
            &&& 0 <= from[m] < notes.len()
            &&& note.generated ==> note.onset_ms < base
            &&& left[m] == if note.generated && note.onset_ms + note.duration_ms > base {
                Note { duration_ms: (base - note.onset_ms) as u64, ..note }
            } else {
                note
            }
        } by {
            if m < before.len() {
                assert(from[m] == before[m]);
                assert(rest[before[m]] == notes[before[m]]);
                assert(left[m] == kept(rest, base)[m]);
            }
        }
        assert forall|i: int|
            0 <= i < notes.len() && (!(#[trigger] notes[i]).generated || notes[i].onset_ms
                < base) implies from.contains(i) by {
            if i < last {
                assert(rest[i] == notes[i]);
                let m = choose|m: int| 0 <= m < before.len() && before[m] == i;
                assert(from[m] == i);
            } else {
                assert(from[before.len() as int] == i);
            }
        }
        from
    }
}

/// The onset of a note of a continuation: its distance and those before it, from `base` on, or
/// the last moment that the clock knows.
pub open spec fn onset_of(generated: Seq<ModelNote>, base: u64, i: int) -> int {
    let onset = base + distance_over(generated, i + 1);
    if onset > u64::MAX { u64::MAX as int } else { onset }
}

/// The duration that the model gave a note, but for a millisecond at least.
pub open spec fn full_duration(note: ModelNote) -> int {
    if note.2 >= 1 { note.2 as int } else { 1 }
}

/// The note `k` is the next of the same pitch after the note `i`.
pub open spec fn is_next_of_pitch(generated: Seq<ModelNote>, i: int, k: int) -> bool {
    &&& i < k < generated.len()
    &&& generated[k].0 == generated[i].0
    &&& forall|l: int| i < l < k ==> (#[trigger] generated[l]).0 != generated[i].0
}

/// `new` are the notes of a continuation on the timeline, from `base` on: as the model gave them,
/// but that a note ends where the next of its pitch begins, if it would go on; even then it lasts
/// a millisecond.
pub open spec fn continues_with(
    generated: Seq<ModelNote>,
    base: u64,
    new: Seq<Note>,
) -> bool {
    &&& new.len() == generated.len()
    &&& forall|i: int|
        0 <= i < new.len() ==> {
            let note = #[trigger] new[i];
            &&& note.pitch == generated[i].0
            &&& note.velocity == generated[i].3
            &&& note.generated
            &&& note.onset_ms == onset_of(generated, base, i)
            &&& (forall|k: int| !#[trigger] is_next_of_pitch(generated, i, k)) ==> note.duration_ms
                == full_duration(generated[i])
        }
    &&& forall|i: int, k: int|
        0 <= i < new.len() && #[trigger] is_next_of_pitch(generated, i, k) ==> {
            let room = onset_of(generated, base, k) - onset_of(generated, base, i);
            new[i].duration_ms == if full_duration(generated[i]) <= room {
                full_duration(generated[i])
            } else if room >= 1 {
                room
            } else {
                1
            }
        }
}

proof fn distance_of_prefix(generated: Seq<ModelNote>, rest: Seq<ModelNote>, count: int)
    requires
        generated.len() > 0,
        rest == generated.drop_last(),
        count <= rest.len(),
    ensures
        distance_over(rest, count) == distance_over(generated, count),
        distance_over(generated, count) >= 0,
    decreases count,
{
    if count > 0 {
        distance_of_prefix(generated, rest, count - 1);
    }
}

proof fn last_onset_is_the_sum(generated: Seq<ModelNote>, base: u64)
    ensures
        onset_of_last(generated, base) == onset_of(generated, base, generated.len() - 1),
        distance_over(generated, generated.len() as int) >= 0,
    decreases generated.len(),
{
    if generated.len() > 0 {
        let rest = generated.drop_last();
        last_onset_is_the_sum(rest, base);
        distance_of_prefix(generated, rest, rest.len() as int);
    }
}

proof fn placed_continues(generated: Seq<ModelNote>, base: u64)
    ensures
        continues_with(generated, base, placed(generated, base)),
    decreases generated.len(),
{
    if generated.len() > 0 {
        let rest = generated.drop_last();
        let last = rest.len() as int;
        let pitch = generated[last].0;
        placed_continues(rest, base);
        placed_notes_follow_each_other(rest, base);
        placed_notes_follow_each_other(generated, base);
        last_onset_is_the_sum(generated, base);
        let before = placed(rest, base);
        let new = placed(generated, base);
        last_of_pitch_is_an_index(before, pitch);
        assert forall|i: int| 0 <= i < last implies #[trigger] onset_of(rest, base, i) == onset_of(
            generated,
            base,
            i,
        ) by {
            distance_of_prefix(generated, rest, i + 1);
        }
        assert forall|i: int| 0 <= i < last implies (#[trigger] before[i]).pitch == generated[i].0
            && before[i].onset_ms == onset_of(generated, base, i) by {
            assert(rest[i] == generated[i]);
            assert(before[i].onset_ms == onset_of(rest, base, i));
        }
        assert forall|i: int, k: int| 0 <= i < last && k < last implies #[trigger] is_next_of_pitch(
            rest,
            i,
            k,
        ) == is_next_of_pitch(generated, i, k) by {
            if is_next_of_pitch(rest, i, k) {
                assert forall|l: int| i < l < k implies (#[trigger] generated[l]).0
                    != generated[i].0 by {
                    assert(rest[l] == generated[l]);
                }
            }
            if is_next_of_pitch(generated, i, k) {
                assert forall|l: int| i < l < k implies (#[trigger] rest[l]).0 != rest[i].0 by {
                    assert(rest[l] == generated[l]);
                }
            }
        }
        let same = last_of_pitch(before, pitch);
        assert forall|i: int| 0 <= i < last implies (#[trigger] is_next_of_pitch(
            generated,
            i,
            last,
        ) <==> same == Some(i)) by {
            if same == Some(i) {
                assert forall|l: int| i < l < last implies (#[trigger] generated[l]).0
                    != generated[i].0 by {
                    assert(before[l].pitch != pitch);
                }
            }
            if is_next_of_pitch(generated, i, last) {
                assert(before[i].pitch == pitch);
                let m = same->0;
                if i < m {
                    assert(before[m].pitch == pitch);
                    assert(generated[m].0 != generated[i].0);
                }
            }
        }
        assert forall|i: int, k: int|
            0 <= i < new.len() && #[trigger] is_next_of_pitch(generated, i, k) implies {
            let room = onset_of(generated, base, k) - onset_of(generated, base, i);
            new[i].duration_ms == if full_duration(generated[i]) <= room {
                full_duration(generated[i])
            } else if room >= 1 {
                room
            } else {
                1
            }
        } by {
            assert(i < last);
            assert(rest[i] == generated[i]);
            if k < last {
                assert(is_next_of_pitch(rest, i, k));
                assert(onset_of(rest, base, i) == onset_of(generated, base, i));
                assert(onset_of(rest, base, k) == onset_of(generated, base, k));
                if is_next_of_pitch(generated, i, last) {
                    assert(generated[k].0 != generated[i].0);
                }
                assert(same != Some(i));
                assert(new[i] == before[i]);
            } else {
                assert(same == Some(i));
                assert forall|l: int| !#[trigger] is_next_of_pitch(rest, i, l) by {
                    if is_next_of_pitch(rest, i, l) {
                        assert(generated[l].0 != generated[i].0);
                        assert(rest[l] == generated[l]);
                    }
                }
                assert(before[i].duration_ms == full_duration(rest[i]));
                assert(before[i].onset_ms == onset_of(generated, base, i));
                assert(new[i] == cut_at(before[i], onset_of_last(generated, base)));
            }
        }
        assert forall|i: int| 0 <= i < new.len() implies {
            let note = #[trigger] new[i];
            &&& note.pitch == generated[i].0
            &&& note.velocity == generated[i].3
            &&& note.generated
            &&& note.onset_ms == onset_of(generated, base, i)
            &&& (forall|k: int| !#[trigger] is_next_of_pitch(generated, i, k)) ==> note.duration_ms
                == full_duration(generated[i])
        } by {
            if i < last {
                assert(before[i].onset_ms == onset_of(generated, base, i));
                assert(new[i].onset_ms == before[i].onset_ms);
                if forall|k: int| !#[trigger] is_next_of_pitch(generated, i, k) {
                    assert(!is_next_of_pitch(generated, i, last));
                    assert forall|k: int| !#[trigger] is_next_of_pitch(rest, i, k) by {
                        assert(!is_next_of_pitch(generated, i, k));
                    }
                    assert(rest[i] == generated[i]);
                    assert(new[i] == before[i]);
                }
            }
        }
    }
}

/// `after` is the timeline `notes` with a continuation from `base` on.
pub open spec fn continues(
    notes: Seq<Note>,
    generated: Seq<ModelNote>,
    musical_start_ms: Option<u64>,
    base: u64,
    from: Seq<int>,
    after: Seq<Note>,
) -> bool {
    &&& is_base(notes, musical_start_ms, base)
    &&& from.len() <= after.len()
    &&& remains(notes, base, from, after.take(from.len() as int))
    &&& continues_with(generated, base, after.skip(from.len() as int))
}

/// A continuation leaves the notes before it in place, and follows them as the model gave it.
pub proof fn continuations_keep_earlier_notes(
    notes: Seq<Note>,
    generated: Seq<ModelNote>,
    musical_start_ms: Option<u64>,
) -> (from: Seq<int>)
    ensures
        ({
            let base = continuation_base(notes, musical_start_ms);
            &&& continues(
                notes,
                generated,
                musical_start_ms,
                base,
                from,
                kept(notes, base) + placed(generated, base),
            )
            &&& first_start(placed(generated, base)) == if generated.len() == 0 {
                None
            } else {
                Some(onset_of(generated, base, 0) as u64)
            }
        }),
{
    let base = continuation_base(notes, musical_start_ms);
    the_last_played_note_starts_last(notes);
    placed_continues(generated, base);
    let from = kept_remains(notes, base);
    let after = kept(notes, base) + placed(generated, base);
    assert(after.take(from.len() as int) =~= kept(notes, base));
    assert(after.skip(from.len() as int) =~= placed(generated, base));
    from
}

/// The status tells how many notes were generated, or that there are none.
pub proof fn the_status_counts_the_notes(count: nat)
    ensures
        count > 0 ==> generated_status(count) == "Generated "@ + decimal(count)
            + " notes. Click Play to render them."@,
        generated_status(0) == "Model generated no notes"@,
{
}

} // verus!
