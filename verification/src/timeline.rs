//! The stretch of time that the timeline shows.

use crate::state::{
    earliest_onset, earliest_onset_is_the_minimum, ends_fit, first_onset, last_end, latest_end,
    latest_end_is_the_maximum, Note,
};
use vstd::prelude::*;

verus! {

/// From the first onset to the last end; the playhead widens the end, and stands for both if
/// there are no notes.
pub open spec fn bounds_of(notes: Seq<Note>, playhead: Option<u64>) -> Option<(u64, u64)> {
    match (earliest_onset(notes), playhead) {
        (Some(start), Some(head)) => Some(
            (start, if head > latest_end(notes) { head } else { latest_end(notes) as u64 }),
        ),
        (Some(start), None) => Some((start, latest_end(notes) as u64)),
        (None, Some(head)) => Some((head, head)),
        (None, None) => None,
    }
}

/// The stretch that shows all notes and the playhead.
pub fn timeline_bounds(notes: &[Note], playhead: Option<u64>) -> (bounds: Option<(u64, u64)>)
    requires
        ends_fit(notes@),
    ensures
        bounds == bounds_of(notes@, playhead),
{
    let start = match first_onset(notes) {
        Some(onset) => onset,
        None => {
            proof {
                earliest_onset_is_the_minimum(notes@);
            }
            return match playhead {
                Some(head) => Some((head, head)),
                None => None,
            };
        },
    };
    let mut end = last_end(notes);
    if let Some(head) = playhead {
        if head > end {
            end = head;
        }
    }
    Some((start, end))
}

/// Every note lies within the bounds, and so does the playhead unless it comes before the
/// first note.
pub proof fn bounds_hold_everything(notes: Seq<Note>, playhead: Option<u64>)
    requires
        ends_fit(notes),
        bounds_of(notes, playhead) is Some,
    ensures
        ({
            let (start, end) = bounds_of(notes, playhead)->0;
            &&& start <= end
            &&& forall|i: int|
                0 <= i < notes.len() ==> start <= (#[trigger] notes[i]).onset_ms && notes[i].end()
                    <= end
            &&& playhead matches Some(head) ==> head <= end
        }),
{
    earliest_onset_is_the_minimum(notes);
    latest_end_is_the_maximum(notes);
    if notes.len() > 0 {
        let k = choose|i: int|
            0 <= i < notes.len() && (#[trigger] notes[i]).end() == latest_end(notes);
        assert(notes[k].end() <= u64::MAX);
        assert(earliest_onset(notes)->0 <= notes[k].onset_ms);
    }
}

/// The position `offset_ms` after the start of the bounds, and no later than their end.
pub fn seek_position(bounds: (u64, u64), offset_ms: u64) -> (position: u64)
    ensures
        position == if bounds.0 + offset_ms <= bounds.1 {
            bounds.0 + offset_ms
        } else {
            bounds.1 as int
        },
{
    let position = bounds.0.saturating_add(offset_ms);
    if position <= bounds.1 {
        position
    } else {
        bounds.1
    }
}

/// The bounds reach no further than they must: they start at an onset and end at the end of a note
/// or at the playhead. Without notes the playhead stands for both, and without either there are
/// none.
pub proof fn bounds_are_tight(notes: Seq<Note>, playhead: Option<u64>)
    requires
        ends_fit(notes),
    ensures
        bounds_of(notes, playhead) is None <==> notes.len() == 0 && playhead is None,
        notes.len() == 0 && playhead is Some ==> bounds_of(notes, playhead) == Some(
            (playhead->0, playhead->0),
        ),
        notes.len() > 0 ==> {
            let (start, end) = bounds_of(notes, playhead)->0;
            &&& exists|i: int| 0 <= i < notes.len() && (#[trigger] notes[i]).onset_ms == start
            &&& playhead == Some(end) || exists|i: int|
                0 <= i < notes.len() && (#[trigger] notes[i]).onset_ms + notes[i].duration_ms
                    == end
        },
{
    earliest_onset_is_the_minimum(notes);
    latest_end_is_the_maximum(notes);
    if notes.len() > 0 {
        let first = choose|i: int|
            0 <= i < notes.len() && (#[trigger] notes[i]).onset_ms == earliest_onset(notes)->0;
        let last = choose|i: int|
            0 <= i < notes.len() && (#[trigger] notes[i]).end() == latest_end(notes);
        assert(notes[last].end() <= u64::MAX);
        let (start, end) = bounds_of(notes, playhead)->0;
        assert(notes[first].onset_ms == start);
        assert(playhead == Some(end) || notes[last].onset_ms + notes[last].duration_ms == end);
    }
}

} // verus!
