//! Which files have headers that `midly` can read.
//!
//! A header whose division has the upper byte 0x80 cannot be read: as a frame rate it counts as
//! negative, and it is the one byte that has no negative in eight bits. The functions here tell
//! whether such a header would be met.

use vstd::prelude::*;
use vstd::slice::slice_subrange;

verus! {

/// The four bytes from `at` on.
pub open spec fn tag_at(raw: Seq<u8>, at: int, tag: [u8; 4]) -> bool {
    &&& 0 <= at
    &&& at + 4 <= raw.len()
    &&& raw[at] == tag[0]
    &&& raw[at + 1] == tag[1]
    &&& raw[at + 2] == tag[2]
    &&& raw[at + 3] == tag[3]
}

/// The big-endian number in the four bytes from `at` on.
pub open spec fn big_endian_at(raw: Seq<u8>, at: int) -> int {
    raw[at] * 0x100_0000 + raw[at + 1] * 0x1_0000 + raw[at + 2] * 0x100 + raw[at + 3]
}

/// The little-endian number in the four bytes from `at` on.
pub open spec fn little_endian_at(raw: Seq<u8>, at: int) -> int {
    raw[at] + raw[at + 1] * 0x100 + raw[at + 2] * 0x1_0000 + raw[at + 3] * 0x100_0000
}

/// The end of a chunk that starts at `at` and holds `size` bytes, or the end of the file if
/// that comes first.
pub open spec fn chunk_end(raw: Seq<u8>, at: int, size: int) -> int {
    if at + 8 + size <= raw.len() { at + 8 + size } else { raw.len() as int }
}

/// The contents of a header chunk reach as far as its division, and its format exists.
pub open spec fn division_is_reached(raw: Seq<u8>, from: int, end: int) -> bool {
    from + 6 <= end && raw[from] == 0 && raw[from + 1] <= 2
}

/// A division stands for ticks of a quarter note, or it begins with one of the frame rates 24,
/// 25, 29 and 30, written as negative numbers.
pub open spec fn division_is_known(upper: u8) -> bool {
    upper < 0x80 || upper == 0xe8 || upper == 0xe7 || upper == 0xe3 || upper == 0xe2
}

/// The first header from `at` on that is met and cannot be read: where it starts, and whether a
/// header came before it. A header that is refused ends the file, and so does a track where no
/// header came before it.
pub open spec fn unreadable_chunk(raw: Seq<u8>, at: int, started: bool) -> Option<(int, bool)>
    decreases (if at <= raw.len() { raw.len() - at } else { 0 }),
{
    if at < 0 || raw.len() - at < 8 {
        None
    } else {
        let end = chunk_end(raw, at, big_endian_at(raw, at + 4));
        if tag_at(raw, at, [0x4d, 0x54, 0x68, 0x64]) {
            if !division_is_reached(raw, at + 8, end) {
                None
            } else if raw[at + 12] == 0x80 {
                Some((at, started))
            } else if division_is_known(raw[at + 12]) {
                unreadable_chunk(raw, end, true)
            } else {
                None
            }
        } else if tag_at(raw, at, [0x4d, 0x54, 0x72, 0x6b]) && !started {
            None
        } else {
            unreadable_chunk(raw, end, started)
        }
    }
}

/// Where the contents of the first `data` chunk from `at` on start and end. A chunk of an odd
/// size is followed by a byte that does not count.
pub open spec fn riff_data(raw: Seq<u8>, at: int) -> Option<(int, int)>
    decreases (if at <= raw.len() { raw.len() - at } else { 0 }),
{
    if at < 0 || raw.len() - at < 8 {
        None
    } else {
        let size = little_endian_at(raw, at + 4);
        let end = chunk_end(raw, at, size);
        if tag_at(raw, at, [0x64, 0x61, 0x74, 0x61]) {
            Some((at + 8, end))
        } else if size % 2 == 1 && end < raw.len() {
            riff_data(raw, end + 1)
        } else {
            riff_data(raw, end)
        }
    }
}

/// Where the chunks of a file start and end. They are the file itself if it begins with a header
/// chunk, or the data of a RIFF container of the form RMID; any other file is refused before a
/// header is read.
pub open spec fn midi_chunks(raw: Seq<u8>) -> Option<(int, int)> {
    if tag_at(raw, 0, [0x52, 0x49, 0x46, 0x46]) {
        if raw.len() < 8 {
            None
        } else {
            let form = raw.subrange(8, chunk_end(raw, 0, little_endian_at(raw, 4)));
            if !tag_at(form, 0, [0x52, 0x4d, 0x49, 0x44]) {
                None
            } else {
                match riff_data(form, 4) {
                    Some((from, end)) => Some((8 + from, 8 + end)),
                    None => None,
                }
            }
        }
    } else if tag_at(raw, 0, [0x4d, 0x54, 0x68, 0x64]) {
        Some((0, raw.len() as int))
    } else {
        None
    }
}

/// The first header of the file that is met and cannot be read: where it starts, and whether a
/// header came before it.
pub open spec fn unreadable_header(raw: Seq<u8>) -> Option<(int, bool)> {
    match midi_chunks(raw) {
        Some((from, end)) => match unreadable_chunk(raw.subrange(from, end), 0, false) {
            Some((at, later)) => Some((from + at, later)),
            None => None,
        },
        None => None,
    }
}

/// No header of the file is met that cannot be read.
pub open spec fn headers_readable(raw: Seq<u8>) -> bool {
    unreadable_header(raw) is None
}

proof fn chunks_before_can_be_read(raw: Seq<u8>, at: int, started: bool)
    requires
        0 <= at,
        unreadable_chunk(raw, at, started) is Some,
    ensures
        ({
            let (place, later) = unreadable_chunk(raw, at, started)->0;
            &&& at <= place
            &&& place + 14 <= raw.len()
            &&& unreadable_chunk(raw.take(place), at, started) is None
        }),
    decreases (if at <= raw.len() { raw.len() - at } else { 0 }),
{
    let (place, later) = unreadable_chunk(raw, at, started)->0;
    let size = big_endian_at(raw, at + 4);
    let end = chunk_end(raw, at, size);
    if place != at || !tag_at(raw, at, [0x4d, 0x54, 0x68, 0x64]) || raw[at + 12] != 0x80
        || !division_is_reached(raw, at + 8, end) {
        let before = raw.take(place);
        let now_started = started || tag_at(raw, at, [0x4d, 0x54, 0x68, 0x64]);
        chunks_before_can_be_read(raw, end, now_started);
        assert(big_endian_at(before, at + 4) == size);
        assert(chunk_end(before, at, size) == end);
    }
}

proof fn riff_data_holds_bytes(raw: Seq<u8>, at: int)
    requires
        0 <= at,
        riff_data(raw, at) is Some,
    ensures
        riff_data(raw, at) matches Some((from, end)) && at + 8 <= from <= end <= raw.len(),
    decreases (if at <= raw.len() { raw.len() - at } else { 0 }),
{
    let size = little_endian_at(raw, at + 4);
    let end = chunk_end(raw, at, size);
    if !tag_at(raw, at, [0x64, 0x61, 0x74, 0x61]) {
        riff_data_holds_bytes(raw, if size % 2 == 1 && end < raw.len() { end + 1 } else { end });
    }
}

proof fn riff_data_of_a_prefix(raw: Seq<u8>, at: int, len: int)
    requires
        0 <= at,
        riff_data(raw, at) matches Some((from, end)) && from <= len <= end,
    ensures
        riff_data(raw, at) matches Some((from, end)) && at + 8 <= from && end <= raw.len()
            && riff_data(raw.take(len), at) == Some((from, len)),
    decreases (if at <= raw.len() { raw.len() - at } else { 0 }),
{
    let size = little_endian_at(raw, at + 4);
    let end = chunk_end(raw, at, size);
    let before = raw.take(len);
    if tag_at(raw, at, [0x64, 0x61, 0x74, 0x61]) {
        assert(little_endian_at(before, at + 4) == size);
    } else {
        let next = if size % 2 == 1 && end < raw.len() { end + 1 } else { end };
        riff_data_of_a_prefix(raw, next, len);
        assert(little_endian_at(before, at + 4) == size);
        assert(chunk_end(before, at, size) == end);
    }
}

/// What comes before the first header that cannot be read can be read.
pub proof fn what_comes_before_can_be_read(raw: Seq<u8>)
    requires
        unreadable_header(raw) is Some,
    ensures
        unreadable_header(raw) matches Some((at, later)) && 0 <= at <= raw.len()
            && headers_readable(raw.take(at)),
{
    let (from, end) = midi_chunks(raw)->0;
    let (place, later) = unreadable_header(raw)->0;
    let before = raw.take(place);
    if tag_at(raw, 0, [0x52, 0x49, 0x46, 0x46]) {
        let size = little_endian_at(raw, 4);
        let form = raw.subrange(8, chunk_end(raw, 0, size));
        riff_data_holds_bytes(form, 4);
        let chunks = raw.subrange(from, end);
        chunks_before_can_be_read(chunks, 0, false);
        riff_data_of_a_prefix(form, 4, place - 8);
        assert(little_endian_at(before, 4) == size);
        assert(before.subrange(8, chunk_end(before, 0, size)) =~= form.take(place - 8));
        assert(midi_chunks(before) == Some((from, place)));
        assert(before.subrange(from, place) =~= chunks.take(place - from));
    } else {
        assert(raw.subrange(0, raw.len() as int) =~= raw);
        chunks_before_can_be_read(raw, 0, false);
        assert(before.subrange(0, place) =~= before);
    }
}

/// Compares the four bytes from `at` on.
fn has_tag(raw: &[u8], at: usize, tag: [u8; 4]) -> (same: bool)
    requires
        at <= raw@.len(),
    ensures
        same == tag_at(raw@, at as int, tag),
{
    raw.len() - at >= 4 && raw[at] == tag[0] && raw[at + 1] == tag[1] && raw[at + 2] == tag[2]
        && raw[at + 3] == tag[3]
}

/// Computes [`chunk_end`].
fn end_of_chunk(raw: &[u8], at: usize, size: u64) -> (end: usize)
    requires
        at + 8 <= raw@.len(),
    ensures
        end == chunk_end(raw@, at as int, size as int),
        at + 8 <= end <= raw@.len(),
{
    let left: usize = raw.len() - at - 8;
    if size > left as u64 {
        raw.len()
    } else {
        at + 8 + size as usize
    }
}

/// Computes [`unreadable_chunk`] of all chunks.
fn find_unreadable_chunk(raw: &[u8]) -> (found: Option<(usize, bool)>)
    ensures
        match unreadable_chunk(raw@, 0, false) {
            Some((at, later)) => found matches Some(found) && found.0 == at && found.1 == later
                && at <= raw@.len(),
            None => found is None,
        },
{
    let len = raw.len();
    let mut at: usize = 0;
    let mut started = false;
    while len - at >= 8
        invariant
            len == raw@.len(),
            at <= len,
            unreadable_chunk(raw@, 0, false) == unreadable_chunk(raw@, at as int, started),
        decreases len - at,
    {
        let size: u64 = raw[at + 4] as u64 * 0x100_0000 + raw[at + 5] as u64 * 0x1_0000
            + raw[at + 6] as u64 * 0x100 + raw[at + 7] as u64;
        assert(size == big_endian_at(raw@, at + 4));
        let end = end_of_chunk(raw, at, size);
        if has_tag(raw, at, [0x4d, 0x54, 0x68, 0x64]) {
            if end - at < 14 || raw[at + 8] != 0 || raw[at + 9] > 2 {
                return None;
            }
            let upper = raw[at + 12];
            if upper == 0x80 {
                return Some((at, started));
            }
            if !(upper < 0x80 || upper == 0xe8 || upper == 0xe7 || upper == 0xe3 || upper == 0xe2) {
                return None;
            }
            started = true;
        } else if has_tag(raw, at, [0x4d, 0x54, 0x72, 0x6b]) && !started {
            return None;
        }
        at = end;
    }
    None
}

/// Computes [`riff_data`].
fn find_data(raw: &[u8], start: usize) -> (found: Option<(usize, usize)>)
    requires
        start <= raw@.len(),
    ensures
        match riff_data(raw@, start as int) {
            Some((from, end)) => {
                &&& found matches Some(found)
                &&& found.0 == from
                &&& found.1 == end
                &&& from <= end <= raw@.len()
            },
            None => found is None,
        },
{
    let len = raw.len();
    let mut at: usize = start;
    while len - at >= 8
        invariant
            len == raw@.len(),
            at <= len,
            riff_data(raw@, start as int) == riff_data(raw@, at as int),
        decreases len - at,
    {
        let size: u64 = raw[at + 4] as u64 + raw[at + 5] as u64 * 0x100 + raw[at + 6] as u64
            * 0x1_0000 + raw[at + 7] as u64 * 0x100_0000;
        assert(size == little_endian_at(raw@, at + 4));
        let end = end_of_chunk(raw, at, size);
        if has_tag(raw, at, [0x64, 0x61, 0x74, 0x61]) {
            return Some((at + 8, end));
        }
        at = if size % 2 == 1 && end < len {
            end + 1
        } else {
            end
        };
    }
    None
}

/// Where the chunks of a file start and end, as [`midi_chunks`] says.
fn find_chunks(raw: &[u8]) -> (found: Option<(usize, usize)>)
    ensures
        match midi_chunks(raw@) {
            Some((from, end)) => {
                &&& found matches Some(found)
                &&& found.0 == from
                &&& found.1 == end
                &&& from <= end <= raw@.len()
            },
            None => found is None,
        },
{
    if has_tag(raw, 0, [0x52, 0x49, 0x46, 0x46]) {
        if raw.len() < 8 {
            return None;
        }
        let size: u64 = raw[4] as u64 + raw[5] as u64 * 0x100 + raw[6] as u64 * 0x1_0000
            + raw[7] as u64 * 0x100_0000;
        assert(size == little_endian_at(raw@, 4));
        let form = slice_subrange(raw, 8, end_of_chunk(raw, 0, size));
        if !has_tag(form, 0, [0x52, 0x4d, 0x49, 0x44]) {
            return None;
        }
        match find_data(form, 4) {
            Some((from, end)) => Some((8 + from, 8 + end)),
            None => None,
        }
    } else if has_tag(raw, 0, [0x4d, 0x54, 0x68, 0x64]) {
        Some((0, raw.len()))
    } else {
        None
    }
}

/// Finds the first header that is met and cannot be read, as [`unreadable_header`] says.
pub fn find_unreadable_header(raw: &[u8]) -> (found: Option<(usize, bool)>)
    ensures
        match unreadable_header(raw@) {
            Some((at, later)) => found matches Some(found) && found.0 == at && found.1 == later,
            None => found is None,
        },
{
    let (from, end) = match find_chunks(raw) {
        Some(bounds) => bounds,
        None => {
            return None;
        },
    };
    match find_unreadable_chunk(slice_subrange(raw, from, end)) {
        Some((at, later)) => Some((from + at, later)),
        None => None,
    }
}

/// Whether [`headers_readable`] holds.
pub fn check_headers(raw: &[u8]) -> (readable: bool)
    ensures
        readable == headers_readable(raw@),
{
    find_unreadable_header(raw).is_none()
}

/// The chunk that starts at `at` has a name of four letters.
pub open spec fn is_named(raw: Seq<u8>, at: int, a: char, b: char, c: char, d: char) -> bool {
    &&& raw[at] == a as int
    &&& raw[at + 1] == b as int
    &&& raw[at + 2] == c as int
    &&& raw[at + 3] == d as int
}

/// Where the chunk at `at` ends: eight bytes and its size further on, or with the file. The size
/// has its highest byte first.
pub open spec fn end_of(raw: Seq<u8>, at: int) -> int {
    let size = ((raw[at + 4] * 256 + raw[at + 5]) * 256 + raw[at + 6]) * 256 + raw[at + 7];
    if at + 8 + size > raw.len() { raw.len() as int } else { at + 8 + size }
}

/// `starts` names chunks that follow each other, from the start of the file on.
pub open spec fn is_walk(raw: Seq<u8>, starts: Seq<int>) -> bool {
    &&& starts.len() > 0
    &&& starts[0] == 0
    &&& forall|k: int|
        0 <= k < starts.len() - 1 ==> {
            &&& 0 <= #[trigger] starts[k]
            &&& starts[k] + 8 <= raw.len()
            &&& starts[k + 1] == end_of(raw, starts[k])
        }
}

/// A header chunk reaches as far as its division, and has one of the three formats.
pub open spec fn is_whole_header(raw: Seq<u8>, at: int) -> bool {
    &&& is_named(raw, at, 'M', 'T', 'h', 'd')
    &&& end_of(raw, at) >= at + 14
    &&& raw[at + 8] == 0
    &&& raw[at + 9] <= 2
}

/// Some chunk before the last of `starts` is a header.
pub open spec fn header_came(raw: Seq<u8>, starts: Seq<int>, count: int) -> bool {
    exists|k: int|
        0 <= k < count && is_named(raw, #[trigger] starts[k], 'M', 'T', 'h', 'd')
}

/// The reader passes over the chunk `k`: a whole header with a division that is known, a track
/// behind a header, or a chunk of another kind.
pub open spec fn is_passed(raw: Seq<u8>, starts: Seq<int>, k: int) -> bool {
    let at = starts[k];
    if is_named(raw, at, 'M', 'T', 'h', 'd') {
        &&& is_whole_header(raw, at)
        &&& raw[at + 12] < 128 || raw[at + 12] == 256 - 24 || raw[at + 12] == 256 - 25
            || raw[at + 12] == 256 - 29 || raw[at + 12] == 256 - 30
    } else if is_named(raw, at, 'M', 'T', 'r', 'k') {
        header_came(raw, starts, k)
    } else {
        true
    }
}

/// What becomes of a walk over the chunks: it ends at a header that cannot be read, at one that is
/// refused otherwise, at a track without a header, or at the end of the file.
pub open spec fn walk_ends(
    raw: Seq<u8>,
    starts: Seq<int>,
    found: Option<(int, bool)>,
) -> bool {
    let last = starts.len() - 1;
    let at = starts[last];
    &&& is_walk(raw, starts)
    &&& forall|k: int| 0 <= k < last ==> #[trigger] is_passed(raw, starts, k)
    &&& match found {
        Some((place, later)) => {
            &&& place == at
            &&& at + 8 <= raw.len()
            &&& is_whole_header(raw, at)
            &&& raw[at + 12] == 128
            &&& later == header_came(raw, starts, last)
        },
        None => {
            ||| at + 8 > raw.len()
            ||| !is_passed(raw, starts, last) && !(is_whole_header(raw, at) && raw[at + 12] == 128)
        },
    }
}

/// One more chunk leaves what was said of the chunks before as it is.
proof fn walk_extends(raw: Seq<u8>, before: Seq<int>, end: int)
    requires
        is_walk(raw, before),
        0 <= before.last(),
        before.last() + 8 <= raw.len(),
        end == end_of(raw, before.last()),
        forall|k: int| 0 <= k < before.len() ==> #[trigger] is_passed(raw, before, k),
    ensures
        is_walk(raw, before.push(end)),
        forall|k: int|
            0 <= k < before.len() ==> #[trigger] is_passed(raw, before.push(end), k),
        header_came(raw, before.push(end), before.len() as int) == (header_came(
            raw,
            before,
            before.len() - 1,
        ) || is_named(raw, before.last(), 'M', 'T', 'h', 'd')),
{
    let last = before.len() - 1;
    let longer = before.push(end);
    assert forall|k: int| 0 <= k < before.len() implies #[trigger] longer[k] == before[k] by {}
    assert forall|k: int| 0 <= k < longer.len() - 1 implies {
        &&& 0 <= #[trigger] longer[k]
        &&& longer[k] + 8 <= raw.len()
        &&& longer[k + 1] == end_of(raw, longer[k])
    } by {
        assert(longer[k] == before[k]);
        if k < last {
            assert(longer[k + 1] == before[k + 1]);
        }
    }
    assert forall|count: int| 0 <= count <= before.len() implies #[trigger] header_came(
        raw,
        longer,
        count,
    ) == header_came(raw, before, count) by {
        if header_came(raw, longer, count) {
            let k = choose|k: int|
                0 <= k < count && is_named(raw, #[trigger] longer[k], 'M', 'T', 'h', 'd');
            assert(before[k] == longer[k]);
        }
        if header_came(raw, before, count) {
            let k = choose|k: int|
                0 <= k < count && is_named(raw, #[trigger] before[k], 'M', 'T', 'h', 'd');
            assert(before[k] == longer[k]);
        }
    }
    assert forall|k: int| 0 <= k < before.len() implies #[trigger] is_passed(raw, longer, k) by {
        assert(is_passed(raw, before, k));
        assert(header_came(raw, longer, k) == header_came(raw, before, k));
    }
    assert(header_came(raw, longer, last + 1) == header_came(raw, before, last + 1));
    if is_named(raw, before[last], 'M', 'T', 'h', 'd') {
        assert(header_came(raw, before, last + 1));
    }
    if header_came(raw, before, last) {
        let k = choose|k: int|
            0 <= k < last && is_named(raw, #[trigger] before[k], 'M', 'T', 'h', 'd');
        assert(is_named(raw, before[k], 'M', 'T', 'h', 'd'));
        assert(header_came(raw, before, last + 1));
    }
}

/// What the walk does at its last chunk.
proof fn walk_meets(raw: Seq<u8>, before: Seq<int>, started: bool)
    requires
        before.len() > 0,
        0 <= before.last(),
        before.last() + 8 <= raw.len(),
        started == header_came(raw, before, before.len() - 1),
    ensures
        ({
            let at = before.last();
            let found = unreadable_chunk(raw, at, started);
            if is_passed(raw, before, before.len() - 1) {
                found == unreadable_chunk(
                    raw,
                    end_of(raw, at),
                    started || is_named(raw, at, 'M', 'T', 'h', 'd'),
                )
            } else if is_whole_header(raw, at) && raw[at + 12] == 128 {
                found == Some((at, started))
            } else {
                found is None
            }
        }),
        before.last() + 8 <= end_of(raw, before.last()) <= raw.len(),
{
    let at = before.last();
    let end = chunk_end(raw, at, big_endian_at(raw, at + 4));
    assert(end == end_of(raw, at));
    assert(tag_at(raw, at, [0x4d, 0x54, 0x68, 0x64]) == is_named(raw, at, 'M', 'T', 'h', 'd'));
    assert(tag_at(raw, at, [0x4d, 0x54, 0x72, 0x6b]) == is_named(raw, at, 'M', 'T', 'r', 'k'));
    assert(before[before.len() - 1] == at);
}

proof fn walk_goes_on(raw: Seq<u8>, before: Seq<int>, started: bool) -> (starts: Seq<int>)
    requires
        is_walk(raw, before),
        0 <= before.last() <= raw.len(),
        forall|k: int| 0 <= k < before.len() - 1 ==> #[trigger] is_passed(raw, before, k),
        started == header_came(raw, before, before.len() - 1),
    ensures
        walk_ends(raw, starts, unreadable_chunk(raw, before.last(), started)),
    decreases raw.len() - before.last(),
{
    let last = before.len() - 1;
    let at = before.last();
    if raw.len() - at < 8 {
        before
    } else {
        walk_meets(raw, before, started);
        if is_passed(raw, before, last) {
            let end = end_of(raw, at);
            walk_extends(raw, before, end);
            assert(before.push(end).last() == end);
            walk_goes_on(
                raw,
                before.push(end),
                started || is_named(raw, at, 'M', 'T', 'h', 'd'),
            )
        } else {
            before
        }
    }
}

/// The chunks of a file are walked over one after the other. A header that cannot be read is found
/// exactly if the walk comes to it, and it is told whether a header came before it.
pub proof fn chunks_are_walked_in_order(raw: Seq<u8>) -> (starts: Seq<int>)
    ensures
        walk_ends(raw, starts, unreadable_chunk(raw, 0, false)),
{
    let before = seq![0int];
    walk_goes_on(raw, before, false)
}

/// Where the contents of a chunk of a container end. The size has its lowest byte first.
pub open spec fn riff_end_of(raw: Seq<u8>, at: int) -> int {
    let size = raw[at + 4] + 256 * (raw[at + 5] + 256 * (raw[at + 6] + 256 * raw[at + 7]));
    if at + 8 + size > raw.len() { raw.len() as int } else { at + 8 + size }
}

/// `starts` names chunks of a container that follow each other from `first` on. A byte is skipped
/// behind a chunk of odd size, if there is one.
pub open spec fn is_riff_walk(raw: Seq<u8>, first: int, starts: Seq<int>) -> bool {
    &&& starts.len() > 0
    &&& starts[0] == first
    &&& forall|k: int|
        0 <= k < starts.len() - 1 ==> {
            let end = riff_end_of(raw, #[trigger] starts[k]);
            &&& 0 <= starts[k]
            &&& starts[k] + 8 <= raw.len()
            &&& starts[k + 1] == end + if raw[starts[k] + 4] % 2 == 1 && end < raw.len() {
                1int
            } else {
                0
            }
        }
}

/// The walk ends at the first chunk of data, or at the end of the container.
pub open spec fn riff_walk_ends(
    raw: Seq<u8>,
    first: int,
    starts: Seq<int>,
    found: Option<(int, int)>,
) -> bool {
    let last = starts.len() - 1;
    let at = starts[last];
    &&& is_riff_walk(raw, first, starts)
    &&& forall|k: int|
        0 <= k < last ==> !is_named(raw, #[trigger] starts[k], 'd', 'a', 't', 'a')
    &&& match found {
        Some((from, end)) => {
            &&& at + 8 <= raw.len()
            &&& is_named(raw, at, 'd', 'a', 't', 'a')
            &&& from == at + 8
            &&& end == riff_end_of(raw, at)
        },
        None => at + 8 > raw.len(),
    }
}

proof fn riff_walk_goes_on(raw: Seq<u8>, first: int, before: Seq<int>) -> (starts: Seq<int>)
    requires
        is_riff_walk(raw, first, before),
        0 <= before.last() <= raw.len(),
        forall|k: int|
            0 <= k < before.len() - 1 ==> !is_named(
                raw,
                #[trigger] before[k],
                'd',
                'a',
                't',
                'a',
            ),
    ensures
        riff_walk_ends(raw, first, starts, riff_data(raw, before.last())),
    decreases raw.len() - before.last(),
{
    let last = before.len() - 1;
    let at = before[last];
    assert(before.last() == at);
    if raw.len() - at < 8 {
        before
    } else {
        let size = little_endian_at(raw, at + 4);
        let end = chunk_end(raw, at, size);
        assert(end == riff_end_of(raw, at));
        assert(size % 2 == raw[at + 4] % 2);
        assert(tag_at(raw, at, [0x64, 0x61, 0x74, 0x61]) == is_named(raw, at, 'd', 'a', 't', 'a'));
        if is_named(raw, at, 'd', 'a', 't', 'a') {
            before
        } else {
            let next = if size % 2 == 1 && end < raw.len() {
                end + 1
            } else {
                end
            };
            let longer = before.push(next);
            assert(is_riff_walk(raw, first, longer)) by {
                assert forall|k: int| 0 <= k < longer.len() - 1 implies {
                    let end = riff_end_of(raw, #[trigger] longer[k]);
                    &&& 0 <= longer[k]
                    &&& longer[k] + 8 <= raw.len()
                    &&& longer[k + 1] == end + if raw[longer[k] + 4] % 2 == 1 && end < raw.len() {
                        1int
                    } else {
                        0
                    }
                } by {
                    if k < last {
                        assert(longer[k] == before[k]);
                        assert(longer[k + 1] == before[k + 1]);
                    }
                }
            }
            assert forall|k: int| 0 <= k < longer.len() - 1 implies !is_named(
                raw,
                #[trigger] longer[k],
                'd',
                'a',
                't',
                'a',
            ) by {
                assert(longer[k] == before[k]);
            }
            assert(longer.last() == next);
            riff_walk_goes_on(raw, first, longer)
        }
    }
}

/// The data of a container are the contents of its first chunk of that name.
pub proof fn containers_are_walked_in_order(raw: Seq<u8>, first: int) -> (starts: Seq<int>)
    requires
        0 <= first <= raw.len(),
    ensures
        riff_walk_ends(raw, first, starts, riff_data(raw, first)),
{
    riff_walk_goes_on(raw, first, seq![first])
}

/// The chunks of a file are all of it if it begins with a header, or the data of the container that
/// it is. A file that is neither has none.
pub proof fn files_begin_with_a_header_or_a_container(raw: Seq<u8>)
    ensures
        ({
            let is_header = raw.len() >= 4 && is_named(raw, 0, 'M', 'T', 'h', 'd');
            let is_container = raw.len() >= 8 && is_named(raw, 0, 'R', 'I', 'F', 'F');
            let form = raw.subrange(8, riff_end_of(raw, 0));
            &&& is_header ==> midi_chunks(raw) == Some((0int, raw.len() as int))
            &&& !is_header && !is_container ==> midi_chunks(raw) is None
            &&& is_container && !(form.len() >= 4 && is_named(form, 0, 'R', 'M', 'I', 'D'))
                ==> midi_chunks(raw) is None
            &&& is_container && form.len() >= 4 && is_named(form, 0, 'R', 'M', 'I', 'D') ==> (
            match riff_data(form, 4) {
                Some((from, end)) => midi_chunks(raw) == Some((from + 8, end + 8)),
                None => midi_chunks(raw) is None,
            })
        }),
{
    assert(tag_at(raw, 0, [0x52, 0x49, 0x46, 0x46]) == (raw.len() >= 4 && is_named(
        raw,
        0,
        'R',
        'I',
        'F',
        'F',
    )));
    assert(tag_at(raw, 0, [0x4d, 0x54, 0x68, 0x64]) == (raw.len() >= 4 && is_named(
        raw,
        0,
        'M',
        'T',
        'h',
        'd',
    )));
    if raw.len() >= 8 {
        let form = raw.subrange(8, riff_end_of(raw, 0));
        assert(chunk_end(raw, 0, little_endian_at(raw, 4)) == riff_end_of(raw, 0));
        assert(tag_at(form, 0, [0x52, 0x4d, 0x49, 0x44]) == (form.len() >= 4 && is_named(
            form,
            0,
            'R',
            'M',
            'I',
            'D',
        )));
    }
}

/// A header of the file that cannot be read is one of its chunks, counted from the start of the
/// file.
pub proof fn unreadable_headers_are_counted_from_the_start(raw: Seq<u8>)
    ensures
        match midi_chunks(raw) {
            Some((from, end)) => match unreadable_chunk(raw.subrange(from, end), 0, false) {
                Some((at, later)) => unreadable_header(raw) == Some((from + at, later)),
                None => headers_readable(raw),
            },
            None => headers_readable(raw),
        },
{
}

} // verus!
