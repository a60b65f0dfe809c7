//! The line protocol of the continuation model and the location of its checkpoint.

use crate::order::{
    key_le, sort_by_key, stable_sort, stable_sort_reorders, stable_sort_sorts, Keyed,
};
use crate::state::Note;
use crate::text::{
    append_decimal, begins_with, chars_of, decimal, decimal_is_digits, find_char, first_place,
    first_place_is_least, is_digit, is_white, join, leading_white, number_value,
    number_value_undoes_decimal, part_contents, prefixes_come_first, read_number, split,
    split_chars, split_undoes_join, starts_with, trimmed_len, without_leading_white,
    without_trailing_white, NumberError,
};
use vstd::prelude::*;
use vstd::string::*;

verus! {

/// A note as the model sees it: pitch, distance from the onset before it, duration, velocity.
pub type ModelNote = (u8, u64, u64, u8);

/// The numbers of a list; the first part that is none decides otherwise.
pub open spec fn numbers(parts: Seq<Seq<char>>) -> Result<Seq<u64>, NumberError>
    decreases parts.len(),
{
    if parts.len() == 0 {
        Ok(Seq::empty())
    } else {
        match numbers(parts.drop_last()) {
            Err(error) => Err(error),
            Ok(values) => match number_value(parts.last()) {
                Err(error) => Err(error),
                Ok(value) => Ok(values.push(value)),
            },
        }
    }
}

/// The note that a text stands for, or what is wrong with it.
pub open spec fn note_value(text: Seq<char>) -> Result<ModelNote, Seq<char>> {
    match numbers(split(text, ',')) {
        Err(error) => Err(error.text()),
        Ok(values) => if values.len() != 4 {
            Err("invalid model note"@)
        } else if values[0] > 127 {
            Err("model pitch is outside 0..127"@)
        } else if values[3] > 127 {
            Err("model velocity is outside 0..127"@)
        } else {
            Ok((values[0] as u8, values[1], values[2], values[3] as u8))
        },
    }
}

/// The notes of a list of texts; the first that is none decides otherwise.
pub open spec fn note_values(texts: Seq<Seq<char>>) -> Result<Seq<ModelNote>, Seq<char>>
    decreases texts.len(),
{
    if texts.len() == 0 {
        Ok(Seq::empty())
    } else {
        match note_values(texts.drop_last()) {
            Err(text) => Err(text),
            Ok(notes) => match note_value(texts.last()) {
                Err(text) => Err(text),
                Ok(note) => Ok(notes.push(note)),
            },
        }
    }
}

/// The notes of a reply body, or what is wrong with it. An empty body holds none.
pub open spec fn generated_notes(body: Seq<char>) -> Result<Seq<ModelNote>, Seq<char>> {
    if body.len() == 0 {
        Ok(Seq::empty())
    } else {
        note_values(split(body, ';'))
    }
}

proof fn numbers_fail_early(parts: Seq<Seq<char>>, count: int)
    requires
        0 <= count <= parts.len(),
        numbers(parts.take(count)) is Err,
    ensures
        numbers(parts) == numbers(parts.take(count)),
    decreases parts.len(),
{
    if count == parts.len() {
        assert(parts.take(count) =~= parts);
    } else {
        assert(parts.drop_last().take(count) =~= parts.take(count));
        numbers_fail_early(parts.drop_last(), count);
    }
}

proof fn note_values_fail_early(texts: Seq<Seq<char>>, count: int)
    requires
        0 <= count <= texts.len(),
        note_values(texts.take(count)) is Err,
    ensures
        note_values(texts) == note_values(texts.take(count)),
    decreases texts.len(),
{
    if count == texts.len() {
        assert(texts.take(count) =~= texts);
    } else {
        assert(texts.drop_last().take(count) =~= texts.take(count));
        note_values_fail_early(texts.drop_last(), count);
    }
}

fn read_numbers(parts: &Vec<Vec<char>>) -> (values: Result<Vec<u64>, NumberError>)
    ensures
        match numbers(part_contents(parts@)) {
            Ok(expected) => values matches Ok(found) && found@ == expected,
            Err(error) => values == Err::<Vec<u64>, NumberError>(error),
        },
{
    let ghost texts = part_contents(parts@);
    let mut values: Vec<u64> = Vec::new();
    let mut i: usize = 0;
    while i < parts.len()
        invariant
            i <= parts.len(),
            texts == part_contents(parts@),
            numbers(texts.take(i as int)) == Ok::<Seq<u64>, NumberError>(values@),
        decreases parts.len() - i,
    {
        assert(texts.take(i + 1).drop_last() =~= texts.take(i as int));
        assert(texts.take(i + 1).last() == parts@[i as int]@);
        match read_number(&parts[i]) {
            Ok(value) => {
                values.push(value);
            },
            Err(error) => {
                proof {
                    numbers_fail_early(texts, i + 1);
                }
                return Err(error);
            },
        }
        i = i + 1;
    }
    assert(texts.take(texts.len() as int) =~= texts);
    Ok(values)
}

fn read_note(text: &Vec<char>) -> (note: Result<ModelNote, String>)
    ensures
        match note_value(text@) {
            Ok(expected) => note == Ok::<ModelNote, String>(expected),
            Err(expected) => note matches Err(found) && found@ == expected,
        },
{
    let values = match read_numbers(&split_chars(text, ',')) {
        Ok(values) => values,
        Err(error) => {
            return Err(error.message());
        },
    };
    if values.len() != 4 {
        return Err("invalid model note".to_owned());
    }
    if values[0] > 127 {
        return Err("model pitch is outside 0..127".to_owned());
    }
    if values[3] > 127 {
        return Err("model velocity is outside 0..127".to_owned());
    }
    Ok((values[0] as u8, values[1], values[2], values[3] as u8))
}

fn read_notes(body: &Vec<char>) -> (notes: Result<Vec<ModelNote>, String>)
    ensures
        match generated_notes(body@) {
            Ok(expected) => notes matches Ok(found) && found@ == expected,
            Err(expected) => notes matches Err(found) && found@ == expected,
        },
{
    let mut notes: Vec<ModelNote> = Vec::new();
    if body.len() == 0 {
        return Ok(notes);
    }
    let parts = split_chars(body, ';');
    let ghost texts = part_contents(parts@);
    let mut i: usize = 0;
    while i < parts.len()
        invariant
            i <= parts.len(),
            body@.len() > 0,
            texts == part_contents(parts@),
            texts == split(body@, ';'),
            note_values(texts.take(i as int)) == Ok::<Seq<ModelNote>, Seq<char>>(notes@),
        decreases parts.len() - i,
    {
        assert(texts.take(i + 1).drop_last() =~= texts.take(i as int));
        assert(texts.take(i + 1).last() == parts@[i as int]@);
        match read_note(&parts[i]) {
            Ok(note) => {
                notes.push(note);
            },
            Err(text) => {
                proof {
                    note_values_fail_early(texts, i + 1);
                }
                return Err(text);
            },
        }
        i = i + 1;
    }
    assert(texts.take(texts.len() as int) =~= texts);
    Ok(notes)
}

/// Reads the notes of a reply body.
pub fn parse_generated_notes(body: &str) -> (notes: Result<Vec<ModelNote>, String>)
    ensures
        match generated_notes(body@) {
            Ok(expected) => notes matches Ok(found) && found@ == expected,
            Err(expected) => notes matches Err(found) && found@ == expected,
        },
{
    read_notes(&chars_of(body))
}

/// A duration of at least one step.
pub open spec fn at_least_one(steps: u64) -> u64 {
    if steps == 0 { 1 } else { steps }
}

/// The text of a note in a prompt.
pub open spec fn note_text(note: ModelNote) -> Seq<char> {
    join(
        seq![
            decimal(note.0 as nat),
            decimal(note.1 as nat),
            decimal(at_least_one(note.2) as nat),
            decimal(note.3 as nat),
        ],
        ',',
    )
}

/// The text of a prompt.
pub open spec fn prompt_text(notes: Seq<ModelNote>) -> Seq<char> {
    join(Seq::new(notes.len(), |i: int| note_text(notes[i])), ';')
}

/// Writes a prompt: the notes with their times in steps. No note is shorter than a step.
pub fn prompt(notes: &Vec<ModelNote>) -> (text: String)
    ensures
        text@ == prompt_text(notes@),
{
    let ghost texts = Seq::new(notes@.len(), |i: int| note_text(notes@[i]));
    let mut text = String::new();
    proof {
        reveal_strlit(",");
        reveal_strlit(";");
        assert(","@ =~= seq![',']);
        assert(";"@ =~= seq![';']);
    }
    let mut i: usize = 0;
    assert(text@ =~= join(texts.take(0), ';'));
    while i < notes.len()
        invariant
            i <= notes.len(),
            texts == Seq::new(notes@.len(), |i: int| note_text(notes@[i])),
            text@ == join(texts.take(i as int), ';'),
            ","@ == seq![','],
            ";"@ == seq![';'],
        decreases notes.len() - i,
    {
        let ghost before = text@;
        let note = notes[i];
        if i > 0 {
            text.append(";");
        }
        let ghost start = text@;
        append_decimal(&mut text, note.0 as u64);
        text.append(",");
        append_decimal(&mut text, note.1);
        text.append(",");
        append_decimal(&mut text, if note.2 == 0 { 1 } else { note.2 });
        text.append(",");
        append_decimal(&mut text, note.3 as u64);
        proof {
            note_text_unfolds(note);
            assert(text@ =~= start + note_text(note));
            assert(texts.take(i + 1).drop_last() =~= texts.take(i as int));
            if i == 0 {
                assert(before =~= Seq::empty());
            } else {
                assert(start =~= before.push(';'));
            }
            assert(text@ =~= join(texts.take(i + 1), ';'));
        }
        i = i + 1;
    }
    assert(texts.take(texts.len() as int) =~= texts);
    text
}

proof fn note_text_unfolds(note: ModelNote)
    ensures
        note_text(note) == decimal(note.0 as nat).push(',') + decimal(note.1 as nat).push(',')
            + decimal(at_least_one(note.2) as nat).push(',') + decimal(note.3 as nat),
{
    let a = decimal(note.0 as nat);
    let b = decimal(note.1 as nat);
    let c = decimal(at_least_one(note.2) as nat);
    let d = decimal(note.3 as nat);
    let parts = seq![a, b, c, d];
    assert(parts.drop_last() =~= seq![a, b, c]);
    assert(seq![a, b, c].drop_last() =~= seq![a, b]);
    assert(seq![a, b].drop_last() =~= seq![a]);
    assert(join(seq![a], ',') == a);
    assert(join(seq![a, b], ',') =~= a.push(',') + b);
    assert(join(seq![a, b, c], ',') =~= a.push(',') + b.push(',') + c);
    assert(join(parts, ',') =~= a.push(',') + b.push(',') + c.push(',') + d);
}

/// Reading a prompt back gives its notes, none of them shorter than a step.
pub proof fn reading_undoes_prompting(notes: Seq<ModelNote>)
    requires
        forall|i: int|
            0 <= i < notes.len() ==> (#[trigger] notes[i]).0 <= 127 && notes[i].3 <= 127,
    ensures
        generated_notes(prompt_text(notes)) == Ok::<Seq<ModelNote>, Seq<char>>(
            Seq::new(
                notes.len(),
                |i: int| (notes[i].0, notes[i].1, at_least_one(notes[i].2), notes[i].3),
            ),
        ),
{
    let texts = Seq::new(notes.len(), |i: int| note_text(notes[i]));
    let read = Seq::new(
        notes.len(),
        |i: int| (notes[i].0, notes[i].1, at_least_one(notes[i].2), notes[i].3),
    );
    if notes.len() == 0 {
        assert(read =~= Seq::empty());
    } else {
        assert forall|i: int| 0 <= i < texts.len() implies !(#[trigger] texts[i]).contains(';')
            by {
            note_text_has_no_semicolon(notes[i]);
        }
        split_undoes_join(texts, ';');
        assert forall|i: int| 0 <= i < texts.len() implies note_value(#[trigger] texts[i]) == Ok::<
            ModelNote,
            Seq<char>,
        >(read[i]) by {
            note_value_undoes_note_text(notes[i]);
        }
        note_values_of_good_texts(texts, read);
        assert(prompt_text(notes).len() > 0) by {
            if prompt_text(notes).len() == 0 {
                assert(split(prompt_text(notes), ';') =~= seq![Seq::empty()]);
                note_text_unfolds(notes[0]);
                assert(texts[0].len() > 0);
            }
        }
    }
}

proof fn note_values_of_good_texts(texts: Seq<Seq<char>>, notes: Seq<ModelNote>)
    requires
        texts.len() == notes.len(),
        forall|i: int|
            0 <= i < texts.len() ==> note_value(#[trigger] texts[i]) == Ok::<ModelNote, Seq<char>>(
                notes[i],
            ),
    ensures
        note_values(texts) == Ok::<Seq<ModelNote>, Seq<char>>(notes),
    decreases texts.len(),
{
    if texts.len() == 0 {
        assert(notes =~= Seq::empty());
    } else {
        assert forall|i: int| 0 <= i < texts.len() - 1 implies note_value(
            #[trigger] texts.drop_last()[i],
        ) == Ok::<ModelNote, Seq<char>>(notes.drop_last()[i]) by {
            assert(note_value(texts[i]) == Ok::<ModelNote, Seq<char>>(notes[i]));
        }
        note_values_of_good_texts(texts.drop_last(), notes.drop_last());
        assert(note_value(texts[texts.len() - 1]) == Ok::<ModelNote, Seq<char>>(
            notes[notes.len() - 1],
        ));
        assert(notes.drop_last().push(notes.last()) =~= notes);
    }
}

proof fn decimal_lacks(n: nat, c: char)
    requires
        !is_digit(c),
    ensures
        !decimal(n).contains(c),
{
    decimal_is_digits(n);
    if decimal(n).contains(c) {
        let i = choose|i: int| 0 <= i < decimal(n).len() && decimal(n)[i] == c;
        assert(is_digit(decimal(n)[i]));
    }
}

proof fn note_text_has_no_semicolon(note: ModelNote)
    ensures
        !note_text(note).contains(';'),
{
    note_text_unfolds(note);
    let a = decimal(note.0 as nat);
    let b = decimal(note.1 as nat);
    let c = decimal(at_least_one(note.2) as nat);
    let d = decimal(note.3 as nat);
    decimal_lacks(note.0 as nat, ';');
    decimal_lacks(note.1 as nat, ';');
    decimal_lacks(at_least_one(note.2) as nat, ';');
    decimal_lacks(note.3 as nat, ';');
    let text = note_text(note);
    assert forall|i: int| 0 <= i < text.len() implies text[i] != ';' by {
        let ab = a.push(',') + b.push(',');
        let abc = ab + c.push(',');
        if i < a.len() {
            assert(text[i] == a[i]);
        } else if i == a.len() {
        } else if i < a.len() + 1 + b.len() {
            assert(text[i] == b[i - a.len() - 1]);
        } else if i == ab.len() - 1 {
        } else if i < ab.len() + c.len() {
            assert(text[i] == c[i - ab.len()]);
        } else if i == abc.len() - 1 {
        } else {
            assert(text[i] == d[i - abc.len()]);
        }
    }
}

proof fn note_value_undoes_note_text(note: ModelNote)
    requires
        note.0 <= 127,
        note.3 <= 127,
    ensures
        note_value(note_text(note)) == Ok::<ModelNote, Seq<char>>(
            (note.0, note.1, at_least_one(note.2), note.3),
        ),
{
    let a = decimal(note.0 as nat);
    let b = decimal(note.1 as nat);
    let c = decimal(at_least_one(note.2) as nat);
    let d = decimal(note.3 as nat);
    let parts = seq![a, b, c, d];
    decimal_lacks(note.0 as nat, ',');
    decimal_lacks(note.1 as nat, ',');
    decimal_lacks(at_least_one(note.2) as nat, ',');
    decimal_lacks(note.3 as nat, ',');
    assert forall|i: int| 0 <= i < parts.len() implies !(#[trigger] parts[i]).contains(',') by {
        if i == 0 {
        } else if i == 1 {
        } else if i == 2 {
        } else {
        }
    }
    split_undoes_join(parts, ',');
    number_value_undoes_decimal(note.0 as u64);
    number_value_undoes_decimal(note.1);
    number_value_undoes_decimal(at_least_one(note.2));
    number_value_undoes_decimal(note.3 as u64);
    let none: Seq<Seq<char>> = Seq::empty();
    assert(parts.drop_last() =~= seq![a, b, c]);
    assert(seq![a, b, c].drop_last() =~= seq![a, b]);
    assert(seq![a, b].drop_last() =~= seq![a]);
    assert(seq![a].drop_last() =~= none);
    assert(numbers(none) == Ok::<Seq<u64>, NumberError>(Seq::empty()));
    assert(numbers(seq![a])->Ok_0 =~= seq![note.0 as u64]);
    assert(numbers(seq![a, b])->Ok_0 =~= seq![note.0 as u64, note.1]);
    assert(numbers(seq![a, b, c])->Ok_0 =~= seq![note.0 as u64, note.1, at_least_one(note.2)]);
    assert(numbers(parts)->Ok_0 =~= seq![
        note.0 as u64,
        note.1,
        at_least_one(note.2),
        note.3 as u64,
    ]);
}

/// Whether a note belongs to the prompt: it was played, and it starts no later than the
/// cursor, if there is one.
pub open spec fn is_prompted(note: Note, musical_end_ms: Option<u64>) -> bool {
    !note.generated && (musical_end_ms matches Some(end) ==> note.onset_ms <= end)
}

/// The notes that belong to the prompt.
pub open spec fn prompted(notes: Seq<Note>, musical_end_ms: Option<u64>) -> Seq<Note>
    decreases notes.len(),
{
    if notes.len() == 0 {
        Seq::empty()
    } else if is_prompted(notes.last(), musical_end_ms) {
        prompted(notes.drop_last(), musical_end_ms).push(notes.last())
    } else {
        prompted(notes.drop_last(), musical_end_ms)
    }
}

/// Notes in order as the model sees them, with times in milliseconds.
pub open spec fn relative(notes: Seq<Note>) -> Seq<ModelNote> {
    Seq::new(
        notes.len(),
        |i: int|
            (
                notes[i].pitch,
                if i == 0 { 0 } else { (notes[i].onset_ms - notes[i - 1].onset_ms) as u64 },
                notes[i].duration_ms,
                notes[i].velocity,
            ),
    )
}

/// The notes of a prompt by onset and pitch, each with the milliseconds since the onset
/// before it.
pub fn prompt_notes(notes: &[Note], musical_end_ms: Option<u64>) -> (selected: Vec<ModelNote>)
    ensures
        selected@ == relative(stable_sort(prompted(notes@, musical_end_ms))),
        exists|chosen: Seq<int>| #[trigger] tells(notes@, musical_end_ms, chosen, selected@),
{
    let mut chosen: Vec<Note> = Vec::new();
    let mut i: usize = 0;
    while i < notes.len()
        invariant
            i <= notes.len(),
            chosen@ == prompted(notes@.take(i as int), musical_end_ms),
        decreases notes.len() - i,
    {
        assert(notes@.take(i + 1).drop_last() =~= notes@.take(i as int));
        let note = notes[i];
        let in_time = match musical_end_ms {
            Some(end) => note.onset_ms <= end,
            None => true,
        };
        if !note.generated && in_time {
            chosen.push(note);
        }
        i = i + 1;
    }
    assert(notes@.take(notes.len() as int) =~= notes@);
    let ordered = sort_by_key(&chosen);
    proof {
        stable_sort_sorts(chosen@);
    }
    let mut selected: Vec<ModelNote> = Vec::new();
    let mut k: usize = 0;
    while k < ordered.len()
        invariant
            k <= ordered.len(),
            crate::order::is_sorted(ordered@),
            selected@ == relative(ordered@).take(k as int),
        decreases ordered.len() - k,
    {
        let note = ordered[k];
        let delta: u64 = if k == 0 {
            0
        } else {
            assert(key_le(ordered@[k - 1].key(), ordered@[k as int].key()));
            note.onset_ms - ordered[k - 1].onset_ms
        };
        selected.push((note.pitch, delta, note.duration_ms, note.velocity));
        assert(selected@ =~= relative(ordered@).take(k + 1));
        k = k + 1;
    }
    assert(selected@ =~= relative(ordered@));
    proof {
        let places = prompts_tell_what_was_played(notes@, musical_end_ms);
    }
    selected
}

/// The line that asks the model for up to 32 notes that continue `prompt`.
pub fn generation_command(prompt: &str) -> (line: String)
    ensures
        line@ == "generate\t32\t0.9\t16\t"@ + prompt@ + "\n"@,
{
    let mut line = "generate\t32\t0.9\t16\t".to_owned();
    line.append(prompt);
    line.append("\n");
    line
}

/// What the model answered: after the white space at the end of the line is gone, a word, a
/// tab and a body. Under the word `notes` the body holds notes; under any other it is the
/// text of an error.
pub open spec fn reply_value(response: Seq<char>) -> Result<Seq<ModelNote>, Seq<char>> {
    let line = without_trailing_white(response);
    match first_place(line, '\t') {
        None => Err("empty response"@),
        Some(tab) => if line.take(tab) == "notes"@ {
            generated_notes(line.skip(tab + 1))
        } else {
            Err(line.skip(tab + 1))
        },
    }
}

/// Reads the answer of the model.
pub fn parse_reply(response: &str) -> (notes: Result<Vec<ModelNote>, String>)
    ensures
        match reply_value(response@) {
            Ok(expected) => notes matches Ok(found) && found@ == expected,
            Err(expected) => notes matches Err(found) && found@ == expected,
        },
{
    let chars = chars_of(response);
    let len = trimmed_len(&chars);
    let ghost line = without_trailing_white(response@);
    let tab = match find_char(&chars, len, '\t') {
        Some(tab) => tab,
        None => {
            return Err("empty response".to_owned());
        },
    };
    let kind = response.substring_char(0, tab);
    let body = response.substring_char(tab + 1, len);
    assert(kind@ =~= line.take(tab as int));
    assert(body@ =~= line.skip(tab + 1));
    let kind_chars = chars_of(kind);
    let expected = chars_of("notes");
    let is_notes = kind_chars.len() == expected.len() && starts_with(&kind_chars, "notes");
    proof {
        assert(kind@.take(kind@.len() as int) =~= kind@);
    }
    if !is_notes {
        return Err(body.to_owned());
    }
    parse_generated_notes(body)
}

/// Checks the first line of the model, which must begin with the word `ready` and a tab.
pub fn check_ready(line: &str) -> (ready: Result<(), String>)
    ensures
        match ready {
            Ok(()) => begins_with(line@, "ready\t"@),
            Err(text) => {
                &&& !begins_with(line@, "ready\t"@)
                &&& text@ == "Model failed to start: "@ + without_leading_white(
                    without_trailing_white(line@),
                )
            },
        },
{
    let chars = chars_of(line);
    if starts_with(&chars, "ready\t") {
        return Ok(());
    }
    let len = trimmed_len(&chars);
    let start = leading_white(&chars, len);
    let mut text = "Model failed to start: ".to_owned();
    text.append(line.substring_char(start, len));
    Err(text)
}

/// Whether a checkpoint is fetched from the network.
pub open spec fn is_url(path: Seq<char>) -> bool {
    begins_with(path, "https://"@) || begins_with(path, "http://"@)
}

/// Whether a checkpoint is fetched from the network.
pub fn is_remote_url(path: &str) -> (remote: bool)
    ensures
        remote == is_url(path@),
{
    let chars = chars_of(path);
    starts_with(&chars, "https://") || starts_with(&chars, "http://")
}

/// A path below a directory, in the notation with slashes. An absolute path stays as it is.
pub open spec fn joined_path(directory: Seq<char>, path: Seq<char>) -> Seq<char> {
    if path.len() > 0 && path[0] == '/' {
        path
    } else if directory.len() == 0 || directory.last() == '/' {
        directory + path
    } else {
        directory.push('/') + path
    }
}

/// Joins a directory and a path below it.
pub fn join_path(directory: &str, path: &str) -> (joined: String)
    ensures
        joined@ == joined_path(directory@, path@),
{
    proof {
        reveal_strlit("/");
        assert("/"@ =~= seq!['/']);
    }
    let path_chars = chars_of(path);
    if path_chars.len() > 0 && path_chars[0] == '/' {
        return path.to_owned();
    }
    let directory_chars = chars_of(directory);
    let mut joined = directory.to_owned();
    if directory_chars.len() > 0 && directory_chars[directory_chars.len() - 1] != '/' {
        joined.append("/");
        assert(joined@ =~= directory@.push('/'));
    }
    joined.append(path);
    joined
}

/// Where the checkpoint is: addresses in the network stay as they are, and so do absolute
/// paths; other paths are taken from `root` on.
pub fn resolve_model_path(path: &str, root: &str) -> (resolved: String)
    ensures
        resolved@ == if is_url(path@) { path@ } else { joined_path(root@, path@) },
{
    if is_remote_url(path) {
        path.to_owned()
    } else {
        join_path(root, path)
    }
}

/// The prompt holds exactly the played notes that start no later than the cursor.
pub proof fn prompts_stop_at_the_cursor(notes: Seq<Note>, musical_end_ms: Option<u64>, note: Note)
    ensures
        prompted(notes, musical_end_ms).contains(note) <==> notes.contains(note) && is_prompted(
            note,
            musical_end_ms,
        ),
    decreases notes.len(),
{
    let all = prompted(notes, musical_end_ms);
    if notes.len() > 0 {
        let rest = notes.drop_last();
        let before = prompted(rest, musical_end_ms);
        prompts_stop_at_the_cursor(rest, musical_end_ms, note);
        if before.contains(note) {
            let i = choose|i: int| 0 <= i < before.len() && before[i] == note;
            assert(all[i] == note);
        }
        if rest.contains(note) {
            let i = choose|i: int| 0 <= i < rest.len() && rest[i] == note;
            assert(notes[i] == note);
        }
        if notes.contains(note) {
            let i = choose|i: int| 0 <= i < notes.len() && notes[i] == note;
            if i < rest.len() {
                assert(rest[i] == note);
            } else if is_prompted(note, musical_end_ms) {
                assert(all[before.len() as int] == note);
            }
        }
        if all.contains(note) {
            let i = choose|i: int| 0 <= i < all.len() && all[i] == note;
            if i < before.len() {
                assert(before[i] == note);
            } else {
                assert(notes[notes.len() - 1] == note);
            }
        }
    }
}

/// The distances of the first `count` notes, summed up.
pub open spec fn distance_over(notes: Seq<ModelNote>, count: int) -> int
    decreases count,
{
    if count <= 0 {
        0
    } else {
        distance_over(notes, count - 1) + notes[count - 1].1
    }
}

/// The prompt of a timeline: `chosen` names every played note that starts no later than the
/// cursor, once, by onset and pitch. The prompt tells its pitch, duration and velocity, and the
/// distances up to a note add up to its onset, counted from that of the first.
pub open spec fn tells(
    notes: Seq<Note>,
    musical_end_ms: Option<u64>,
    chosen: Seq<int>,
    selected: Seq<ModelNote>,
) -> bool {
    &&& selected.len() == chosen.len()
    &&& forall|m: int|
        0 <= m < chosen.len() ==> {
            let note = notes[#[trigger] chosen[m]];
            &&& 0 <= chosen[m] < notes.len()
            &&& !note.generated
            &&& musical_end_ms matches Some(end) ==> note.onset_ms <= end
            &&& selected[m].0 == note.pitch
            &&& selected[m].2 == note.duration_ms
            &&& selected[m].3 == note.velocity
            &&& distance_over(selected, m + 1) == note.onset_ms - notes[chosen[0]].onset_ms
        }
    &&& forall|i: int|
        0 <= i < notes.len() && !(#[trigger] notes[i]).generated && (musical_end_ms matches Some(
            end,
        ) ==> notes[i].onset_ms <= end) ==> chosen.contains(i)
    &&& forall|a: int, b: int|
        #![trigger chosen[a], chosen[b]]
        0 <= a < b < chosen.len() ==> {
            let first = notes[chosen[a]];
            let second = notes[chosen[b]];
            ||| first.onset_ms < second.onset_ms
            ||| first.onset_ms == second.onset_ms && first.pitch < second.pitch
            ||| first.onset_ms == second.onset_ms && first.pitch == second.pitch && chosen[a]
                < chosen[b]
        }
}

proof fn prompted_lists(notes: Seq<Note>, musical_end_ms: Option<u64>) -> (places: Seq<int>)
    ensures
        places.len() == prompted(notes, musical_end_ms).len(),
        forall|m: int|
            0 <= m < places.len() ==> {
                &&& 0 <= #[trigger] places[m] < notes.len()
                &&& prompted(notes, musical_end_ms)[m] == notes[places[m]]
                &&& !notes[places[m]].generated
                &&& musical_end_ms matches Some(end) ==> notes[places[m]].onset_ms <= end
            },
        forall|i: int|
            0 <= i < notes.len() && !(#[trigger] notes[i]).generated && (
            musical_end_ms matches Some(end) ==> notes[i].onset_ms <= end) ==> places.contains(i),
        forall|a: int, b: int|
            #![trigger places[a], places[b]]
            0 <= a < b < places.len() ==> places[a] < places[b],
    decreases notes.len(),
{
    if notes.len() == 0 {
        Seq::empty()
    } else {
        let rest = notes.drop_last();
        let last = rest.len() as int;
        let before = prompted_lists(rest, musical_end_ms);
        let places = if !notes[last].generated && (musical_end_ms matches Some(end)
            ==> notes[last].onset_ms <= end) {
            before.push(last)
        } else {
            before
        };
        assert forall|m: int| 0 <= m < places.len() implies {
            &&& 0 <= #[trigger] places[m] < notes.len()
            &&& prompted(notes, musical_end_ms)[m] == notes[places[m]]
            &&& !notes[places[m]].generated
            &&& musical_end_ms matches Some(end) ==> notes[places[m]].onset_ms <= end
        } by {
            if m < before.len() {
                assert(places[m] == before[m]);
                assert(rest[before[m]] == notes[before[m]]);
            }
        }
        assert forall|i: int|
            0 <= i < notes.len() && !(#[trigger] notes[i]).generated && (
            musical_end_ms matches Some(end) ==> notes[i].onset_ms <= end) implies places.contains(
            i,
        ) by {
            if i < last {
                assert(rest[i] == notes[i]);
                let m = choose|m: int| 0 <= m < before.len() && before[m] == i;
                assert(places[m] == i);
            } else {
                assert(places[before.len() as int] == i);
            }
        }
        places
    }
}

proof fn distances_add_up(notes: Seq<Note>, count: int)
    requires
        1 <= count <= notes.len(),
        forall|a: int, b: int|
            #![trigger notes[a], notes[b]]
            0 <= a < b < notes.len() ==> notes[a].onset_ms <= notes[b].onset_ms,
    ensures
        distance_over(relative(notes), count) == notes[count - 1].onset_ms - notes[0].onset_ms,
    decreases count,
{
    let selected = relative(notes);
    if count == 1 {
        assert(distance_over(selected, 0) == 0);
        assert(selected[0].1 == 0);
    } else {
        distances_add_up(notes, count - 1);
        assert(notes[count - 2].onset_ms <= notes[count - 1].onset_ms);
        assert(selected[count - 1].1 == notes[count - 1].onset_ms - notes[count - 2].onset_ms);
    }
}

/// A prompt tells the played notes up to the cursor as they stand on the timeline.
pub proof fn prompts_tell_what_was_played(
    notes: Seq<Note>,
    musical_end_ms: Option<u64>,
) -> (chosen: Seq<int>)
    ensures
        tells(
            notes,
            musical_end_ms,
            chosen,
            relative(stable_sort(prompted(notes, musical_end_ms))),
        ),
{
    let found = prompted(notes, musical_end_ms);
    let places = prompted_lists(notes, musical_end_ms);
    let order = stable_sort_reorders(found);
    let sorted = stable_sort(found);
    let selected = relative(sorted);
    let chosen = Seq::new(found.len(), |m: int| places[order[m]]);
    assert forall|m: int| 0 <= m < chosen.len() implies {
        &&& sorted[m] == notes[#[trigger] chosen[m]]
        &&& 0 <= chosen[m] < notes.len()
        &&& !notes[chosen[m]].generated
        &&& musical_end_ms matches Some(end) ==> notes[chosen[m]].onset_ms <= end
    } by {
        assert(0 <= order[m] < found.len());
        assert(sorted[m] == found[order[m]]);
        assert(chosen[m] == places[order[m]]);
    }
    assert forall|a: int, b: int|
        #![trigger sorted[a], sorted[b]]
        0 <= a < b < sorted.len() implies sorted[a].onset_ms <= sorted[b].onset_ms by {
        assert(0 <= order[a] < found.len() && 0 <= order[b] < found.len());
    }
    assert forall|m: int| 0 <= m < chosen.len() implies distance_over(selected, m + 1) == notes[
        #[trigger] chosen[m]
    ].onset_ms - notes[chosen[0]].onset_ms by {
        distances_add_up(sorted, m + 1);
        assert(sorted[0] == notes[chosen[0]]);
    }
    assert forall|i: int|
        0 <= i < notes.len() && !(#[trigger] notes[i]).generated && (musical_end_ms matches Some(
            end,
        ) ==> notes[i].onset_ms <= end) implies chosen.contains(i) by {
        let k = choose|k: int| 0 <= k < places.len() && places[k] == i;
        assert(order.contains(k));
        let m = choose|m: int| 0 <= m < order.len() && order[m] == k;
        assert(chosen[m] == i);
    }
    assert forall|a: int, b: int|
        #![trigger chosen[a], chosen[b]]
        0 <= a < b < chosen.len() implies {
        let first = notes[chosen[a]];
        let second = notes[chosen[b]];
        ||| first.onset_ms < second.onset_ms
        ||| first.onset_ms == second.onset_ms && first.pitch < second.pitch
        ||| first.onset_ms == second.onset_ms && first.pitch == second.pitch && chosen[a]
            < chosen[b]
    } by {
        assert(0 <= order[a] < found.len() && 0 <= order[b] < found.len());
        assert(chosen[a] == places[order[a]] && chosen[b] == places[order[b]]);
    }
    chosen
}

/// A list is read as numbers exactly if each of its parts is; else the first part that is none says
/// why.
pub proof fn lists_are_read_part_by_part(parts: Seq<Seq<char>>)
    ensures
        match numbers(parts) {
            Ok(values) => {
                &&& values.len() == parts.len()
                &&& forall|i: int|
                    0 <= i < parts.len() ==> number_value(#[trigger] parts[i]) == Ok::<
                        u64,
                        NumberError,
                    >(values[i])
            },
            Err(error) => exists|i: int|
                {
                    &&& 0 <= i < parts.len()
                    &&& number_value(#[trigger] parts[i]) == Err::<u64, NumberError>(error)
                    &&& forall|k: int| 0 <= k < i ==> number_value(#[trigger] parts[k]) is Ok
                },
        },
    decreases parts.len(),
{
    if parts.len() > 0 {
        let rest = parts.drop_last();
        let last = rest.len() as int;
        lists_are_read_part_by_part(rest);
        match numbers(rest) {
            Ok(values) => {
                assert forall|i: int| 0 <= i < last implies number_value(#[trigger] parts[i])
                    == Ok::<u64, NumberError>(values[i]) by {
                    assert(rest[i] == parts[i]);
                }
                assert(number_value(parts[last]) == number_value(parts.last()));
            },
            Err(error) => {
                let i = choose|i: int|
                    {
                        &&& 0 <= i < rest.len()
                        &&& number_value(#[trigger] rest[i]) == Err::<u64, NumberError>(error)
                        &&& forall|k: int| 0 <= k < i ==> number_value(#[trigger] rest[k]) is Ok
                    };
                assert(parts[i] == rest[i]);
                assert forall|k: int| 0 <= k < i implies number_value(
                    #[trigger] parts[k],
                ) is Ok by {
                    assert(rest[k] == parts[k]);
                }
            },
        }
    }
}

/// A text is read as a note exactly if it is four numbers with commas between them, pitch, distance,
/// duration and velocity, and pitch and velocity fit in seven bits.
pub proof fn notes_are_four_numbers(text: Seq<char>)
    ensures
        ({
            let parts = split(text, ',');
            match note_value(text) {
                Ok(note) => {
                    &&& parts.len() == 4
                    &&& number_value(parts[0]) == Ok::<u64, NumberError>(note.0 as u64)
                    &&& number_value(parts[1]) == Ok::<u64, NumberError>(note.1)
                    &&& number_value(parts[2]) == Ok::<u64, NumberError>(note.2)
                    &&& number_value(parts[3]) == Ok::<u64, NumberError>(note.3 as u64)
                    &&& note.0 <= 127
                    &&& note.3 <= 127
                },
                Err(reason) => {
                    let read = forall|i: int|
                        0 <= i < parts.len() ==> number_value(#[trigger] parts[i]) is Ok;
                    if !read {
                        exists|i: int|
                            {
                                &&& 0 <= i < parts.len()
                                &&& number_value(#[trigger] parts[i]) is Err
                                &&& reason == number_value(parts[i])->Err_0.text()
                                &&& forall|k: int|
                                    0 <= k < i ==> number_value(#[trigger] parts[k]) is Ok
                            }
                    } else if parts.len() != 4 {
                        reason == "invalid model note"@
                    } else if number_value(parts[0])->Ok_0 > 127 {
                        reason == "model pitch is outside 0..127"@
                    } else {
                        &&& number_value(parts[3])->Ok_0 > 127
                        &&& reason == "model velocity is outside 0..127"@
                    }
                },
            }
        }),
{
    let parts = split(text, ',');
    lists_are_read_part_by_part(parts);
    match numbers(parts) {
        Ok(values) => {
            if parts.len() == 4 {
                assert(number_value(parts[0]) == Ok::<u64, NumberError>(values[0]));
                assert(number_value(parts[1]) == Ok::<u64, NumberError>(values[1]));
                assert(number_value(parts[2]) == Ok::<u64, NumberError>(values[2]));
                assert(number_value(parts[3]) == Ok::<u64, NumberError>(values[3]));
            }
        },
        Err(error) => {
            let i = choose|i: int|
                {
                    &&& 0 <= i < parts.len()
                    &&& number_value(#[trigger] parts[i]) == Err::<u64, NumberError>(error)
                    &&& forall|k: int| 0 <= k < i ==> number_value(#[trigger] parts[k]) is Ok
                };
            assert(number_value(parts[i]) is Err);
        },
    }
}

/// Texts are read as notes exactly if each of them is; else the first one that is none says why.
pub proof fn replies_are_read_note_by_note(texts: Seq<Seq<char>>)
    ensures
        match note_values(texts) {
            Ok(notes) => {
                &&& notes.len() == texts.len()
                &&& forall|i: int|
                    0 <= i < texts.len() ==> note_value(#[trigger] texts[i]) == Ok::<
                        ModelNote,
                        Seq<char>,
                    >(notes[i])
            },
            Err(reason) => exists|i: int|
                {
                    &&& 0 <= i < texts.len()
                    &&& note_value(#[trigger] texts[i]) == Err::<ModelNote, Seq<char>>(reason)
                    &&& forall|k: int| 0 <= k < i ==> note_value(#[trigger] texts[k]) is Ok
                },
        },
    decreases texts.len(),
{
    if texts.len() > 0 {
        let rest = texts.drop_last();
        let last = rest.len() as int;
        replies_are_read_note_by_note(rest);
        match note_values(rest) {
            Ok(notes) => {
                assert forall|i: int| 0 <= i < last implies note_value(#[trigger] texts[i]) == Ok::<
                    ModelNote,
                    Seq<char>,
                >(notes[i]) by {
                    assert(rest[i] == texts[i]);
                }
                assert(note_value(texts[last]) == note_value(texts.last()));
            },
            Err(reason) => {
                let i = choose|i: int|
                    {
                        &&& 0 <= i < rest.len()
                        &&& note_value(#[trigger] rest[i]) == Err::<ModelNote, Seq<char>>(reason)
                        &&& forall|k: int| 0 <= k < i ==> note_value(#[trigger] rest[k]) is Ok
                    };
                assert(texts[i] == rest[i]);
                assert forall|k: int| 0 <= k < i implies note_value(#[trigger] texts[k]) is Ok by {
                    assert(rest[k] == texts[k]);
                }
            },
        }
    }
}

/// The body of a reply holds the notes between its semicolons, and none if it is empty.
pub proof fn bodies_hold_notes_between_semicolons(body: Seq<char>)
    ensures
        body.len() == 0 ==> generated_notes(body) == Ok::<Seq<ModelNote>, Seq<char>>(Seq::empty()),
        body.len() > 0 ==> match generated_notes(body) {
            Ok(notes) => {
                &&& notes.len() == split(body, ';').len()
                &&& forall|i: int|
                    0 <= i < notes.len() ==> {
                        &&& note_value(split(body, ';')[i]) == Ok::<ModelNote, Seq<char>>(
                            #[trigger] notes[i],
                        )
                        &&& notes[i].0 <= 127
                        &&& notes[i].3 <= 127
                    }
            },
            Err(reason) => exists|i: int|
                {
                    &&& 0 <= i < split(body, ';').len()
                    &&& note_value(#[trigger] split(body, ';')[i]) == Err::<ModelNote, Seq<char>>(
                        reason,
                    )
                    &&& forall|k: int|
                        0 <= k < i ==> note_value(#[trigger] split(body, ';')[k]) is Ok
                },
        },
{
    let texts = split(body, ';');
    replies_are_read_note_by_note(texts);
    if body.len() > 0 && generated_notes(body) is Ok {
        let notes = generated_notes(body)->Ok_0;
        assert forall|i: int| 0 <= i < notes.len() implies {
            &&& note_value(texts[i]) == Ok::<ModelNote, Seq<char>>(#[trigger] notes[i])
            &&& notes[i].0 <= 127
            &&& notes[i].3 <= 127
        } by {
            assert(note_value(texts[i]) == Ok::<ModelNote, Seq<char>>(notes[i]));
            notes_are_four_numbers(texts[i]);
        }
    }
}

/// A prompt is the notes with semicolons between them, each of them pitch, distance, duration and
/// velocity with commas between them. No duration is written as less than one.
pub proof fn prompts_write_four_numbers_a_note(notes: Seq<ModelNote>, i: int)
    requires
        0 <= i < notes.len(),
    ensures
        split(prompt_text(notes), ';').len() == notes.len(),
        split(split(prompt_text(notes), ';')[i], ',') == seq![
            decimal(notes[i].0 as nat),
            decimal(notes[i].1 as nat),
            decimal(
                if notes[i].2 >= 1 {
                    notes[i].2 as nat
                } else {
                    1
                },
            ),
            decimal(notes[i].3 as nat),
        ],
{
    let texts = Seq::new(notes.len(), |k: int| note_text(notes[k]));
    assert forall|k: int| 0 <= k < texts.len() implies !(#[trigger] texts[k]).contains(';') by {
        note_text_has_no_semicolon(notes[k]);
    }
    split_undoes_join(texts, ';');
    let note = notes[i];
    let parts = seq![
        decimal(note.0 as nat),
        decimal(note.1 as nat),
        decimal(at_least_one(note.2) as nat),
        decimal(note.3 as nat),
    ];
    decimal_lacks(note.0 as nat, ',');
    decimal_lacks(note.1 as nat, ',');
    decimal_lacks(at_least_one(note.2) as nat, ',');
    decimal_lacks(note.3 as nat, ',');
    assert forall|k: int| 0 <= k < parts.len() implies !(#[trigger] parts[k]).contains(',') by {
        if k == 0 {
        } else if k == 1 {
        } else if k == 2 {
        } else {
        }
    }
    split_undoes_join(parts, ',');
}

/// Without notes there is nothing in a prompt.
pub proof fn empty_prompts_are_empty()
    ensures
        prompt_text(Seq::empty()).len() == 0,
{
    assert(Seq::new(0, |i: int| note_text(Seq::<ModelNote>::empty()[i])) =~= Seq::<
        Seq<char>,
    >::empty());
}

/// An answer is a word, a tab and a body, and the white space at the end of the line does not count.
/// Under the word `notes` it holds the notes of the body; under any other word the body says what
/// went wrong. A line without a tab is no answer.
pub proof fn answers_are_a_word_and_a_body(word: Seq<char>, body: Seq<char>, white: Seq<char>)
    requires
        !word.contains('\t'),
        body.len() > 0,
        !is_white(body.last()),
        forall|i: int| 0 <= i < white.len() ==> is_white(#[trigger] white[i]),
    ensures
        word == "notes"@ ==> reply_value(word.push('\t') + body + white) == generated_notes(body),
        word != "notes"@ ==> reply_value(word.push('\t') + body + white) == Err::<
            Seq<ModelNote>,
            Seq<char>,
        >(body),
        word.len() > 0 && !is_white(word.last()) ==> reply_value(word + white) == Err::<
            Seq<ModelNote>,
            Seq<char>,
        >("empty response"@),
{
    let line = word.push('\t') + body;
    let response = line + white;
    trailing_white_goes(line, white);
    first_place_is_least(line, '\t');
    let tab = word.len() as int;
    assert(line[tab] == '\t');
    let place = first_place(line, '\t')->0;
    if place < tab {
        assert(word[place] == '\t');
    }
    assert(place == tab);
    assert(line.take(tab) =~= word);
    assert(line.skip(tab + 1) =~= body);
    if word.len() > 0 && !is_white(word.last()) {
        trailing_white_goes(word, white);
        first_place_is_least(word, '\t');
        if let Some(at) = first_place(word, '\t') {
            assert(word[at] == '\t');
        }
    }
}

proof fn trailing_white_goes(s: Seq<char>, white: Seq<char>)
    requires
        s.len() > 0,
        !is_white(s.last()),
        forall|i: int| 0 <= i < white.len() ==> is_white(#[trigger] white[i]),
    ensures
        without_trailing_white(s + white) == s,
    decreases white.len(),
{
    if white.len() == 0 {
        assert(s + white =~= s);
    } else {
        let rest = white.drop_last();
        assert forall|i: int| 0 <= i < rest.len() implies is_white(#[trigger] rest[i]) by {
            assert(rest[i] == white[i]);
        }
        trailing_white_goes(s, rest);
        assert((s + white).drop_last() =~= s + rest);
        assert(is_white(white[white.len() - 1]));
        assert((s + white).last() == white.last());
    }
}

/// The model's answer to a prompt that it gives back is the prompt.
pub proof fn answers_read_back(notes: Seq<ModelNote>)
    requires
        notes.len() > 0,
        forall|i: int|
            0 <= i < notes.len() ==> (#[trigger] notes[i]).0 <= 127 && notes[i].3 <= 127,
    ensures
        reply_value("notes\t"@ + prompt_text(notes) + "\n"@) == Ok::<Seq<ModelNote>, Seq<char>>(
            Seq::new(
                notes.len(),
                |i: int|
                    (
                        notes[i].0,
                        notes[i].1,
                        if notes[i].2 >= 1 {
                            notes[i].2
                        } else {
                            1
                        },
                        notes[i].3,
                    ),
            ),
        ),
{
    reveal_strlit("notes\t");
    reveal_strlit("notes");
    reveal_strlit("\n");
    let word = "notes"@;
    let body = prompt_text(notes);
    let white = "\n"@;
    let texts = Seq::new(notes.len(), |k: int| note_text(notes[k]));
    let last = notes[notes.len() - 1];
    note_text_unfolds(last);
    decimal_is_digits(last.3 as nat);
    let end = decimal(last.3 as nat);
    assert(is_digit(end[end.len() - 1]));
    assert(body.len() > 0 && body.last() == end.last()) by {
        assert(texts.last() == note_text(last));
        assert(note_text(last).last() == end.last());
        if texts.len() == 1 {
            assert(body == texts[0]);
        } else {
            assert(body == join(texts.drop_last(), ';').push(';') + texts.last());
        }
    }
    reading_undoes_prompting(notes);
    answers_are_a_word_and_a_body(word, body, white);
    assert("notes\t"@ =~= word.push('\t'));
    assert(Seq::new(
        notes.len(),
        |i: int| (notes[i].0, notes[i].1, at_least_one(notes[i].2), notes[i].3),
    ) =~= Seq::new(
        notes.len(),
        |i: int|
            (
                notes[i].0,
                notes[i].1,
                if notes[i].2 >= 1 {
                    notes[i].2
                } else {
                    1
                },
                notes[i].3,
            ),
    ));
}

/// A path below a directory is the directory and the path with a slash between them: one is put
/// there unless the directory is empty or ends with one. An absolute path stays as it is.
pub proof fn paths_are_joined_with_a_slash(directory: Seq<char>, path: Seq<char>)
    ensures
        path.len() > 0 && path[0] == '/' ==> joined_path(directory, path) == path,
        !(path.len() > 0 && path[0] == '/') ==> {
            let joined = joined_path(directory, path);
            let between = joined.len() - path.len();
            &&& begins_with(joined, directory)
            &&& joined.skip(between) == path
            &&& directory.len() == 0 ==> between == 0
            &&& directory.len() > 0 ==> joined[between - 1] == '/'
            &&& between == directory.len() || between == directory.len() + 1
            &&& directory.len() > 0 && directory.last() == '/' ==> between == directory.len()
        },
{
    if !(path.len() > 0 && path[0] == '/') {
        let joined = joined_path(directory, path);
        let between = joined.len() - path.len();
        assert(joined.take(directory.len() as int) =~= directory);
        assert(joined.skip(between) =~= path);
    }
}

/// What starts with `http://` or `https://` is fetched from the network, and nothing else.
pub proof fn addresses_name_their_protocol(rest: Seq<char>, path: Seq<char>)
    ensures
        is_url("http://"@ + rest),
        is_url("https://"@ + rest),
        is_url(path) ==> path == "http://"@ + path.skip(7) || path == "https://"@ + path.skip(8),
{
    reveal_strlit("http://");
    reveal_strlit("https://");
    prefixes_come_first("http://"@, rest, path);
    prefixes_come_first("https://"@, rest, path);
}

} // verus!
