//! Decimal numbers and separated lists in text.

use vstd::prelude::*;
use vstd::string::*;

verus! {

/// The character of a decimal digit.
pub open spec fn digit(d: int) -> char {
    (48 + d) as char
}

/// A number in decimal notation, without leading zeros.
pub open spec fn decimal(n: nat) -> Seq<char>
    decreases n,
{
    if n < 10 {
        seq![digit(n as int)]
    } else {
        decimal(n / 10).push(digit(n as int % 10))
    }
}

/// Whether a character is a decimal digit.
pub open spec fn is_digit(c: char) -> bool {
    48 <= c as int <= 57
}

/// Why a text is no number.
#[derive(Clone, Copy, Debug, PartialEq, Eq, Structural)]
pub enum NumberError {
    Empty,
    InvalidDigit,
    TooLarge,
}

impl NumberError {
    /// The words in which the error is reported.
    pub open spec fn text(self) -> Seq<char> {
        match self {
            NumberError::Empty => "cannot parse integer from empty string"@,
            NumberError::InvalidDigit => "invalid digit found in string"@,
            NumberError::TooLarge => "number too large to fit in target type"@,
        }
    }

    /// The words in which the error is reported.
    pub fn message(self) -> (message: String)
        ensures
            message@ == self.text(),
    {
        match self {
            NumberError::Empty => "cannot parse integer from empty string".to_owned(),
            NumberError::InvalidDigit => "invalid digit found in string".to_owned(),
            NumberError::TooLarge => "number too large to fit in target type".to_owned(),
        }
    }
}

/// The number that a run of digits stands for; the first character that is no digit or makes
/// the number too large decides otherwise.
pub open spec fn digits_value(s: Seq<char>) -> Result<u64, NumberError>
    decreases s.len(),
{
    if s.len() == 0 {
        Ok(0)
    } else {
        match digits_value(s.drop_last()) {
            Err(error) => Err(error),
            Ok(value) => if !is_digit(s.last()) {
                Err(NumberError::InvalidDigit)
            } else if value * 10 + (s.last() as int - 48) > u64::MAX {
                Err(NumberError::TooLarge)
            } else {
                Ok((value * 10 + (s.last() as int - 48)) as u64)
            },
        }
    }
}

/// The number that a text stands for: digits, with a plus sign before them or not.
pub open spec fn number_value(s: Seq<char>) -> Result<u64, NumberError> {
    if s.len() == 0 {
        Err(NumberError::Empty)
    } else if s[0] == '+' {
        if s.len() == 1 {
            Err(NumberError::InvalidDigit)
        } else {
            digits_value(s.skip(1))
        }
    } else {
        digits_value(s)
    }
}

/// The parts of a text between its separators, of which there are as many plus one.
pub open spec fn split(s: Seq<char>, separator: char) -> Seq<Seq<char>>
    decreases s.len(),
{
    if s.len() == 0 {
        seq![Seq::empty()]
    } else {
        let before = split(s.drop_last(), separator);
        if s.last() == separator {
            before.push(Seq::empty())
        } else {
            before.drop_last().push(before.last().push(s.last()))
        }
    }
}

/// The parts in order with a separator between each two of them.
pub open spec fn join(parts: Seq<Seq<char>>, separator: char) -> Seq<char>
    decreases parts.len(),
{
    if parts.len() == 0 {
        Seq::empty()
    } else if parts.len() == 1 {
        parts[0]
    } else {
        join(parts.drop_last(), separator).push(separator) + parts.last()
    }
}

proof fn split_is_not_empty(s: Seq<char>, separator: char)
    ensures
        split(s, separator).len() > 0,
    decreases s.len(),
{
    if s.len() > 0 {
        split_is_not_empty(s.drop_last(), separator);
    }
}

/// A text without separators is its own only part.
proof fn split_of_one_part(s: Seq<char>, separator: char)
    requires
        !s.contains(separator),
    ensures
        split(s, separator) == seq![s],
    decreases s.len(),
{
    if s.len() == 0 {
        assert(s =~= Seq::empty());
    } else {
        let rest = s.drop_last();
        assert forall|i: int| 0 <= i < rest.len() implies rest[i] != separator by {
            assert(rest[i] == s[i]);
        }
        split_of_one_part(rest, separator);
        assert(s[s.len() - 1] == s.last());
        assert(rest.push(s.last()) =~= s);
        assert(split(s, separator) =~= seq![s]);
    }
}

/// A part behind a separator is the last one.
proof fn split_of_last_part(a: Seq<char>, separator: char, b: Seq<char>)
    requires
        !b.contains(separator),
    ensures
        split(a.push(separator) + b, separator) == split(a, separator).push(b),
    decreases b.len(),
{
    let s = a.push(separator) + b;
    if b.len() == 0 {
        assert(s =~= a.push(separator));
        assert(s.drop_last() =~= a);
        assert(b =~= Seq::empty());
    } else {
        let rest = b.drop_last();
        assert forall|i: int| 0 <= i < rest.len() implies rest[i] != separator by {
            assert(rest[i] == b[i]);
        }
        split_of_last_part(a, separator, rest);
        assert(s.drop_last() =~= a.push(separator) + rest);
        assert(b[b.len() - 1] == b.last());
        assert(s.last() == b.last());
        assert(rest.push(b.last()) =~= b);
        assert(split(s, separator) =~= split(a, separator).push(b));
    }
}

/// Splitting undoes joining, unless there are no parts or one holds the separator.
pub proof fn split_undoes_join(parts: Seq<Seq<char>>, separator: char)
    requires
        parts.len() > 0,
        forall|i: int| 0 <= i < parts.len() ==> !(#[trigger] parts[i]).contains(separator),
    ensures
        split(join(parts, separator), separator) == parts,
    decreases parts.len(),
{
    if parts.len() == 1 {
        split_of_one_part(parts[0], separator);
        assert(parts =~= seq![parts[0]]);
    } else {
        let rest = parts.drop_last();
        assert forall|i: int| 0 <= i < rest.len() implies !(#[trigger] rest[i]).contains(
            separator,
        ) by {
            assert(rest[i] == parts[i]);
        }
        split_undoes_join(rest, separator);
        assert(!parts[parts.len() - 1].contains(separator));
        split_of_last_part(join(rest, separator), separator, parts.last());
        assert(rest.push(parts.last()) =~= parts);
    }
}

/// Decimal notation consists of digits.
pub proof fn decimal_is_digits(n: nat)
    ensures
        decimal(n).len() > 0,
        forall|i: int| 0 <= i < decimal(n).len() ==> is_digit(#[trigger] decimal(n)[i]),
    decreases n,
{
    if n >= 10 {
        decimal_is_digits(n / 10);
    }
}

/// Reading a number undoes writing it.
pub proof fn number_value_undoes_decimal(n: u64)
    ensures
        number_value(decimal(n as nat)) == Ok::<u64, NumberError>(n),
{
    decimal_is_digits(n as nat);
    digits_value_undoes_decimal(n);
    assert(is_digit(decimal(n as nat)[0]));
}

proof fn digits_value_undoes_decimal(n: u64)
    ensures
        digits_value(decimal(n as nat)) == Ok::<u64, NumberError>(n),
    decreases n,
{
    let s = decimal(n as nat);
    if n < 10 {
        assert(s.drop_last() =~= Seq::empty());
        assert(digits_value(s.drop_last()) == Ok::<u64, NumberError>(0));
        assert(s.last() == digit(n as int));
    } else {
        digits_value_undoes_decimal(n / 10);
        assert(s.drop_last() =~= decimal((n / 10) as nat));
        assert(s.last() == digit(n as int % 10));
    }
}

/// The characters of a text.
pub fn chars_of(s: &str) -> (chars: Vec<char>)
    ensures
        chars@ == s@,
{
    let mut chars: Vec<char> = Vec::new();
    for c in it: s.chars()
        invariant
            it.seq() == s@,
            chars@ == it.seq().take(it.index()),
    {
        chars.push(c);
    }
    assert(chars@ =~= s@);
    chars
}

/// The text of a digit.
fn digit_text(d: u64) -> (text: &'static str)
    requires
        d < 10,
    ensures
        text@ == seq![digit(d as int)],
{
    let text = if d == 0 {
        "0"
    } else if d == 1 {
        "1"
    } else if d == 2 {
        "2"
    } else if d == 3 {
        "3"
    } else if d == 4 {
        "4"
    } else if d == 5 {
        "5"
    } else if d == 6 {
        "6"
    } else if d == 7 {
        "7"
    } else if d == 8 {
        "8"
    } else {
        "9"
    };
    proof {
        reveal_strlit("0");
        reveal_strlit("1");
        reveal_strlit("2");
        reveal_strlit("3");
        reveal_strlit("4");
        reveal_strlit("5");
        reveal_strlit("6");
        reveal_strlit("7");
        reveal_strlit("8");
        reveal_strlit("9");
        assert(text@ =~= seq![digit(d as int)]);
    }
    text
}

/// Appends a number in decimal notation.
pub fn append_decimal(out: &mut String, n: u64)
    ensures
        final(out)@ == old(out)@ + decimal(n as nat),
    decreases n,
{
    if n >= 10 {
        append_decimal(out, n / 10);
    }
    out.append(digit_text(n % 10));
    assert(out@ =~= old(out)@ + decimal(n as nat));
}

/// The value of a digit.
fn digit_of(c: char) -> (value: Option<u64>)
    ensures
        value == if is_digit(c) { Some((c as int - 48) as u64) } else { None },
{
    if c == '0' {
        Some(0)
    } else if c == '1' {
        Some(1)
    } else if c == '2' {
        Some(2)
    } else if c == '3' {
        Some(3)
    } else if c == '4' {
        Some(4)
    } else if c == '5' {
        Some(5)
    } else if c == '6' {
        Some(6)
    } else if c == '7' {
        Some(7)
    } else if c == '8' {
        Some(8)
    } else if c == '9' {
        Some(9)
    } else {
        None
    }
}

/// Reads the digits from `from` on.
fn read_digits(chars: &Vec<char>, from: usize) -> (value: Result<u64, NumberError>)
    requires
        from <= chars@.len(),
    ensures
        value == digits_value(chars@.skip(from as int)),
{
    let ghost digits = chars@.skip(from as int);
    let mut value: u64 = 0;
    let mut i: usize = from;
    while i < chars.len()
        invariant
            from <= i <= chars.len(),
            digits == chars@.skip(from as int),
            digits_value(digits.take(i - from)) == Ok::<u64, NumberError>(value),
        decreases chars.len() - i,
    {
        let c = chars[i];
        assert(digits.take(i + 1 - from).drop_last() =~= digits.take(i - from));
        assert(digits.take(i + 1 - from).last() == chars@[i as int]);
        let d = match digit_of(c) {
            Some(d) => d,
            None => {
                proof {
                    digits_value_fails_early(digits, i + 1 - from);
                }
                return Err(NumberError::InvalidDigit);
            },
        };
        if value > (u64::MAX - d) / 10 {
            proof {
                digits_value_fails_early(digits, i + 1 - from);
            }
            return Err(NumberError::TooLarge);
        }
        value = value * 10 + d;
        i = i + 1;
    }
    assert(digits.take(digits.len() as int) =~= digits);
    Ok(value)
}

proof fn digits_value_fails_early(s: Seq<char>, count: int)
    requires
        0 <= count <= s.len(),
        digits_value(s.take(count)) is Err,
    ensures
        digits_value(s) == digits_value(s.take(count)),
    decreases s.len(),
{
    if count == s.len() {
        assert(s.take(count) =~= s);
    } else {
        assert(s.drop_last().take(count) =~= s.take(count));
        digits_value_fails_early(s.drop_last(), count);
    }
}

/// Reads a number.
pub fn read_number(chars: &Vec<char>) -> (value: Result<u64, NumberError>)
    ensures
        value == number_value(chars@),
{
    if chars.len() == 0 {
        return Err(NumberError::Empty);
    }
    if chars[0] == '+' {
        if chars.len() == 1 {
            return Err(NumberError::InvalidDigit);
        }
        read_digits(chars, 1)
    } else {
        assert(chars@.skip(0) =~= chars@);
        read_digits(chars, 0)
    }
}

/// The contents of a vector of parts.
pub open spec fn part_contents(parts: Seq<Vec<char>>) -> Seq<Seq<char>> {
    Seq::new(parts.len(), |i: int| parts[i]@)
}

/// Splits a text at its separators.
pub fn split_chars(chars: &Vec<char>, separator: char) -> (parts: Vec<Vec<char>>)
    ensures
        part_contents(parts@) == split(chars@, separator),
{
    let mut parts: Vec<Vec<char>> = Vec::new();
    let mut part: Vec<char> = Vec::new();
    let mut i: usize = 0;
    assert(part_contents(parts@).push(part@) =~= split(chars@.take(0), separator));
    while i < chars.len()
        invariant
            i <= chars.len(),
            part_contents(parts@).push(part@) == split(chars@.take(i as int), separator),
        decreases chars.len() - i,
    {
        let ghost before = part_contents(parts@).push(part@);
        assert(before.drop_last() =~= part_contents(parts@));
        assert(chars@.take(i + 1).drop_last() =~= chars@.take(i as int));
        if chars[i] == separator {
            parts.push(part);
            part = Vec::new();
            assert(part_contents(parts@) =~= before);
        } else {
            part.push(chars[i]);
        }
        assert(part_contents(parts@).push(part@) =~= split(chars@.take(i + 1), separator));
        i = i + 1;
    }
    assert(chars@.take(chars.len() as int) =~= chars@);
    let ghost whole = part_contents(parts@).push(part@);
    parts.push(part);
    assert(part_contents(parts@) =~= whole);
    parts
}

/// Whether a text begins with a prefix.
pub open spec fn begins_with(s: Seq<char>, prefix: Seq<char>) -> bool {
    s.len() >= prefix.len() && s.take(prefix.len() as int) == prefix
}

/// Whether a text begins with a prefix.
pub fn starts_with(s: &Vec<char>, prefix: &str) -> (found: bool)
    ensures
        found == begins_with(s@, prefix@),
{
    let wanted = chars_of(prefix);
    if s.len() < wanted.len() {
        return false;
    }
    let mut i: usize = 0;
    while i < wanted.len()
        invariant
            wanted@ == prefix@,
            i <= wanted.len() <= s.len(),
            s@.take(i as int) == wanted@.take(i as int),
        decreases wanted.len() - i,
    {
        if s[i] != wanted[i] {
            assert(s@.take(wanted@.len() as int)[i as int] != wanted@[i as int]);
            return false;
        }
        assert(s@.take(i + 1) =~= wanted@.take(i + 1));
        i = i + 1;
    }
    assert(wanted@.take(wanted@.len() as int) =~= wanted@);
    true
}

/// The characters that Unicode counts as white space.
pub open spec fn is_white(c: char) -> bool {
    ||| 0x9 <= c as int <= 0xd
    ||| c as int == 0x20
    ||| c as int == 0x85
    ||| c as int == 0xa0
    ||| c as int == 0x1680
    ||| 0x2000 <= c as int <= 0x200a
    ||| c as int == 0x2028
    ||| c as int == 0x2029
    ||| c as int == 0x202f
    ||| c as int == 0x205f
    ||| c as int == 0x3000
}

/// Whether a character is white space.
fn is_white_char(c: char) -> (white: bool)
    ensures
        white == is_white(c),
{
    c == '\u{9}' || c == '\u{a}' || c == '\u{b}' || c == '\u{c}' || c == '\u{d}' || c == ' '
        || c == '\u{85}' || c == '\u{a0}' || c == '\u{1680}' || c == '\u{2000}' || c
        == '\u{2001}' || c == '\u{2002}' || c == '\u{2003}' || c == '\u{2004}' || c == '\u{2005}'
        || c == '\u{2006}' || c == '\u{2007}' || c == '\u{2008}' || c == '\u{2009}' || c
        == '\u{200a}' || c == '\u{2028}' || c == '\u{2029}' || c == '\u{202f}' || c == '\u{205f}'
        || c == '\u{3000}'
}

/// The text without the white space at its end.
pub open spec fn without_trailing_white(s: Seq<char>) -> Seq<char>
    decreases s.len(),
{
    if s.len() > 0 && is_white(s.last()) {
        without_trailing_white(s.drop_last())
    } else {
        s
    }
}

/// The text without the white space at its start.
pub open spec fn without_leading_white(s: Seq<char>) -> Seq<char>
    decreases s.len(),
{
    if s.len() > 0 && is_white(s[0]) {
        without_leading_white(s.skip(1))
    } else {
        s
    }
}

/// How many characters are left when the white space at the end is gone.
pub fn trimmed_len(s: &Vec<char>) -> (len: usize)
    ensures
        len <= s@.len(),
        s@.take(len as int) == without_trailing_white(s@),
{
    let mut len = s.len();
    assert(s@.take(len as int) =~= s@);
    while len > 0 && is_white_char(s[len - 1])
        invariant
            len <= s@.len(),
            without_trailing_white(s@.take(len as int)) == without_trailing_white(s@),
        ensures
            len <= s@.len(),
            without_trailing_white(s@.take(len as int)) == without_trailing_white(s@),
            len > 0 ==> !is_white(s@[len - 1]),
        decreases len,
    {
        assert(s@.take(len as int).drop_last() =~= s@.take(len - 1));
        len = len - 1;
    }
    len
}

/// How much white space the first `len` characters begin with.
pub fn leading_white(s: &Vec<char>, len: usize) -> (start: usize)
    requires
        len <= s@.len(),
    ensures
        start <= len,
        s@.subrange(start as int, len as int) == without_leading_white(s@.take(len as int)),
{
    let ghost all = s@.take(len as int);
    let mut start: usize = 0;
    assert(s@.subrange(0, len as int) =~= all);
    while start < len && is_white_char(s[start])
        invariant
            start <= len <= s@.len(),
            all == s@.take(len as int),
            without_leading_white(s@.subrange(start as int, len as int)) == without_leading_white(
                all,
            ),
        ensures
            start <= len,
            without_leading_white(s@.subrange(start as int, len as int)) == without_leading_white(
                all,
            ),
            start < len ==> !is_white(s@[start as int]),
        decreases len - start,
    {
        assert(s@.subrange(start as int, len as int).skip(1) =~= s@.subrange(
            start + 1,
            len as int,
        ));
        start = start + 1;
    }
    start
}

/// The first place of a character, if it stands anywhere.
pub open spec fn first_place(s: Seq<char>, c: char) -> Option<int>
    decreases s.len(),
{
    if s.len() == 0 {
        None
    } else {
        match first_place(s.drop_last(), c) {
            Some(place) => Some(place),
            None => if s.last() == c {
                Some(s.len() - 1)
            } else {
                None
            },
        }
    }
}

/// `first_place` is the least index at which the character stands.
pub proof fn first_place_is_least(s: Seq<char>, c: char)
    ensures
        match first_place(s, c) {
            Some(place) => 0 <= place < s.len() && s[place] == c && forall|i: int|
                0 <= i < place ==> s[i] != c,
            None => forall|i: int| 0 <= i < s.len() ==> s[i] != c,
        },
    decreases s.len(),
{
    if s.len() > 0 {
        let rest = s.drop_last();
        first_place_is_least(rest, c);
        assert(forall|i: int| 0 <= i < rest.len() ==> rest[i] == s[i]);
    }
}

/// Finds a character among the first `len`.
pub fn find_char(s: &Vec<char>, len: usize, c: char) -> (place: Option<usize>)
    requires
        len <= s@.len(),
    ensures
        match place {
            Some(place) => first_place(s@.take(len as int), c) == Some(place as int) && place
                < len,
            None => first_place(s@.take(len as int), c) is None,
        },
{
    let ghost all = s@.take(len as int);
    let mut i: usize = 0;
    while i < len
        invariant
            i <= len <= s@.len(),
            all == s@.take(len as int),
            forall|k: int| 0 <= k < i ==> all[k] != c,
        decreases len - i,
    {
        if s[i] == c {
            proof {
                first_place_is_least(all, c);
                assert(all[i as int] == c);
            }
            return Some(i);
        }
        i = i + 1;
    }
    proof {
        first_place_is_least(all, c);
    }
    None
}

proof fn join_pushes(parts: Seq<Seq<char>>, part: Seq<char>, separator: char)
    requires
        parts.len() > 0,
    ensures
        join(parts.push(part), separator) == join(parts, separator).push(separator) + part,
{
    assert(parts.push(part).drop_last() =~= parts);
}

/// The parts of a text hold no separator, and joined they are the text again.
pub proof fn join_undoes_split(s: Seq<char>, separator: char)
    ensures
        split(s, separator).len() > 0,
        forall|i: int|
            0 <= i < split(s, separator).len() ==> !(#[trigger] split(s, separator)[i]).contains(
                separator,
            ),
        join(split(s, separator), separator) == s,
    decreases s.len(),
{
    let parts = split(s, separator);
    if s.len() == 0 {
        assert(parts[0] =~= Seq::empty());
        assert(join(parts, separator) =~= s);
    } else {
        let rest = s.drop_last();
        let before = split(rest, separator);
        join_undoes_split(rest, separator);
        assert(s =~= rest.push(s.last()));
        if s.last() == separator {
            join_pushes(before, Seq::empty(), separator);
            assert(join(parts, separator) =~= s);
            assert forall|i: int| 0 <= i < parts.len() implies !(#[trigger] parts[i]).contains(
                separator,
            ) by {
                if i < before.len() {
                    assert(parts[i] == before[i]);
                }
            }
        } else {
            let longer = before.last().push(s.last());
            let others = before.drop_last();
            assert(parts == others.push(longer));
            assert(before =~= others.push(before.last()));
            if others.len() > 0 {
                join_pushes(others, longer, separator);
                join_pushes(others, before.last(), separator);
                assert(join(parts, separator) =~= s);
            } else {
                assert(join(parts, separator) == longer);
                assert(join(before, separator) == before[0]);
                assert(join(parts, separator) =~= s);
            }
            assert forall|i: int| 0 <= i < parts.len() implies !(#[trigger] parts[i]).contains(
                separator,
            ) by {
                if i < others.len() {
                    assert(parts[i] == before[i]);
                } else {
                    assert(!before[before.len() - 1].contains(separator));
                    if longer.contains(separator) {
                        let k = choose|k: int| 0 <= k < longer.len() && longer[k] == separator;
                        assert(before.last()[k] == separator);
                    }
                }
            }
        }
    }
}

/// A joined text is its parts with one separator between each two of them: its length says so, and
/// it starts with the first part.
pub proof fn joined_texts_hold_their_parts(
    parts: Seq<Seq<char>>,
    part: Seq<char>,
    separator: char,
)
    ensures
        join(Seq::empty(), separator).len() == 0,
        join(seq![part], separator) == part,
        parts.len() > 0 ==> join(parts.push(part), separator) == join(parts, separator)
            + seq![separator] + part,
{
    if parts.len() > 0 {
        join_pushes(parts, part, separator);
        assert(join(parts, separator).push(separator) + part =~= join(parts, separator)
            + seq![separator] + part);
    }
}

/// All characters are decimal digits.
pub open spec fn all_digits(s: Seq<char>) -> bool {
    forall|i: int| 0 <= i < s.len() ==> '0' <= #[trigger] s[i] && s[i] <= '9'
}

/// The number that digits stand for.
pub open spec fn positional(s: Seq<char>) -> int
    decreases s.len(),
{
    if s.len() == 0 {
        0
    } else {
        positional(s.drop_last()) * 10 + (s.last() as int - '0' as int)
    }
}

/// The digits of a text: what comes behind a plus sign, if there is one.
pub open spec fn unsigned(s: Seq<char>) -> Seq<char> {
    if s.len() > 0 && s[0] == '+' { s.skip(1) } else { s }
}

/// Some digits at the start already stand for too large a number.
pub open spec fn outgrows(s: Seq<char>) -> bool {
    exists|k: int|
        0 <= k <= s.len() && all_digits(#[trigger] s.take(k)) && positional(s.take(k)) > u64::MAX
}

proof fn positional_grows(s: Seq<char>)
    requires
        all_digits(s),
    ensures
        positional(s) >= 0,
    decreases s.len(),
{
    if s.len() > 0 {
        let rest = s.drop_last();
        assert forall|i: int| 0 <= i < rest.len() implies '0' <= #[trigger] rest[i] && rest[i]
            <= '9' by {
            assert(rest[i] == s[i]);
        }
        positional_grows(rest);
        assert('0' <= s[s.len() - 1]);
    }
}

proof fn digits_value_is_positional(s: Seq<char>)
    ensures
        match digits_value(s) {
            Ok(value) => all_digits(s) && value == positional(s),
            Err(error) => {
                &&& error == NumberError::TooLarge <==> outgrows(s)
                &&& error == NumberError::InvalidDigit <==> !outgrows(s)
                &&& !all_digits(s) || positional(s) > u64::MAX
            },
        },
        digits_value(s) is Ok ==> !outgrows(s),
    decreases s.len(),
{
    if s.len() == 0 {
        assert forall|k: int| 0 <= k <= s.len() && all_digits(
            #[trigger] s.take(k),
        ) implies positional(s.take(k)) <= u64::MAX by {
            assert(s.take(k) =~= s);
        }
    } else {
        let rest = s.drop_last();
        let last = s.len() - 1;
        digits_value_is_positional(rest);
        assert(s.take(s.len() as int) =~= s);
        assert forall|k: int| 0 <= k <= last implies #[trigger] s.take(k) == rest.take(k) by {
            assert(s.take(k) =~= rest.take(k));
        }
        if outgrows(rest) {
            let k = choose|k: int|
                0 <= k <= rest.len() && all_digits(#[trigger] rest.take(k)) && positional(
                    rest.take(k),
                ) > u64::MAX;
            assert(all_digits(s.take(k)));
            assert(outgrows(s));
        }
        if outgrows(s) {
            let k = choose|k: int|
                0 <= k <= s.len() && all_digits(#[trigger] s.take(k)) && positional(s.take(k))
                    > u64::MAX;
            if k <= last {
                assert(all_digits(rest.take(k)));
                assert(outgrows(rest));
            } else {
                assert(all_digits(s) && positional(s) > u64::MAX);
            }
        }
        if all_digits(s) {
            assert forall|i: int| 0 <= i < rest.len() implies '0' <= #[trigger] rest[i] && rest[i]
                <= '9' by {
                assert(rest[i] == s[i]);
            }
            assert('0' <= s[last] && s[last] <= '9');
            positional_grows(rest);
            if positional(s) > u64::MAX {
                assert(all_digits(s.take(s.len() as int)));
                assert(outgrows(s));
            }
        }
        if all_digits(rest) && is_digit(s.last()) {
            assert forall|i: int| 0 <= i < s.len() implies '0' <= #[trigger] s[i] && s[i]
                <= '9' by {
                if i < last {
                    assert(rest[i] == s[i]);
                }
            }
        }
    }
}

/// A text is read as a number exactly if it consists of digits, with a plus sign before them or
/// not, and the number fits. An empty text is told apart, and so are digits at the start that stand
/// for too large a number.
pub proof fn numbers_are_read_by_their_digits(s: Seq<char>)
    ensures
        match number_value(s) {
            Ok(value) => {
                &&& unsigned(s).len() > 0
                &&& all_digits(unsigned(s))
                &&& value == positional(unsigned(s))
            },
            Err(error) => {
                &&& unsigned(s).len() == 0 || !all_digits(unsigned(s)) || positional(unsigned(s))
                    > u64::MAX
                &&& error == NumberError::Empty <==> s.len() == 0
                &&& error == NumberError::TooLarge <==> outgrows(unsigned(s))
            },
        },
{
    digits_value_is_positional(unsigned(s));
    if unsigned(s).len() == 0 {
        assert(unsigned(s) =~= Seq::empty());
        assert(digits_value(unsigned(s)) == Ok::<u64, NumberError>(0));
    }
}

/// A number is written with digits alone, without a zero before them, and they stand for it.
pub proof fn numbers_are_written_in_digits(n: nat)
    ensures
        decimal(n).len() > 0,
        all_digits(decimal(n)),
        positional(decimal(n)) == n,
        decimal(n).len() > 1 ==> decimal(n)[0] != '0',
    decreases n,
{
    let s = decimal(n);
    if n < 10 {
        assert(s.drop_last() =~= Seq::empty());
        assert(positional(s.drop_last()) == 0);
        assert(s.last() == digit(n as int));
    } else {
        let upper = n / 10;
        numbers_are_written_in_digits(upper);
        assert(s.drop_last() =~= decimal(upper));
        assert forall|i: int| 0 <= i < s.len() implies '0' <= #[trigger] s[i] && s[i] <= '9' by {
            if i < decimal(upper).len() {
                assert(s[i] == decimal(upper)[i]);
            }
        }
        assert(s[0] == decimal(upper)[0]);
        if upper < 10 {
            assert(decimal(upper)[0] == digit(upper as int));
        } else {
            assert(decimal(upper).len() > 1) by {
                numbers_are_written_in_digits(upper / 10);
            }
        }
    }
}

/// Trimming takes away all white space at the end and nothing else.
pub proof fn trimming_the_end_takes_white_space(s: Seq<char>)
    ensures
        without_trailing_white(s).len() <= s.len(),
        without_trailing_white(s) == s.take(without_trailing_white(s).len() as int),
        forall|i: int|
            without_trailing_white(s).len() <= i < s.len() ==> is_white(#[trigger] s[i]),
        without_trailing_white(s).len() > 0 ==> !is_white(without_trailing_white(s).last()),
    decreases s.len(),
{
    if s.len() > 0 && is_white(s.last()) {
        let rest = s.drop_last();
        trimming_the_end_takes_white_space(rest);
        let len = without_trailing_white(s).len() as int;
        assert(rest.take(len) =~= s.take(len));
        assert forall|i: int| len <= i < s.len() implies is_white(#[trigger] s[i]) by {
            if i < rest.len() {
                assert(rest[i] == s[i]);
            }
        }
    } else {
        assert(s.take(s.len() as int) =~= s);
    }
}

/// Trimming takes away all white space at the start and nothing else.
pub proof fn trimming_the_start_takes_white_space(s: Seq<char>)
    ensures
        without_leading_white(s).len() <= s.len(),
        without_leading_white(s) == s.skip(s.len() - without_leading_white(s).len()),
        forall|i: int|
            0 <= i < s.len() - without_leading_white(s).len() ==> is_white(#[trigger] s[i]),
        without_leading_white(s).len() > 0 ==> !is_white(without_leading_white(s)[0]),
    decreases s.len(),
{
    if s.len() > 0 && is_white(s[0]) {
        let rest = s.skip(1);
        trimming_the_start_takes_white_space(rest);
        let len = without_leading_white(s).len() as int;
        assert(rest.skip(rest.len() - len) =~= s.skip(s.len() - len));
        assert forall|i: int| 0 <= i < s.len() - len implies is_white(#[trigger] s[i]) by {
            if i > 0 {
                assert(rest[i - 1] == s[i]);
            }
        }
    } else {
        assert(s.skip(0) =~= s);
    }
}

/// A text begins with a prefix exactly if it is the prefix and something behind it.
pub proof fn prefixes_come_first(prefix: Seq<char>, rest: Seq<char>, s: Seq<char>)
    ensures
        begins_with(prefix + rest, prefix),
        begins_with(s, prefix) ==> s == prefix + s.skip(prefix.len() as int),
        s.len() < prefix.len() ==> !begins_with(s, prefix),
{
    assert((prefix + rest).take(prefix.len() as int) =~= prefix);
    if begins_with(s, prefix) {
        assert(s =~= s.take(prefix.len() as int) + s.skip(prefix.len() as int));
    }
}

/// The white space of Unicode: tab to carriage return, the space, the next line, and the spaces
/// and separators of other scripts.
pub proof fn white_space_is_that_of_unicode(c: char)
    ensures
        is_white(c) <==> seq![
            0x9int,
            0xa,
            0xb,
            0xc,
            0xd,
            0x20,
            0x85,
            0xa0,
            0x1680,
            0x2000,
            0x2001,
            0x2002,
            0x2003,
            0x2004,
            0x2005,
            0x2006,
            0x2007,
            0x2008,
            0x2009,
            0x200a,
            0x2028,
            0x2029,
            0x202f,
            0x205f,
            0x3000,
        ].contains(c as int),
{
    let all = seq![
        0x9int,
        0xa,
        0xb,
        0xc,
        0xd,
        0x20,
        0x85,
        0xa0,
        0x1680,
        0x2000,
        0x2001,
        0x2002,
        0x2003,
        0x2004,
        0x2005,
        0x2006,
        0x2007,
        0x2008,
        0x2009,
        0x200a,
        0x2028,
        0x2029,
        0x202f,
        0x205f,
        0x3000,
    ];
    let code = c as int;
    if is_white(c) {
        let place: int = if code <= 0xd {
            code - 0x9
        } else if code == 0x20 {
            5
        } else if code == 0x85 {
            6
        } else if code == 0xa0 {
            7
        } else if code == 0x1680 {
            8
        } else if code <= 0x200a {
            9 + code - 0x2000
        } else if code == 0x2028 {
            20
        } else if code == 0x2029 {
            21
        } else if code == 0x202f {
            22
        } else if code == 0x205f {
            23
        } else {
            24
        };
        assert(all[place] == code);
    }
}

} // verus!
