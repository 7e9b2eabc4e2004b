//! Reading hit-object timestamps from the text of a beatmap file.
//!
//! The text is taken as bytes. A line ends at a line feed; a carriage return
//! directly before that line feed is not part of the line. The hit objects
//! are the lines after the first line that reads `[HitObjects]`. Each such
//! line holds comma-separated fields, the third of which is the timestamp
//! in milliseconds; lines that yield no timestamp are passed over.

use vstd::prelude::*;
use vstd::slice::slice_subrange;
use crate::error::NoteError;

verus! {

/// The byte that separates the fields of a line.
pub const COMMA: u8 = 0x2c;

/// The byte that ends a line.
pub const LINE_FEED: u8 = 0x0a;

/// The byte that may stand before a line feed.
pub const CARRIAGE_RETURN: u8 = 0x0d;

/// The minus sign.
pub const MINUS: u8 = 0x2d;

/// The plus sign.
pub const PLUS: u8 = 0x2b;

/// The digit zero; the other digits follow it.
pub const ZERO: u8 = 0x30;

/// The digit nine.
pub const NINE: u8 = 0x39;

/// The line `[HitObjects]`.
pub open spec fn header() -> Seq<u8> {
    seq![0x5bu8, 0x48, 0x69, 0x74, 0x4f, 0x62, 0x6a, 0x65, 0x63, 0x74, 0x73, 0x5d]
}

/// How many bytes stand between position `from` and the first `byte` at or
/// after it, or the end of `s` where there is none.
pub open spec fn gap(s: Seq<u8>, from: int, byte: u8) -> nat
    decreases s.len() - from,
{
    if from < 0 || from >= s.len() || s[from] == byte {
        0
    } else {
        1 + gap(s, from + 1, byte)
    }
}

/// The position of the first `byte` at or after `from`, or the end of `s`
/// where there is none.
pub open spec fn find(s: Seq<u8>, from: int, byte: u8) -> int {
    from + gap(s, from, byte)
}

/// Where field `k` of a line starts. A start beyond the end of the line
/// means that the line has no such field.
pub open spec fn field_start(line: Seq<u8>, k: nat) -> int
    decreases k,
{
    if k == 0 {
        0
    } else {
        find(line, field_start(line, (k - 1) as nat), COMMA) + 1
    }
}

/// Field `k` of a line, counted from zero: the bytes between two commas,
/// or between a comma and an end of the line.
pub open spec fn field(line: Seq<u8>, k: nat) -> Option<Seq<u8>> {
    let start = field_start(line, k);
    if start <= line.len() {
        Some(line.subrange(start, find(line, start, COMMA)))
    } else {
        None
    }
}

/// Whether a byte is a decimal digit.
pub open spec fn is_digit(b: u8) -> bool {
    ZERO <= b <= NINE
}

/// Whether every byte is a decimal digit.
pub open spec fn all_digits(s: Seq<u8>) -> bool {
    forall|i: int| 0 <= i < s.len() ==> is_digit(#[trigger] s[i])
}

/// The number that a sequence of decimal digits writes.
pub open spec fn digits_value(s: Seq<u8>) -> nat
    decreases s.len(),
{
    if s.len() == 0 {
        0
    } else {
        digits_value(s.drop_last()) * 10 + (s.last() - ZERO) as nat
    }
}

/// The number that a field writes: an optional sign, then one digit at
/// least, and a value that an `i32` can hold.
pub open spec fn number_of(s: Seq<u8>) -> Option<int> {
    let negative = s.len() > 0 && s[0] == MINUS;
    let signed = s.len() > 0 && (s[0] == MINUS || s[0] == PLUS);
    let digits = if signed {
        s.skip(1)
    } else {
        s
    };
    let value = if negative {
        -(digits_value(digits) as int)
    } else {
        digits_value(digits) as int
    };
    if digits.len() > 0 && all_digits(digits) && i32::MIN <= value <= i32::MAX {
        Some(value)
    } else {
        None
    }
}

/// The timestamp that a line holds, or why it holds none.
pub open spec fn note_of(line: Seq<u8>) -> Result<i32, NoteError> {
    match field(line, 2) {
        None => Err(NoteError::MissingField),
        Some(third) => match number_of(third) {
            Some(value) => Ok(value as i32),
            None => Err(NoteError::InvalidNumber),
        },
    }
}

/// Where the line that starts at `from` ends: at its line feed, or at the
/// end of the text.
pub open spec fn line_end(text: Seq<u8>, from: int) -> int {
    find(text, from, LINE_FEED)
}

/// The line that starts at `from`, without the carriage return that may
/// stand before its line feed.
pub open spec fn line_at(text: Seq<u8>, from: int) -> Seq<u8> {
    let end = line_end(text, from);
    if end < text.len() && from < end && text[end - 1] == CARRIAGE_RETURN {
        text.subrange(from, end - 1)
    } else {
        text.subrange(from, end)
    }
}

/// The timestamps of the lines from position `from` on. Before the header
/// line has been seen (`in_section` is false) lines are only searched for
/// it; after it, each line that holds a timestamp contributes it.
pub open spec fn notes_from(text: Seq<u8>, from: int, in_section: bool) -> Seq<i32>
    decreases text.len() + 1 - from,
{
    if from < 0 || from >= text.len() {
        Seq::empty()
    } else {
        proof {
            lemma_find_bounds(text, from, LINE_FEED);
        }
        let line = line_at(text, from);
        let next = line_end(text, from) + 1;
        if !in_section {
            notes_from(text, next, line == header())
        } else {
            match note_of(line) {
                Ok(t) => seq![t] + notes_from(text, next, true),
                Err(_) => notes_from(text, next, true),
            }
        }
    }
}

/// The timestamps of the hit objects of a beatmap file, in file order.
pub open spec fn hit_objects_of(text: Seq<u8>) -> Seq<i32> {
    notes_from(text, 0, false)
}

/// The first `byte` at or after `from` lies within the sequence, and no
/// earlier position from `from` on holds it.
pub proof fn lemma_find_bounds(s: Seq<u8>, from: int, byte: u8)
    requires
        0 <= from <= s.len(),
    ensures
        from <= find(s, from, byte) <= s.len(),
        find(s, from, byte) < s.len() ==> s[find(s, from, byte)] == byte,
        forall|i: int| from <= i < find(s, from, byte) ==> s[i] != byte,
    decreases s.len() - from,
{
    if from < s.len() && s[from] != byte {
        lemma_find_bounds(s, from + 1, byte);
    }
}

/// A prefix of a sequence of digits writes a number no larger than the
/// whole sequence does.
pub proof fn lemma_digits_prefix(s: Seq<u8>, k: int)
    requires
        0 <= k <= s.len(),
    ensures
        digits_value(s.take(k)) <= digits_value(s),
    decreases s.len(),
{
    if k == s.len() {
        assert(s.take(k) =~= s);
    } else {
        assert(s.drop_last().take(k) =~= s.take(k));
        lemma_digits_prefix(s.drop_last(), k);
    }
}

/// Computes [`find`].
fn find_byte(s: &[u8], from: usize, byte: u8) -> (at: usize)
    requires
        from <= s@.len(),
    ensures
        at == find(s@, from as int, byte),
        from <= at <= s@.len(),
{
    let mut i: usize = from;
    while i < s.len() && s[i] != byte
        invariant
            from <= i <= s@.len(),
            find(s@, from as int, byte) == find(s@, i as int, byte),
        decreases s@.len() - i,
    {
        i += 1;
    }
    i
}

/// Computes [`number_of`].
fn parse_number(s: &[u8]) -> (r: Option<i32>)
    ensures
        match r {
            Some(v) => number_of(s@) == Some(v as int),
            None => number_of(s@).is_none(),
        },
{
    let n: usize = s.len();
    if n == 0 {
        return None;
    }
    let negative: bool = s[0] == MINUS;
    let start: usize = if s[0] == MINUS || s[0] == PLUS {
        1
    } else {
        0
    };
    if start == n {
        return None;
    }
    let ghost digits = if start == 1 {
        s@.skip(1)
    } else {
        s@
    };
    let mut value: i64 = 0;
    let mut i: usize = start;
    assert(digits.take(0) =~= Seq::<u8>::empty());
    while i < n
        invariant
            start <= i <= n,
            n == s@.len(),
            digits.len() == n - start,
            start <= 1,
            start == 1 <==> (s@[0] == MINUS || s@[0] == PLUS),
            negative == (s@[0] == MINUS),
            digits == (if start == 1 {
                s@.skip(1)
            } else {
                s@
            }),
            all_digits(digits.take(i - start)),
            value == digits_value(digits.take(i - start)),
            0 <= value <= 0x8000_0000,
        decreases n - i,
    {
        let b: u8 = s[i];
        if b < ZERO || b > NINE {
            assert(!is_digit(digits[i - start]));
            return None;
        }
        proof {
            let seen = digits.take(i - start);
            assert(digits.take(i - start + 1) =~= seen.push(b));
            assert(seen.push(b).drop_last() =~= seen);
        }
        value = value * 10 + (b - ZERO) as i64;
        if value > 0x8000_0000 {
            proof {
                lemma_digits_prefix(digits, i - start + 1);
            }
            return None;
        }
        i += 1;
    }
    assert(digits.take(n - start) =~= digits);
    if negative {
        Some((-value) as i32)
    } else if value > 0x7fff_ffff {
        None
    } else {
        Some(value as i32)
    }
}

/// The timestamp of one hit-object line: its third comma-separated field,
/// read as a decimal number.
pub fn read_note(line: &[u8]) -> (r: Result<i32, NoteError>)
    ensures
        r == note_of(line@),
{
    let n: usize = line.len();
    let first_comma: usize = find_byte(line, 0, COMMA);
    if first_comma >= n {
        assert(field_start(line@, 2) > n) by {
            reveal_with_fuel(field_start, 3);
        }
        return Err(NoteError::MissingField);
    }
    let second_comma: usize = find_byte(line, first_comma + 1, COMMA);
    assert(field_start(line@, 2) == second_comma + 1) by {
        reveal_with_fuel(field_start, 3);
    }
    if second_comma >= n {
        return Err(NoteError::MissingField);
    }
    let start: usize = second_comma + 1;
    let end: usize = find_byte(line, start, COMMA);
    let third = slice_subrange(line, start, end);
    match parse_number(third) {
        Some(value) => Ok(value),
        None => Err(NoteError::InvalidNumber),
    }
}

/// Whether a line reads `[HitObjects]`.
fn is_header(line: &[u8]) -> (b: bool)
    ensures
        b == (line@ == header()),
{
    let b: bool = line.len() == 12 && line[0] == 0x5b && line[1] == 0x48 && line[2] == 0x69
        && line[3] == 0x74 && line[4] == 0x4f && line[5] == 0x62 && line[6] == 0x6a && line[7]
        == 0x65 && line[8] == 0x63 && line[9] == 0x74 && line[10] == 0x73 && line[11] == 0x5d;
    proof {
        if b {
            assert(line@ =~= header());
        }
    }
    b
}

/// The timestamps of the hit objects in the text of a beatmap file, in the
/// order of the file: one for each line after the `[HitObjects]` line that
/// holds a timestamp. No text makes this fail; a text without the header
/// line yields no timestamp.
pub fn parse_hit_objects(curl_content: &[u8]) -> (r: Result<Vec<i32>, String>)
    ensures
        r matches Ok(notes) && notes@ == hit_objects_of(curl_content@),
{
    let n: usize = curl_content.len();
    let mut notes: Vec<i32> = Vec::new();
    let mut hit_objects: bool = false;
    let mut from: usize = 0;
    while from < n
        invariant
            from <= n,
            n == curl_content@.len(),
            notes@ + notes_from(curl_content@, from as int, hit_objects) == hit_objects_of(
                curl_content@,
            ),
        decreases n - from,
    {
        let end: usize = find_byte(curl_content, from, LINE_FEED);
        let line_stop: usize = if end < n && from < end && curl_content[end - 1]
            == CARRIAGE_RETURN {
            end - 1
        } else {
            end
        };
        let line = slice_subrange(curl_content, from, line_stop);
        assert(line@ == line_at(curl_content@, from as int));
        if !hit_objects {
            hit_objects = is_header(line);
        } else {
            match read_note(line) {
                Ok(t) => {
                    proof {
                        let rest = notes_from(curl_content@, end + 1, true);
                        assert(notes@.push(t) + rest =~= notes@ + (seq![t] + rest));
                    }
                    notes.push(t);
                },
                Err(_) => {},
            }
        }
        proof {
            assert(notes_from(curl_content@, n as int, true) =~= notes_from(
                curl_content@,
                n + 1,
                true,
            ));
            assert(notes_from(curl_content@, n as int, false) =~= notes_from(
                curl_content@,
                n + 1,
                false,
            ));
            assert(notes_from(curl_content@, n as int, false) =~= notes_from(
                curl_content@,
                n as int,
                true,
            ));
        }
        from = if end < n {
            end + 1
        } else {
            n
        };
    }
    assert(notes@ + Seq::<i32>::empty() =~= notes@);
    Ok(notes)
}

} // verus!
