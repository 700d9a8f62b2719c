//! The reader of what has no parts: whitespace, numbers and strings.

use crate::error::{agrees, ErrorKind, Fault, FaultModel};
use crate::grammar::{
    after_digits, after_whitespace, escape_at, hex_digit_at, is_digit, is_plain, number_at,
    string_at, string_rest,
};
use crate::text::chars_of;
use crate::value::{Exponent, Number, NumberModel};
use vstd::prelude::*;

verus! {

/// Whether `c` stands for itself inside a string.
pub fn is_non_escape(c: char) -> (b: bool)
    ensures
        b == is_plain(c),
{
    c >= ' ' && c != '"' && c != '\\'
}

/// Skips the whitespace at `pos`.
pub fn whitespace(input: &[char], pos: usize) -> (end: usize)
    ensures
        end == after_whitespace(input@, pos as int),
        pos <= end,
        pos <= input@.len() ==> end <= input@.len(),
{
    let mut i = pos;
    while i < input.len() && (input[i] == ' ' || input[i] == '\t' || input[i] == '\n' || input[i]
        == '\r')
        invariant
            pos <= i,
            pos <= input@.len() ==> i <= input@.len(),
            after_whitespace(input@, pos as int) == after_whitespace(input@, i as int),
        decreases input@.len() - i,
    {
        i += 1;
    }
    i
}

/// Skips the decimal digits at `pos`.
pub fn digits(input: &[char], pos: usize) -> (end: usize)
    ensures
        end == after_digits(input@, pos as int),
        pos <= end,
        pos <= input@.len() ==> end <= input@.len(),
        forall|i: int| pos <= i < end ==> is_digit(#[trigger] input@[i]),
{
    let mut i = pos;
    while i < input.len() && input[i] >= '0' && input[i] <= '9'
        invariant
            pos <= i,
            pos <= input@.len() ==> i <= input@.len(),
            after_digits(input@, pos as int) == after_digits(input@, i as int),
            forall|j: int| pos <= j < i ==> is_digit(#[trigger] input@[j]),
        decreases input@.len() - i,
    {
        i += 1;
    }
    i
}

/// The characters of `input` from `from` up to `to`, as a string.
fn slice_text(input: &[char], from: usize, to: usize) -> (t: String)
    requires
        from <= to <= input@.len(),
    ensures
        t@ == input@.subrange(from as int, to as int),
{
    let mut t = String::new();
    let mut i = from;
    while i < to
        invariant
            from <= i <= to <= input@.len(),
            t@ == input@.subrange(from as int, i as int),
        decreases to - i,
    {
        t.push(input[i]);
        i += 1;
        assert(input@.subrange(from as int, i as int) == input@.subrange(
            from as int,
            i as int - 1,
        ).push(input@[i as int - 1]));
    }
    t
}

/// Reads the number at `pos`.
pub fn number(input: &[char], pos: usize) -> (r: Result<(Number, usize), Fault>)
    ensures
        agrees(r, number_at(input@, pos as int)),
        r matches Ok((_, end)) ==> pos < end <= input@.len(),
{
    let len = input.len();
    let negative = pos < len && input[pos] == '-';
    let whole = if negative { pos + 1 } else { pos };
    let whole_end = digits(input, whole);
    if whole_end == whole {
        return Err(Fault { kind: ErrorKind::MalformedNumber, from: pos, to: whole_end });
    }
    let dot = whole_end < len && input[whole_end] == '.';
    let fraction_end = if dot { digits(input, whole_end + 1) } else { whole_end };
    if dot && fraction_end == whole_end + 1 {
        return Err(Fault { kind: ErrorKind::MalformedNumber, from: pos, to: fraction_end });
    }
    let mark = fraction_end < len && (input[fraction_end] == 'e' || input[fraction_end] == 'E');
    if !mark {
        let fraction = if dot { Some(slice_text(input, whole_end + 1, fraction_end)) } else { None };
        let n = Number::from_parts(negative, slice_text(input, whole, whole_end), fraction, None);
        return Ok((n, fraction_end));
    }
    let sign = fraction_end + 1 < len && (input[fraction_end + 1] == '+' || input[fraction_end
        + 1] == '-');
    let exponent = if sign { fraction_end + 2 } else { fraction_end + 1 };
    let exponent_end = digits(input, exponent);
    if exponent_end == exponent {
        return Err(Fault { kind: ErrorKind::MalformedNumber, from: pos, to: exponent_end });
    }
    let fraction = if dot { Some(slice_text(input, whole_end + 1, fraction_end)) } else { None };
    let e = Exponent {
        negative: sign && input[fraction_end + 1] == '-',
        digits: slice_text(input, exponent, exponent_end),
    };
    let n = Number::from_parts(negative, slice_text(input, whole, whole_end), fraction, Some(e));
    Ok((n, exponent_end))
}

impl Number {
    /// The number that `text` is, if it is one from its start to its end.
    pub fn from_text(text: &str) -> (r: Option<Number>)
        ensures
            match r {
                Some(n) => number_at(text@, 0) == Ok::<(NumberModel, int), FaultModel>(
                    (n@, text@.len() as int),
                ),
                None => !(number_at(text@, 0) matches Ok((_, end)) && end == text@.len()),
            },
    {
        let chars = chars_of(text);
        match number(chars.as_slice(), 0) {
            Ok((n, end)) => if end == chars.len() {
                Some(n)
            } else {
                None
            },
            Err(_) => None,
        }
    }
}

/// Reads the hex digit at `pos`, inside the escape that starts at `escape`
/// of the string that starts at `start`.
pub fn hex_digit(input: &[char], start: usize, escape: usize, pos: usize) -> (r: Result<
    u32,
    Fault,
>)
    ensures
        match r {
            Ok(d) => hex_digit_at(input@, start as int, escape as int, pos as int) == Ok::<
                int,
                FaultModel,
            >(d as int),
            Err(f) => hex_digit_at(input@, start as int, escape as int, pos as int) == Err::<
                int,
                FaultModel,
            >(f@),
        },
        r matches Ok(d) ==> d < 16,
{
    if pos >= input.len() {
        return Err(Fault { kind: ErrorKind::UnterminatedString, from: start, to: input.len() });
    }
    let c = input[pos];
    if c >= '0' && c <= '9' {
        Ok(c as u32 - '0' as u32)
    } else if c >= 'a' && c <= 'f' {
        Ok(c as u32 - 'a' as u32 + 10)
    } else if c >= 'A' && c <= 'F' {
        Ok(c as u32 - 'A' as u32 + 10)
    } else {
        Err(Fault { kind: ErrorKind::InvalidEscape, from: escape, to: pos })
    }
}

/// Reads the escape at `pos`, a backslash inside the string that starts at
/// `start`.
pub fn escape(input: &[char], start: usize, pos: usize) -> (r: Result<(char, usize), Fault>)
    ensures
        agrees(r, escape_at(input@, start as int, pos as int)),
        r matches Ok((_, end)) ==> pos < end <= input@.len(),
{
    let len = input.len();
    if pos >= len || pos + 1 >= len {
        return Err(Fault { kind: ErrorKind::UnterminatedString, from: start, to: len });
    }
    let c = input[pos + 1];
    if c == 'u' {
        let a = hex_digit(input, start, pos, pos + 2)?;
        let b = hex_digit(input, start, pos, pos + 3)?;
        let c = hex_digit(input, start, pos, pos + 4)?;
        let d = hex_digit(input, start, pos, pos + 5)?;
        let code = a * 4096 + b * 256 + c * 16 + d;
        match char::from_u32(code) {
            Some(ch) => Ok((ch, pos + 6)),
            None => Err(Fault { kind: ErrorKind::InvalidCodePoint, from: pos, to: pos + 6 }),
        }
    } else {
        let plain = if c == '"' {
            '"'
        } else if c == '\\' {
            '\\'
        } else if c == '/' {
            '/'
        } else if c == 'b' {
            '\u{8}'
        } else if c == 'f' {
            '\u{c}'
        } else if c == 'n' {
            '\n'
        } else if c == 'r' {
            '\r'
        } else if c == 't' {
            '\t'
        } else {
            return Err(Fault { kind: ErrorKind::InvalidEscape, from: pos, to: pos + 1 });
        };
        Ok((plain, pos + 2))
    }
}

/// Reads the string at `pos`: the text between its quotes, each escape
/// replaced by the character it stands for.
pub fn string(input: &[char], pos: usize) -> (r: Result<(String, usize), Fault>)
    ensures
        agrees(r, string_at(input@, pos as int)),
        r matches Ok((_, end)) ==> pos < end <= input@.len(),
{
    let len = input.len();
    if pos >= len || input[pos] != '"' {
        return Err(Fault { kind: ErrorKind::UnexpectedCharacter, from: pos, to: pos });
    }
    let mut text = String::new();
    let mut i = pos + 1;
    loop
        invariant
            len == input@.len(),
            pos < i <= len,
            string_at(input@, pos as int) == string_rest(input@, pos as int, i as int, text@),
        decreases len - i,
    {
        if i >= len {
            return Err(Fault { kind: ErrorKind::UnterminatedString, from: pos, to: len });
        }
        let c = input[i];
        if c == '"' {
            return Ok((text, i + 1));
        } else if c == '\\' {
            match escape(input, pos, i) {
                Err(f) => {
                    return Err(f);
                },
                Ok((ch, next)) => {
                    text.push(ch);
                    i = next;
                },
            }
        } else if is_non_escape(c) {
            text.push(c);
            i += 1;
        } else {
            return Err(Fault { kind: ErrorKind::UnterminatedString, from: pos, to: i });
        }
    }
}

} // verus!
