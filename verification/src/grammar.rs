//! The grammar: what is read at a position of a text, as functions on
//! sequences of characters.

use crate::error::{failure, ErrorKind, FaultModel, Outcome};
use crate::text::is_scalar;
use crate::value::{with_member, ExponentModel, Members, NumberModel, ValueModel};
use vstd::prelude::*;

verus! {

/// The deepest nesting of arrays and objects that is read.
pub const MAX_DEPTH: usize = 128;

pub open spec fn is_whitespace(c: char) -> bool {
    c == ' ' || c == '\t' || c == '\n' || c == '\r'
}

pub open spec fn is_digit(c: char) -> bool {
    '0' <= c <= '9'
}

pub open spec fn is_hex_digit(c: char) -> bool {
    '0' <= c <= '9' || 'a' <= c <= 'f' || 'A' <= c <= 'F'
}

pub open spec fn hex_value(c: char) -> int {
    if '0' <= c <= '9' {
        c as int - '0' as int
    } else if 'a' <= c <= 'f' {
        c as int - 'a' as int + 10
    } else {
        c as int - 'A' as int + 10
    }
}

/// A character that stands for itself inside a string: no control character,
/// no quote, no backslash.
pub open spec fn is_plain(c: char) -> bool {
    c as int >= 0x20 && c != '"' && c != '\\'
}

/// The character that a backslash followed by `c` stands for, for the
/// one-letter escapes.
pub open spec fn simple_escape(c: char) -> Option<char> {
    if c == '"' {
        Some('"')
    } else if c == '\\' {
        Some('\\')
    } else if c == '/' {
        Some('/')
    } else if c == 'b' {
        Some('\u{8}')
    } else if c == 'f' {
        Some('\u{c}')
    } else if c == 'n' {
        Some('\n')
    } else if c == 'r' {
        Some('\r')
    } else if c == 't' {
        Some('\t')
    } else {
        None
    }
}

/// The first position at or after `pos` that holds no whitespace.
pub open spec fn after_whitespace(s: Seq<char>, pos: int) -> int
    decreases s.len() - pos,
{
    if 0 <= pos < s.len() && is_whitespace(s[pos]) {
        after_whitespace(s, pos + 1)
    } else {
        pos
    }
}

/// The first position at or after `pos` that holds no decimal digit.
pub open spec fn after_digits(s: Seq<char>, pos: int) -> int
    decreases s.len() - pos,
{
    if 0 <= pos < s.len() && is_digit(s[pos]) {
        after_digits(s, pos + 1)
    } else {
        pos
    }
}

/// Whether `word` stands in `s` at `pos`.
pub open spec fn word_at(s: Seq<char>, pos: int, word: Seq<char>) -> bool {
    0 <= pos && pos + word.len() <= s.len() && s.subrange(pos, pos + word.len()) == word
}

/// The number that starts at `pos`: an optional `-`, digits, an optional
/// fraction and an optional exponent, each with at least one digit.
pub open spec fn number_at(s: Seq<char>, pos: int) -> Outcome<NumberModel> {
    let negative = 0 <= pos < s.len() && s[pos] == '-';
    let whole = if negative { pos + 1 } else { pos };
    let whole_end = after_digits(s, whole);
    let dot = 0 <= whole_end < s.len() && s[whole_end] == '.';
    let fraction_end = if dot { after_digits(s, whole_end + 1) } else { whole_end };
    let mark = 0 <= fraction_end < s.len() && (s[fraction_end] == 'e' || s[fraction_end] == 'E');
    let sign = mark && fraction_end + 1 < s.len() && (s[fraction_end + 1] == '+' || s[fraction_end
        + 1] == '-');
    let exponent = if sign { fraction_end + 2 } else { fraction_end + 1 };
    let exponent_end = after_digits(s, exponent);
    if whole_end == whole {
        failure(ErrorKind::MalformedNumber, pos, whole_end)
    } else if dot && fraction_end == whole_end + 1 {
        failure(ErrorKind::MalformedNumber, pos, fraction_end)
    } else if mark && exponent_end == exponent {
        failure(ErrorKind::MalformedNumber, pos, exponent_end)
    } else {
        Ok(
            (
                NumberModel {
                    negative,
                    whole: s.subrange(whole, whole_end),
                    fraction: if dot {
                        Some(s.subrange(whole_end + 1, fraction_end))
                    } else {
                        None
                    },
                    exponent: if mark {
                        Some(
                            ExponentModel {
                                negative: sign && s[fraction_end + 1] == '-',
                                digits: s.subrange(exponent, exponent_end),
                            },
                        )
                    } else {
                        None
                    },
                },
                if mark { exponent_end } else { fraction_end },
            ),
        )
    }
}

/// The value of the hex digit at `pos`, inside the escape that starts at
/// `escape` of the string that starts at `start`.
pub open spec fn hex_digit_at(s: Seq<char>, start: int, escape: int, pos: int) -> Result<
    int,
    FaultModel,
> {
    if !(0 <= pos < s.len()) {
        Err(FaultModel { kind: ErrorKind::UnterminatedString, from: start, to: s.len() as int })
    } else if !is_hex_digit(s[pos]) {
        Err(FaultModel { kind: ErrorKind::InvalidEscape, from: escape, to: pos })
    } else {
        Ok(hex_value(s[pos]))
    }
}

/// The character that the escape at `pos` (a backslash) stands for, inside
/// the string that starts at `start`.
pub open spec fn escape_at(s: Seq<char>, start: int, pos: int) -> Outcome<char> {
    if !(0 <= pos + 1 < s.len()) {
        failure(ErrorKind::UnterminatedString, start, s.len() as int)
    } else if s[pos + 1] == 'u' {
        match hex_digit_at(s, start, pos, pos + 2) {
            Err(f) => Err(f),
            Ok(a) => match hex_digit_at(s, start, pos, pos + 3) {
                Err(f) => Err(f),
                Ok(b) => match hex_digit_at(s, start, pos, pos + 4) {
                    Err(f) => Err(f),
                    Ok(c) => match hex_digit_at(s, start, pos, pos + 5) {
                        Err(f) => Err(f),
                        Ok(d) => {
                            let code = a * 4096 + b * 256 + c * 16 + d;
                            if is_scalar(code) {
                                Ok((code as char, pos + 6))
                            } else {
                                failure(ErrorKind::InvalidCodePoint, pos, pos + 6)
                            }
                        },
                    },
                },
            },
        }
    } else {
        match simple_escape(s[pos + 1]) {
            Some(c) => Ok((c, pos + 2)),
            None => failure(ErrorKind::InvalidEscape, pos, pos + 1),
        }
    }
}

/// The rest of the string that starts at `start`, read from `pos` on, with
/// `text` read so far.
pub open spec fn string_rest(s: Seq<char>, start: int, pos: int, text: Seq<char>) -> Outcome<
    Seq<char>,
>
    decreases s.len() - pos,
{
    if !(0 <= pos < s.len()) {
        failure(ErrorKind::UnterminatedString, start, s.len() as int)
    } else if s[pos] == '"' {
        Ok((text, pos + 1))
    } else if s[pos] == '\\' {
        match escape_at(s, start, pos) {
            Err(f) => Err(f),
            Ok((c, next)) => string_rest(s, start, next, text.push(c)),
        }
    } else if is_plain(s[pos]) {
        string_rest(s, start, pos + 1, text.push(s[pos]))
    } else {
        failure(ErrorKind::UnterminatedString, start, pos)
    }
}

/// The string that starts at `pos`, with its opening quote.
pub open spec fn string_at(s: Seq<char>, pos: int) -> Outcome<Seq<char>> {
    if 0 <= pos < s.len() && s[pos] == '"' {
        string_rest(s, pos, pos + 1, Seq::empty())
    } else {
        failure(ErrorKind::UnexpectedCharacter, pos, pos)
    }
}

/// Whitespace is skipped forwards, up to the first character that is none.
pub proof fn lemma_after_whitespace(s: Seq<char>, pos: int)
    ensures
        pos <= after_whitespace(s, pos),
        pos <= s.len() ==> after_whitespace(s, pos) <= s.len(),
        forall|i: int| pos <= i < after_whitespace(s, pos) ==> is_whitespace(#[trigger] s[i]),
        0 <= after_whitespace(s, pos) < s.len() ==> !is_whitespace(s[after_whitespace(s, pos)]),
        after_whitespace(s, after_whitespace(s, pos)) == after_whitespace(s, pos),
    decreases s.len() - pos,
{
    if 0 <= pos < s.len() && is_whitespace(s[pos]) {
        lemma_after_whitespace(s, pos + 1);
    }
}

/// Skipping whitespace from the middle of a run of whitespace ends where
/// skipping from its start ends.
pub proof fn lemma_after_whitespace_from(s: Seq<char>, p: int, q: int)
    requires
        p <= q <= after_whitespace(s, p),
    ensures
        after_whitespace(s, q) == after_whitespace(s, p),
    decreases q - p,
{
    if p < q {
        lemma_after_whitespace_from(s, p + 1, q);
    }
}

/// A string ends after its start, inside the input.
pub proof fn lemma_string_rest_end(s: Seq<char>, start: int, pos: int, text: Seq<char>)
    ensures
        string_rest(s, start, pos, text) matches Ok((_, end)) ==> pos < end <= s.len(),
    decreases s.len() - pos,
{
    if 0 <= pos < s.len() && s[pos] != '"' {
        if s[pos] == '\\' {
            if let Ok((c, next)) = escape_at(s, start, pos) {
                lemma_string_rest_end(s, start, next, text.push(c));
            }
        } else if is_plain(s[pos]) {
            lemma_string_rest_end(s, start, pos + 1, text.push(s[pos]));
        }
    }
}

/// The value that starts at `pos`, with no whitespace before it: a string,
/// an object, an array, `true`, `false`, `null` or a number.
pub open spec fn token_at(s: Seq<char>, pos: int, depth: nat) -> Outcome<ValueModel>
    decreases s.len() - pos, 2int,
{
    if !(0 <= pos < s.len()) {
        failure(ErrorKind::UnexpectedCharacter, pos, pos)
    } else if s[pos] == '"' {
        match string_at(s, pos) {
            Ok((t, end)) => Ok((ValueModel::Text(t), end)),
            Err(f) => Err(f),
        }
    } else if s[pos] == '{' {
        match object_at(s, pos, depth) {
            Ok((m, end)) => Ok((ValueModel::Object(m), end)),
            Err(f) => Err(f),
        }
    } else if s[pos] == '[' {
        match array_at(s, pos, depth) {
            Ok((a, end)) => Ok((ValueModel::Array(a), end)),
            Err(f) => Err(f),
        }
    } else if word_at(s, pos, "true"@) {
        Ok((ValueModel::Bool(true), pos + 4))
    } else if word_at(s, pos, "false"@) {
        Ok((ValueModel::Bool(false), pos + 5))
    } else if word_at(s, pos, "null"@) {
        Ok((ValueModel::Null, pos + 4))
    } else if s[pos] == '-' || is_digit(s[pos]) {
        match number_at(s, pos) {
            Ok((n, end)) => Ok((ValueModel::Number(n), end)),
            Err(f) => Err(f),
        }
    } else {
        failure(ErrorKind::UnexpectedCharacter, pos, pos)
    }
}

/// The value at `pos`, with the whitespace before and after it. `depth` is
/// the number of arrays and objects that the value stands in.
pub open spec fn value_at(s: Seq<char>, pos: int, depth: nat) -> Outcome<ValueModel>
    decreases s.len() - pos, 3int,
{
    let start = after_whitespace(s, pos);
    proof {
        lemma_after_whitespace(s, pos);
    }
    match token_at(s, start, depth) {
        Ok((v, end)) => Ok((v, after_whitespace(s, end))),
        Err(f) => Err(f),
    }
}

/// The array that starts at `pos`, with its opening bracket.
pub open spec fn array_at(s: Seq<char>, pos: int, depth: nat) -> Outcome<Seq<ValueModel>>
    decreases s.len() - pos, 1int,
{
    if !(0 <= pos < s.len() && s[pos] == '[') {
        failure(ErrorKind::UnexpectedCharacter, pos, pos)
    } else if depth >= MAX_DEPTH {
        failure(ErrorKind::NestingTooDeep, pos, pos)
    } else {
        let first = after_whitespace(s, pos + 1);
        proof {
            lemma_after_whitespace(s, pos + 1);
        }
        if first < s.len() && s[first] == ']' {
            Ok((Seq::empty(), first + 1))
        } else {
            elements_at(s, first, depth + 1, Seq::empty())
        }
    }
}

/// The elements of an array from `pos` on, up to its closing bracket, after
/// the elements `items`.
pub open spec fn elements_at(s: Seq<char>, pos: int, depth: nat, items: Seq<ValueModel>) -> Outcome<
    Seq<ValueModel>,
>
    decreases s.len() - pos, 4int,
{
    match value_at(s, pos, depth) {
        Err(f) => Err(f),
        Ok((v, end)) => {
            if !(pos <= end < s.len()) {
                failure(ErrorKind::MissingSeparator, end, end)
            } else if s[end] == ']' {
                Ok((items.push(v), end + 1))
            } else if s[end] == ',' {
                let next = after_whitespace(s, end + 1);
                if next < s.len() && s[next] == ']' {
                    failure(ErrorKind::TrailingComma, end, next)
                } else {
                    elements_at(s, end + 1, depth, items.push(v))
                }
            } else {
                failure(ErrorKind::MissingSeparator, end, end)
            }
        },
    }
}

/// The object that starts at `pos`, with its opening brace.
pub open spec fn object_at(s: Seq<char>, pos: int, depth: nat) -> Outcome<Members>
    decreases s.len() - pos, 1int,
{
    if !(0 <= pos < s.len() && s[pos] == '{') {
        failure(ErrorKind::UnexpectedCharacter, pos, pos)
    } else if depth >= MAX_DEPTH {
        failure(ErrorKind::NestingTooDeep, pos, pos)
    } else {
        let first = after_whitespace(s, pos + 1);
        proof {
            lemma_after_whitespace(s, pos + 1);
        }
        if first < s.len() && s[first] == '}' {
            Ok((Seq::empty(), first + 1))
        } else {
            members_at(s, first, depth + 1, Seq::empty())
        }
    }
}

/// The members of an object from `pos` on, where a key is due, up to its
/// closing brace, after the members `members`. A key that came before gets
/// the later value.
pub open spec fn members_at(s: Seq<char>, pos: int, depth: nat, members: Members) -> Outcome<
    Members,
>
    decreases s.len() - pos, 4int,
{
    match string_at(s, pos) {
        Err(f) => Err(f),
        Ok((key, key_end)) => {
            let colon = after_whitespace(s, key_end);
            proof {
                lemma_string_rest_end(s, pos, pos + 1, Seq::empty());
                lemma_after_whitespace(s, key_end);
            }
            if !(0 <= colon < s.len() && s[colon] == ':') {
                failure(ErrorKind::MissingSeparator, colon, colon)
            } else {
                match value_at(s, colon + 1, depth) {
                    Err(f) => Err(f),
                    Ok((v, end)) => {
                        let all = with_member(members, key, v);
                        if !(pos <= end < s.len()) {
                            failure(ErrorKind::MissingSeparator, end, end)
                        } else if s[end] == '}' {
                            Ok((all, end + 1))
                        } else if s[end] == ',' {
                            let next = after_whitespace(s, end + 1);
                            proof {
                                lemma_after_whitespace(s, end + 1);
                            }
                            if next < s.len() && s[next] == '}' {
                                failure(ErrorKind::TrailingComma, end, next)
                            } else {
                                members_at(s, next, depth, all)
                            }
                        } else {
                            failure(ErrorKind::MissingSeparator, end, end)
                        }
                    },
                }
            }
        },
    }
}

/// The value that `s` holds as a whole: one value, with whitespace around
/// it and nothing else.
pub open spec fn document(s: Seq<char>) -> Result<ValueModel, FaultModel> {
    match value_at(s, 0, 0) {
        Err(f) => Err(f),
        Ok((v, end)) => if end == s.len() {
            Ok(v)
        } else {
            Err(FaultModel { kind: ErrorKind::UnexpectedCharacter, from: end, to: end })
        },
    }
}

} // verus!
