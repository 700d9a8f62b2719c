//! The reader of values, arrays, objects and whole documents.

use crate::error::{agrees, ErrorKind, Fault, FaultModel, Outcome, ParseError};
use crate::grammar::{
    array_at, document, elements_at, members_at, object_at, value_at, word_at, MAX_DEPTH,
};
use crate::results::{lemma_document, lemma_value_at};
use crate::roundtrip::{lemma_round_trip, minimal_text};
use crate::scanner::{number, string, whitespace};
use crate::text::chars_of;
use crate::value::{models, value_valid, Object, Value, ValueModel};
use vstd::prelude::*;
use vstd::string::StrSliceExecFns;

verus! {

/// Whether `word` stands in `input` at `pos`.
pub fn literal(input: &[char], pos: usize, word: &str) -> (b: bool)
    ensures
        b == word_at(input@, pos as int, word@),
{
    let n = word.unicode_len();
    if pos > input.len() || input.len() - pos < n {
        return false;
    }
    let mut i: usize = 0;
    while i < n
        invariant
            i <= n,
            n == word@.len(),
            pos + n <= input@.len() <= usize::MAX,
            forall|j: int| 0 <= j < i ==> input@[pos + j] == word@[j],
        decreases n - i,
    {
        if input[pos + i] != word.get_char(i) {
            assert(input@.subrange(pos as int, pos + n)[i as int] != word@[i as int]);
            return false;
        }
        i += 1;
    }
    assert(input@.subrange(pos as int, pos + n) =~= word@);
    true
}

/// Whether the items of an executable result stand for the outcome `o`.
pub open spec fn items_agree(
    r: Result<(Vec<Value>, usize), Fault>,
    o: Outcome<Seq<ValueModel>>,
) -> bool {
    match r {
        Ok((items, end)) => o == Ok::<(Seq<ValueModel>, int), FaultModel>(
            (models(items@), end as int),
        ),
        Err(f) => o == Err::<(Seq<ValueModel>, int), FaultModel>(f@),
    }
}

/// Reads the array at `pos`, which stands inside `depth` arrays and objects:
/// its elements, in order.
pub fn array(input: &[char], pos: usize, depth: usize) -> (r: Result<(Vec<Value>, usize), Fault>)
    ensures
        items_agree(r, array_at(input@, pos as int, depth as nat)),
        r matches Ok((_, end)) ==> pos < end <= input@.len(),
    decreases input@.len() - pos, 1int,
{
    let len = input.len();
    if pos >= len || input[pos] != '[' {
        return Err(Fault { kind: ErrorKind::UnexpectedCharacter, from: pos, to: pos });
    }
    if depth >= MAX_DEPTH {
        return Err(Fault { kind: ErrorKind::NestingTooDeep, from: pos, to: pos });
    }
    let first = whitespace(input, pos + 1);
    let mut items: Vec<Value> = Vec::new();
    if first < len && input[first] == ']' {
        assert(models(items@) =~= Seq::empty());
        return Ok((items, first + 1));
    }
    let mut at = first;
    assert(models(items@) =~= Seq::empty());
    loop
        invariant
            len == input@.len(),
            pos < at <= len,
            depth < MAX_DEPTH,
            array_at(input@, pos as int, depth as nat) == elements_at(
                input@,
                at as int,
                (depth + 1) as nat,
                models(items@),
            ),
        decreases len - at,
    {
        let ghost before = items@;
        match value_helper(input, at, depth + 1) {
            Err(f) => {
                return Err(f);
            },
            Ok((v, end)) => {
                if end >= len {
                    return Err(Fault { kind: ErrorKind::MissingSeparator, from: end, to: end });
                }
                let c = input[end];
                if c == ']' {
                    items.push(v);
                    assert(models(items@) =~= models(before).push(v@));
                    return Ok((items, end + 1));
                } else if c == ',' {
                    let next = whitespace(input, end + 1);
                    if next < len && input[next] == ']' {
                        return Err(Fault { kind: ErrorKind::TrailingComma, from: end, to: next });
                    }
                    items.push(v);
                    assert(models(items@) =~= models(before).push(v@));
                    at = end + 1;
                } else {
                    return Err(Fault { kind: ErrorKind::MissingSeparator, from: end, to: end });
                }
            },
        }
    }
}

/// Reads the object at `pos`, which stands inside `depth` arrays and
/// objects: its members, the last value of a key that comes twice.
pub fn object(input: &[char], pos: usize, depth: usize) -> (r: Result<(Object, usize), Fault>)
    ensures
        agrees(r, object_at(input@, pos as int, depth as nat)),
        r matches Ok((_, end)) ==> pos < end <= input@.len(),
    decreases input@.len() - pos, 1int,
{
    let len = input.len();
    if pos >= len || input[pos] != '{' {
        return Err(Fault { kind: ErrorKind::UnexpectedCharacter, from: pos, to: pos });
    }
    if depth >= MAX_DEPTH {
        return Err(Fault { kind: ErrorKind::NestingTooDeep, from: pos, to: pos });
    }
    let first = whitespace(input, pos + 1);
    let mut members = Object::new();
    if first < len && input[first] == '}' {
        return Ok((members, first + 1));
    }
    let mut at = first;
    loop
        invariant
            len == input@.len(),
            pos < at <= len,
            depth < MAX_DEPTH,
            object_at(input@, pos as int, depth as nat) == members_at(
                input@,
                at as int,
                (depth + 1) as nat,
                members@,
            ),
        decreases len - at,
    {
        let (key, key_end) = string(input, at)?;
        let colon = whitespace(input, key_end);
        if colon >= len || input[colon] != ':' {
            return Err(Fault { kind: ErrorKind::MissingSeparator, from: colon, to: colon });
        }
        let (v, end) = value_helper(input, colon + 1, depth + 1)?;
        if end >= len {
            return Err(Fault { kind: ErrorKind::MissingSeparator, from: end, to: end });
        }
        let c = input[end];
        if c == '}' {
            return Ok((members.insert(key, v), end + 1));
        } else if c == ',' {
            let next = whitespace(input, end + 1);
            if next < len && input[next] == '}' {
                return Err(Fault { kind: ErrorKind::TrailingComma, from: end, to: next });
            }
            members = members.insert(key, v);
            at = next;
        } else {
            return Err(Fault { kind: ErrorKind::MissingSeparator, from: end, to: end });
        }
    }
}

/// Reads the value at `pos`, which stands inside `depth` arrays and objects,
/// with the whitespace around it: a string, an object, an array, `true`,
/// `false`, `null` or a number, whichever starts there.
pub fn value_helper(input: &[char], pos: usize, depth: usize) -> (r: Result<(Value, usize), Fault>)
    ensures
        agrees(r, value_at(input@, pos as int, depth as nat)),
        r matches Ok((_, end)) ==> pos < end <= input@.len(),
    decreases input@.len() - pos, 3int,
{
    let len = input.len();
    let start = whitespace(input, pos);
    if start >= len {
        return Err(Fault { kind: ErrorKind::UnexpectedCharacter, from: start, to: start });
    }
    let c = input[start];
    let (v, end) = if c == '"' {
        let (t, end) = string(input, start)?;
        (Value::VString(t), end)
    } else if c == '{' {
        let (o, end) = object(input, start, depth)?;
        (Value::VObject(o), end)
    } else if c == '[' {
        let (a, end) = array(input, start, depth)?;
        (Value::VArray(a), end)
    } else if literal(input, start, "true") {
        proof {
            reveal_strlit("true");
        }
        (Value::VBool(true), start + 4)
    } else if literal(input, start, "false") {
        proof {
            reveal_strlit("false");
        }
        (Value::VBool(false), start + 5)
    } else if literal(input, start, "null") {
        proof {
            reveal_strlit("null");
        }
        (Value::VNull, start + 4)
    } else if c == '-' || (c >= '0' && c <= '9') {
        let (n, end) = number(input, start)?;
        (Value::VNumber(n), end)
    } else {
        return Err(Fault { kind: ErrorKind::UnexpectedCharacter, from: start, to: start });
    };
    Ok((v, whitespace(input, end)))
}

/// Reads the value at `pos`, with the whitespace around it, and says where
/// it ends. What is read is a value that a document can hold; a failure
/// lies between `pos` and the end of the input.
pub fn value(input: &[char], pos: usize) -> (r: Result<(Value, usize), Fault>)
    ensures
        agrees(r, value_at(input@, pos as int, 0)),
        r matches Ok((v, end)) ==> pos < end <= input@.len() && value_valid(v@, 0),
        r matches Err(f) ==> (pos <= input@.len() ==> pos <= f.from <= f.to <= input@.len()),
{
    proof {
        if pos <= input@.len() {
            lemma_value_at(input@, pos as int, 0);
        }
    }
    value_helper(input, pos, 0)
}

/// Reads `input` as one document: a value with whitespace around it and
/// nothing else. What is read is a value that a document can hold, and the
/// shortest text of it is read as the same value; a failure lies inside the
/// input.
pub fn parse(input: &str) -> (r: Result<Value, ParseError>)
    ensures
        match r {
            Ok(v) => document(input@) == Ok::<ValueModel, FaultModel>(v@),
            Err(e) => document(input@) matches Err(f) && e.reports(input@, f),
        },
        r matches Ok(v) ==> value_valid(v@, 0) && document(minimal_text(v@)) == Ok::<
            ValueModel,
            FaultModel,
        >(v@),
        r matches Err(e) ==> e.from.offset <= e.to.offset <= input@.len(),
{
    proof {
        lemma_document(input@);
        if let Ok(v) = document(input@) {
            lemma_round_trip(v);
        }
    }
    let chars = chars_of(input);
    match value(chars.as_slice(), 0) {
        Err(f) => Err(ParseError::new(chars.as_slice(), f)),
        Ok((v, end)) => {
            if end == chars.len() {
                Ok(v)
            } else {
                let f = Fault { kind: ErrorKind::UnexpectedCharacter, from: end, to: end };
                Err(ParseError::new(chars.as_slice(), f))
            }
        },
    }
}

} // verus!
