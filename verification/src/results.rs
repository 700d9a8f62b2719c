//! What holds of every result of the grammar: a value that is read is
//! well formed, and a failure lies inside the input.

use crate::error::{ErrorKind, FaultModel};
use crate::grammar::{
    after_digits, after_whitespace, array_at, document, elements_at, escape_at, is_digit, is_plain,
    lemma_after_whitespace, members_at, number_at, object_at, string_at, string_rest, token_at,
    value_at, MAX_DEPTH,
};
use crate::value::{
    distinct_keys, is_digits, key_index, lemma_key_index_from, lemma_with_member_distinct,
    value_valid, with_member, Members, ValueModel,
};
use vstd::prelude::*;

verus! {

/// Whether the failure `f` lies between `pos` and the end of `s`.
pub open spec fn fault_within(s: Seq<char>, pos: int, f: FaultModel) -> bool {
    pos <= f.from <= f.to <= s.len()
}

/// Digits are skipped forwards, up to the first character that is none.
pub proof fn lemma_after_digits(s: Seq<char>, pos: int)
    ensures
        pos <= after_digits(s, pos),
        pos <= s.len() ==> after_digits(s, pos) <= s.len(),
        forall|i: int| pos <= i < after_digits(s, pos) ==> is_digit(#[trigger] s[i]),
    decreases s.len() - pos,
{
    if 0 <= pos < s.len() && is_digit(s[pos]) {
        lemma_after_digits(s, pos + 1);
    }
}

/// A number that is read has digits in each of its parts and ends after its
/// start; a number that is not read fails between its start and the end of
/// the input.
pub proof fn lemma_number_at(s: Seq<char>, pos: int)
    requires
        0 <= pos <= s.len(),
    ensures
        match number_at(s, pos) {
            Ok((n, end)) => n.valid() && pos < end <= s.len(),
            Err(f) => f.kind == ErrorKind::MalformedNumber && f.from == pos && fault_within(
                s,
                pos,
                f,
            ),
        },
{
    let negative = pos < s.len() && s[pos] == '-';
    let whole = if negative { pos + 1 } else { pos };
    lemma_after_digits(s, whole);
    let whole_end = after_digits(s, whole);
    let dot = whole_end < s.len() && s[whole_end] == '.';
    let fraction_end = if dot { after_digits(s, whole_end + 1) } else { whole_end };
    if dot {
        lemma_after_digits(s, whole_end + 1);
    }
    let mark = fraction_end < s.len() && (s[fraction_end] == 'e' || s[fraction_end] == 'E');
    let sign = mark && fraction_end + 1 < s.len() && (s[fraction_end + 1] == '+' || s[fraction_end
        + 1] == '-');
    let exponent = if sign { fraction_end + 2 } else { fraction_end + 1 };
    if mark {
        lemma_after_digits(s, exponent);
    }
    if let Ok((n, end)) = number_at(s, pos) {
        assert(is_digits(n.whole)) by {
            assert forall|i: int| 0 <= i < n.whole.len() implies is_digit(#[trigger] n.whole[i]) by {
                assert(n.whole[i] == s[whole + i]);
            }
        }
        if let Some(f) = n.fraction {
            assert(is_digits(f)) by {
                assert forall|i: int| 0 <= i < f.len() implies is_digit(#[trigger] f[i]) by {
                    assert(f[i] == s[whole_end + 1 + i]);
                }
            }
        }
        if let Some(e) = n.exponent {
            assert(is_digits(e.digits)) by {
                assert forall|i: int| 0 <= i < e.digits.len() implies is_digit(
                    #[trigger] e.digits[i],
                ) by {
                    assert(e.digits[i] == s[exponent + i]);
                }
            }
        }
    }
}

/// A string ends after its start; a string that is not read fails between
/// its start and the end of the input.
pub proof fn lemma_string_rest(s: Seq<char>, start: int, pos: int, text: Seq<char>)
    requires
        0 <= start <= pos <= s.len(),
    ensures
        match string_rest(s, start, pos, text) {
            Ok((_, end)) => pos < end <= s.len(),
            Err(f) => fault_within(s, start, f),
        },
    decreases s.len() - pos,
{
    if pos < s.len() && s[pos] != '"' {
        if s[pos] == '\\' {
            if let Ok((c, next)) = escape_at(s, start, pos) {
                lemma_string_rest(s, start, next, text.push(c));
            }
        } else if is_plain(s[pos]) {
            lemma_string_rest(s, start, pos + 1, text.push(s[pos]));
        }
    }
}

/// The same of a string with its opening quote.
pub proof fn lemma_string_at(s: Seq<char>, pos: int)
    requires
        0 <= pos <= s.len(),
    ensures
        match string_at(s, pos) {
            Ok((_, end)) => pos < end <= s.len(),
            Err(f) => fault_within(s, pos, f),
        },
{
    if pos < s.len() && s[pos] == '"' {
        lemma_string_rest(s, pos, pos + 1, Seq::empty());
    }
}

/// Whether each of `items` is a value that a document can hold at `depth`.
pub open spec fn items_valid(items: Seq<ValueModel>, depth: nat) -> bool {
    forall|i: int| 0 <= i < items.len() ==> value_valid(#[trigger] items[i], depth)
}

/// Whether `members` are members that a document can hold at `depth`.
pub open spec fn members_valid(members: Members, depth: nat) -> bool {
    &&& distinct_keys(members)
    &&& forall|i: int| 0 <= i < members.len() ==> value_valid((#[trigger] members[i]).1, depth)
}

/// Valid members with one more valid member are valid members.
pub proof fn lemma_with_member_valid(
    members: Members,
    key: Seq<char>,
    value: ValueModel,
    depth: nat,
)
    requires
        members_valid(members, depth),
        value_valid(value, depth),
    ensures
        members_valid(with_member(members, key, value), depth),
{
    lemma_with_member_distinct(members, key, value);
    lemma_key_index_from(members, key, 0);
    let all = with_member(members, key, value);
    let at = key_index(members, key);
    assert forall|i: int| 0 <= i < all.len() implies value_valid((#[trigger] all[i]).1, depth) by {
        if i != at {
            assert(all[i] == members[i]);
        }
    }
}

/// What is read at `pos` is a value that a document can hold, and ends
/// after `pos`; what is not read fails between `pos` and the end of the
/// input.
pub proof fn lemma_value_at(s: Seq<char>, pos: int, depth: nat)
    requires
        0 <= pos <= s.len(),
    ensures
        match value_at(s, pos, depth) {
            Ok((v, end)) => value_valid(v, depth) && pos < end <= s.len(),
            Err(f) => fault_within(s, pos, f),
        },
    decreases s.len() - pos, 3int,
{
    lemma_after_whitespace(s, pos);
    let start = after_whitespace(s, pos);
    lemma_token_at(s, start, depth);
    if let Ok((v, end)) = token_at(s, start, depth) {
        lemma_after_whitespace(s, end);
    }
}

/// The same of a value with no whitespace before it.
pub proof fn lemma_token_at(s: Seq<char>, pos: int, depth: nat)
    requires
        0 <= pos <= s.len(),
    ensures
        match token_at(s, pos, depth) {
            Ok((v, end)) => value_valid(v, depth) && pos < end <= s.len(),
            Err(f) => fault_within(s, pos, f),
        },
    decreases s.len() - pos, 2int,
{
    reveal_strlit("true");
    reveal_strlit("false");
    reveal_strlit("null");
    if pos < s.len() {
        if s[pos] == '"' {
            lemma_string_at(s, pos);
        } else if s[pos] == '{' {
            lemma_object_at(s, pos, depth);
        } else if s[pos] == '[' {
            lemma_array_at(s, pos, depth);
        } else {
            lemma_number_at(s, pos);
        }
    }
}

/// The same of an array.
pub proof fn lemma_array_at(s: Seq<char>, pos: int, depth: nat)
    requires
        0 <= pos <= s.len(),
    ensures
        match array_at(s, pos, depth) {
            Ok((items, end)) => value_valid(ValueModel::Array(items), depth) && pos < end
                <= s.len(),
            Err(f) => fault_within(s, pos, f),
        },
    decreases s.len() - pos, 1int,
{
    if pos < s.len() && s[pos] == '[' && depth < MAX_DEPTH {
        lemma_after_whitespace(s, pos + 1);
        let first = after_whitespace(s, pos + 1);
        if !(first < s.len() && s[first] == ']') {
            lemma_elements_at(s, first, depth + 1, Seq::empty());
        }
    }
}

/// The same of the elements of an array.
pub proof fn lemma_elements_at(s: Seq<char>, pos: int, depth: nat, items: Seq<ValueModel>)
    requires
        0 <= pos <= s.len(),
        items_valid(items, depth),
    ensures
        match elements_at(s, pos, depth, items) {
            Ok((all, end)) => items_valid(all, depth) && pos < end <= s.len(),
            Err(f) => fault_within(s, pos, f),
        },
    decreases s.len() - pos, 4int,
{
    lemma_value_at(s, pos, depth);
    if let Ok((v, end)) = value_at(s, pos, depth) {
        if end < s.len() {
            let all = items.push(v);
            assert forall|i: int| 0 <= i < all.len() implies value_valid(#[trigger] all[i], depth) by {
                if i < items.len() {
                    assert(all[i] == items[i]);
                }
            }
            if s[end] == ',' {
                lemma_after_whitespace(s, end + 1);
                let next = after_whitespace(s, end + 1);
                if !(next < s.len() && s[next] == ']') {
                    lemma_elements_at(s, end + 1, depth, all);
                }
            }
        }
    }
}

/// The same of an object.
pub proof fn lemma_object_at(s: Seq<char>, pos: int, depth: nat)
    requires
        0 <= pos <= s.len(),
    ensures
        match object_at(s, pos, depth) {
            Ok((members, end)) => value_valid(ValueModel::Object(members), depth) && pos < end
                <= s.len(),
            Err(f) => fault_within(s, pos, f),
        },
    decreases s.len() - pos, 1int,
{
    if pos < s.len() && s[pos] == '{' && depth < MAX_DEPTH {
        lemma_after_whitespace(s, pos + 1);
        let first = after_whitespace(s, pos + 1);
        if !(first < s.len() && s[first] == '}') {
            lemma_members_at(s, first, depth + 1, Seq::empty());
        }
    }
}

/// The same of the members of an object.
pub proof fn lemma_members_at(s: Seq<char>, pos: int, depth: nat, members: Members)
    requires
        0 <= pos <= s.len(),
        members_valid(members, depth),
    ensures
        match members_at(s, pos, depth, members) {
            Ok((all, end)) => members_valid(all, depth) && pos < end <= s.len(),
            Err(f) => fault_within(s, pos, f),
        },
    decreases s.len() - pos, 4int,
{
    lemma_string_at(s, pos);
    if let Ok((key, key_end)) = string_at(s, pos) {
        lemma_after_whitespace(s, key_end);
        let colon = after_whitespace(s, key_end);
        if colon < s.len() && s[colon] == ':' {
            lemma_value_at(s, colon + 1, depth);
            if let Ok((v, end)) = value_at(s, colon + 1, depth) {
                lemma_with_member_valid(members, key, v, depth);
                let all = with_member(members, key, v);
                if end < s.len() && s[end] == ',' {
                    lemma_after_whitespace(s, end + 1);
                    let next = after_whitespace(s, end + 1);
                    if !(next < s.len() && s[next] == '}') {
                        lemma_members_at(s, next, depth, all);
                    }
                }
            }
        }
    }
}

/// What a document is read as is a value that a document can hold; a
/// document that is not read fails inside the input.
pub proof fn lemma_document(s: Seq<char>)
    ensures
        match document(s) {
            Ok(v) => value_valid(v, 0),
            Err(f) => fault_within(s, 0, f),
        },
{
    lemma_value_at(s, 0, 0);
}

} // verus!
