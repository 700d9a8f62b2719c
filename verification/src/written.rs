//! From a text that is read to the tree that it is written as: the proof
//! that the reader accepts nothing but JSON.

use crate::document::{
    entries_text, entries_value, entry_text, entry_valid, is_gap, items_text, items_value,
    node_text, node_valid, node_value, pieces_chars,
    pieces_text_from, string_text, syntax_text, syntax_valid, syntax_value, valid_pieces, Entry,
    Node, NumberText, Piece, Syntax,
};
use crate::error::FaultModel;
use crate::grammar::{
    after_digits, after_whitespace, array_at, document, elements_at, escape_at, is_whitespace,
    lemma_after_whitespace, lemma_after_whitespace_from, lemma_string_rest_end, members_at, number_at, object_at, string_at,
    string_rest, token_at, value_at, word_at,
};
use crate::results::{
    lemma_after_digits, lemma_number_at, lemma_string_at, lemma_string_rest, lemma_value_at,
};
use crate::value::{with_member, Members, NumberModel, ValueModel};
use vstd::prelude::*;

verus! {

/// A sequence that starts as `read` with `x` after it holds `x` there, and
/// starts as `read`.
pub proof fn lemma_take_push<T>(all: Seq<T>, read: Seq<T>, x: T)
    requires
        read.len() < all.len(),
        all.take(read.len() as int + 1) == read.push(x),
    ensures
        all[read.len() as int] == x,
        all.take(read.len() as int) == read,
{
    let at = read.len() as int;
    assert(all.take(at + 1)[at] == all[at]);
    assert forall|k: int| 0 <= k < at implies all.take(at)[k] == read[k] by {
        assert(all.take(at + 1)[k] == read.push(x)[k]);
    }
    assert(all.take(at) =~= read);
}

/// A part of a text is its first character and the rest.
pub proof fn lemma_subrange_first(s: Seq<char>, a: int, b: int)
    requires
        0 <= a < b <= s.len(),
    ensures
        s.subrange(a, b) == seq![s[a]] + s.subrange(a + 1, b),
{
    assert(s.subrange(a, b) =~= seq![s[a]] + s.subrange(a + 1, b));
}

/// A part of a text is what stands before one of its characters, that
/// character, and what stands after it.
pub proof fn lemma_subrange_around(s: Seq<char>, a: int, m: int, b: int)
    requires
        0 <= a <= m < b <= s.len(),
    ensures
        s.subrange(a, b) == s.subrange(a, m) + seq![s[m]] + s.subrange(m + 1, b),
        s.subrange(a, m + 1) == s.subrange(a, m) + seq![s[m]],
{
    assert(s.subrange(a, b) =~= s.subrange(a, m) + seq![s[m]] + s.subrange(m + 1, b));
    assert(s.subrange(a, m + 1) =~= s.subrange(a, m) + seq![s[m]]);
}

/// A sequence from `at` on, after `read`, is the sequence from `at + 1`
/// on, after `read` and what stands at `at`.
pub proof fn lemma_skip_push<T>(read: Seq<T>, all: Seq<T>, at: int)
    requires
        0 <= at < all.len(),
    ensures
        read + all.skip(at) == read.push(all[at]) + all.skip(at + 1),
{
    assert(read + all.skip(at) =~= read.push(all[at]) + all.skip(at + 1));
}

/// A part of a text is the four parts that it is cut into, one after the
/// other.
pub proof fn lemma_subrange_parts(s: Seq<char>, a: int, b: int, c: int, d: int, e: int)
    requires
        0 <= a <= b <= c <= d <= e <= s.len(),
    ensures
        s.subrange(a, e) == s.subrange(a, b) + s.subrange(b, c) + s.subrange(c, d) + s.subrange(
            d,
            e,
        ),
{
    assert(s.subrange(a, e) =~= s.subrange(a, b) + s.subrange(b, c) + s.subrange(c, d)
        + s.subrange(d, e));
}

/// The pieces of the string that is read from `pos` on, up to its closing
/// quote, after the pieces `read`.
pub open spec fn pieces_from(s: Seq<char>, pos: int, read: Seq<Piece>) -> Seq<Piece>
    decreases s.len() - pos,
{
    if !(0 <= pos < s.len()) || s[pos] == '"' {
        read
    } else if s[pos] == '\\' {
        if pos + 1 >= s.len() {
            read
        } else if s[pos + 1] != 'u' {
            pieces_from(s, pos + 2, read.push(Piece::Short(s[pos + 1])))
        } else if pos + 5 < s.len() {
            pieces_from(
                s,
                pos + 6,
                read.push(Piece::Hex(s[pos + 2], s[pos + 3], s[pos + 4], s[pos + 5])),
            )
        } else {
            read
        }
    } else {
        pieces_from(s, pos + 1, read.push(Piece::Plain(s[pos])))
    }
}

/// The character of `s` at `i`.
pub open spec fn char_at(s: Seq<char>, i: int) -> char {
    s[i]
}

/// Whether `ps` goes on from `read` with pieces that are written as the
/// grammar has it.
pub open spec fn extends_pieces(ps: Seq<Piece>, read: Seq<Piece>) -> bool {
    &&& read.len() <= ps.len()
    &&& ps.take(read.len() as int) == read
    &&& forall|k: int| read.len() <= k < ps.len() ==> (#[trigger] ps[k]).valid()
}

/// What is read as the rest of a string is written as its pieces.
pub proof fn lemma_pieces_written(
    s: Seq<char>,
    start: int,
    pos: int,
    text: Seq<char>,
    read: Seq<Piece>,
)
    requires
        0 <= start <= pos <= s.len(),
        string_rest(s, start, pos, text) is Ok,
    ensures
        extends_pieces(pieces_from(s, pos, read), read),
        string_rest(s, start, pos, text) matches Ok((t, end)) && pos < end <= s.len()
            && pieces_text_from(pieces_from(s, pos, read), read.len() as int) + seq!['"']
            == s.subrange(pos, end) && t == text + pieces_chars(pieces_from(s, pos, read)).skip(
            read.len() as int,
        ),
    decreases s.len() - pos,
{
    lemma_string_rest(s, start, pos, text);
    let ps = pieces_from(s, pos, read);
    let at = read.len() as int;
    let (t, end) = string_rest(s, start, pos, text)->Ok_0;
    if s[pos] == '"' {
        assert(ps.take(at) =~= read);
        assert(pieces_text_from(ps, at) + seq!['"'] =~= s.subrange(pos, end));
        assert(text + pieces_chars(ps).skip(at) =~= text);
    } else {
        let p = if s[pos] != '\\' {
            Piece::Plain(s[pos])
        } else if s[pos + 1] != 'u' {
            Piece::Short(s[pos + 1])
        } else {
            Piece::Hex(s[pos + 2], s[pos + 3], s[pos + 4], s[pos + 5])
        };
        let next = if s[pos] != '\\' {
            pos + 1
        } else if s[pos + 1] != 'u' {
            pos + 2
        } else {
            pos + 6
        };
        let more = read.push(p);
        // What `char_at` gives is known to be a character; so are then the
        // characters that the piece is made of.
        assert(char_at(s, pos) == s[pos] && char_at(s, pos + 1) == s[pos + 1] && char_at(s, pos + 2)
            == s[pos + 2] && char_at(s, pos + 3) == s[pos + 3] && char_at(s, pos + 4) == s[pos + 4]
            && char_at(s, pos + 5) == s[pos + 5]);
        if s[pos] == '\\' {
            assert(escape_at(s, start, pos) is Ok);
        }
        assert(p.valid());
        assert(ps == pieces_from(s, next, more));
        assert(string_rest(s, start, pos, text) == string_rest(
            s,
            start,
            next,
            text.push(p.character()),
        ));
        lemma_pieces_written(s, start, next, text.push(p.character()), more);
        lemma_take_push(ps, read, p);
        assert(p.text() =~= s.subrange(pos, next));
        assert(s.subrange(pos, end) =~= s.subrange(pos, next) + s.subrange(next, end));
        assert(pieces_text_from(ps, at) + seq!['"'] =~= p.text() + (pieces_text_from(ps, at + 1)
            + seq!['"']));
        lemma_skip_push(text, pieces_chars(ps), at);
    }
}

/// What is read as a string is written as its pieces between quotes.
pub proof fn lemma_string_written(s: Seq<char>, pos: int)
    requires
        0 <= pos <= s.len(),
        string_at(s, pos) is Ok,
    ensures
        valid_pieces(pieces_from(s, pos + 1, Seq::empty())),
        string_at(s, pos) matches Ok((t, end)) && pos < end <= s.len() && string_text(
            pieces_from(s, pos + 1, Seq::empty()),
        ) == s.subrange(pos, end) && t == pieces_chars(pieces_from(s, pos + 1, Seq::empty())),
{
    let ps = pieces_from(s, pos + 1, Seq::empty());
    lemma_pieces_written(s, pos, pos + 1, Seq::empty(), Seq::empty());
    let (t, end) = string_at(s, pos)->Ok_0;
    assert(string_text(ps) =~= s.subrange(pos, end)) by {
        assert(s.subrange(pos, end) =~= seq!['"'] + s.subrange(pos + 1, end));
        assert(string_text(ps) =~= seq!['"'] + (pieces_text_from(ps, 0) + seq!['"']));
    }
    assert(Seq::<char>::empty() + pieces_chars(ps).skip(0) =~= pieces_chars(ps));
}

/// How the number that is read at `pos` is written.
pub open spec fn number_text_at(s: Seq<char>, pos: int) -> NumberText {
    let negative = 0 <= pos < s.len() && s[pos] == '-';
    let whole = if negative { pos + 1 } else { pos };
    let whole_end = after_digits(s, whole);
    let dot = 0 <= whole_end < s.len() && s[whole_end] == '.';
    let fraction_end = if dot { after_digits(s, whole_end + 1) } else { whole_end };
    let mark = 0 <= fraction_end < s.len() && (s[fraction_end] == 'e' || s[fraction_end] == 'E');
    let sign = mark && fraction_end + 1 < s.len() && (s[fraction_end + 1] == '+' || s[fraction_end
        + 1] == '-');
    NumberText {
        number: match number_at(s, pos) {
            Ok((n, _)) => n,
            Err(_) => NumberModel {
                negative: false,
                whole: Seq::empty(),
                fraction: None,
                exponent: None,
            },
        },
        upper: mark && s[fraction_end] == 'E',
        plus: sign && s[fraction_end + 1] == '+',
    }
}

/// What is read as a number is written as its parts.
#[verifier::rlimit(30)]
pub proof fn lemma_number_written(s: Seq<char>, pos: int)
    requires
        0 <= pos <= s.len(),
        number_at(s, pos) is Ok,
    ensures
        number_text_at(s, pos).valid(),
        number_at(s, pos) matches Ok((n, end)) && pos < end <= s.len() && number_text_at(
            s,
            pos,
        ).number == n && number_text_at(s, pos).text() == s.subrange(pos, end),
{
    lemma_number_at(s, pos);
    let negative = pos < s.len() && s[pos] == '-';
    let whole = if negative { pos + 1 } else { pos };
    lemma_after_digits(s, whole);
    let whole_end = after_digits(s, whole);
    let dot = whole_end < s.len() && s[whole_end] == '.';
    let fraction_end = if dot { after_digits(s, whole_end + 1) } else { whole_end };
    if dot {
        lemma_after_digits(s, whole_end + 1);
    }
    let mark = fraction_end < s.len() && (s[fraction_end] == 'e' || s[fraction_end] == 'E');
    let sign = mark && fraction_end + 1 < s.len() && (s[fraction_end + 1] == '+' || s[fraction_end
        + 1] == '-');
    let exponent = if sign { fraction_end + 2 } else { fraction_end + 1 };
    if mark {
        lemma_after_digits(s, exponent);
    }
    let t = number_text_at(s, pos);
    let (n, end) = number_at(s, pos)->Ok_0;
    assert(pos <= whole < whole_end <= fraction_end <= end <= s.len());
    assert(t.number == n);
    let a = s.subrange(pos, whole);
    let b = s.subrange(whole, whole_end);
    let c = s.subrange(whole_end, fraction_end);
    let d = s.subrange(fraction_end, end);
    if negative {
        lemma_subrange_first(s, pos, whole);
    }
    assert(t.sign_text() =~= a);
    if dot {
        lemma_subrange_first(s, whole_end, fraction_end);
    }
    assert(t.fraction_text() =~= c);
    if mark {
        lemma_subrange_first(s, fraction_end, end);
        if sign {
            lemma_subrange_first(s, fraction_end + 1, end);
        }
        assert(t.exponent_sign_text() =~= s.subrange(fraction_end + 1, exponent));
        assert(t.exponent_text() =~= seq![s[fraction_end]] + (t.exponent_sign_text()
            + s.subrange(exponent, end)));
    }
    assert(t.exponent_text() =~= d);
    lemma_subrange_parts(s, pos, whole, whole_end, fraction_end, end);
}

/// The whitespace at `pos`.
pub open spec fn gap_at(s: Seq<char>, pos: int) -> Seq<char> {
    s.subrange(pos, after_whitespace(s, pos))
}

/// The whitespace at `pos` is whitespace.
pub proof fn lemma_gap_at(s: Seq<char>, pos: int)
    requires
        0 <= pos <= s.len(),
    ensures
        is_gap(gap_at(s, pos)),
        gap_at(s, pos).len() == after_whitespace(s, pos) - pos,
{
    lemma_after_whitespace(s, pos);
    let g = gap_at(s, pos);
    assert forall|i: int| 0 <= i < g.len() implies is_whitespace(#[trigger] g[i]) by {
        assert(g[i] == s[pos + i]);
    }
}

/// Where the value that is read at `pos`, with no whitespace before it,
/// ends.
pub open spec fn token_end(s: Seq<char>, pos: int, depth: nat) -> int {
    match token_at(s, pos, depth) {
        Ok((_, end)) => end,
        Err(_) => pos,
    }
}

/// Where what is read at `pos` as a value ends, with the whitespace after
/// it.
pub open spec fn value_end(s: Seq<char>, pos: int, depth: nat) -> int {
    match value_at(s, pos, depth) {
        Ok((_, end)) => end,
        Err(_) => pos,
    }
}

/// A value without whitespace around it.
pub open spec fn bare_null() -> Node {
    Node { before: Seq::empty(), syntax: Syntax::Null, after: Seq::empty() }
}

/// How the value that is read at `pos`, with no whitespace before it, is
/// written.
pub open spec fn syntax_at(s: Seq<char>, pos: int, depth: nat) -> Syntax
    decreases s.len() - pos, 2int,
{
    if !(0 <= pos < s.len()) {
        Syntax::Null
    } else if s[pos] == '"' {
        Syntax::Text(pieces_from(s, pos + 1, Seq::empty()))
    } else if s[pos] == '{' {
        let first = after_whitespace(s, pos + 1);
        if first < s.len() && s[first] == '}' {
            Syntax::EmptyObject(gap_at(s, pos + 1))
        } else {
            Syntax::Object(entries_at(s, pos + 1, depth + 1, Seq::empty()))
        }
    } else if s[pos] == '[' {
        let first = after_whitespace(s, pos + 1);
        if first < s.len() && s[first] == ']' {
            Syntax::EmptyArray(gap_at(s, pos + 1))
        } else {
            Syntax::Array(items_at(s, pos + 1, depth + 1, Seq::empty()))
        }
    } else if word_at(s, pos, "true"@) {
        Syntax::True
    } else if word_at(s, pos, "false"@) {
        Syntax::False
    } else if word_at(s, pos, "null"@) {
        Syntax::Null
    } else {
        Syntax::Number(number_text_at(s, pos))
    }
}

/// How the value that is read at `pos` is written, with the whitespace
/// around it.
pub open spec fn node_at(s: Seq<char>, pos: int, depth: nat) -> Node
    decreases s.len() - pos, 3int,
{
    let start = after_whitespace(s, pos);
    proof {
        lemma_after_whitespace(s, pos);
    }
    Node {
        before: gap_at(s, pos),
        syntax: syntax_at(s, start, depth),
        after: gap_at(s, token_end(s, start, depth)),
    }
}

/// How the elements that are read from `pos` on are written, after the
/// elements `read`.
pub open spec fn items_at(s: Seq<char>, pos: int, depth: nat, read: Seq<Node>) -> Seq<Node>
    decreases s.len() - pos, 4int,
{
    let end = value_end(s, pos, depth);
    let all = read.push(node_at(s, pos, depth));
    if pos <= end < s.len() && s[end] == ',' {
        items_at(s, end + 1, depth, all)
    } else {
        all
    }
}

/// How the member that is read at `pos` is written.
pub open spec fn entry_at(s: Seq<char>, pos: int, depth: nat) -> Entry
    decreases s.len() - pos, 4int,
{
    let key_start = after_whitespace(s, pos);
    let key_end = match string_at(s, key_start) {
        Ok((_, end)) => end,
        Err(_) => key_start,
    };
    let colon = after_whitespace(s, key_end);
    proof {
        lemma_after_whitespace(s, pos);
        lemma_string_rest_end(s, key_start, key_start + 1, Seq::empty());
        lemma_after_whitespace(s, key_end);
    }
    Entry {
        before: gap_at(s, pos),
        key: pieces_from(s, key_start + 1, Seq::empty()),
        between: gap_at(s, key_end),
        value: if pos <= colon < s.len() {
            node_at(s, colon + 1, depth)
        } else {
            bare_null()
        },
    }
}

/// Where the member that is read at `pos` ends, with the whitespace after
/// it.
pub open spec fn entry_end(s: Seq<char>, pos: int, depth: nat) -> int {
    let key_start = after_whitespace(s, pos);
    let key_end = match string_at(s, key_start) {
        Ok((_, end)) => end,
        Err(_) => key_start,
    };
    value_end(s, after_whitespace(s, key_end) + 1, depth)
}

/// How the members that are read from `pos` on are written, after the
/// members `read`.
pub open spec fn entries_at(s: Seq<char>, pos: int, depth: nat, read: Seq<Entry>) -> Seq<Entry>
    decreases s.len() - pos, 5int,
{
    let end = entry_end(s, pos, depth);
    let all = read.push(entry_at(s, pos, depth));
    if pos <= end < s.len() && s[end] == ',' {
        entries_at(s, end + 1, depth, all)
    } else {
        all
    }
}

/// How the document `s` is written.
pub open spec fn written(s: Seq<char>) -> Node {
    node_at(s, 0, 0)
}

/// What is read at `pos` as a value, with no whitespace before it, is
/// written as the grammar has it, from `pos` to its end, and stands for
/// what is read.
pub proof fn lemma_syntax_written(s: Seq<char>, pos: int, depth: nat)
    requires
        0 <= pos <= s.len(),
        token_at(s, pos, depth) is Ok,
    ensures
        syntax_valid(syntax_at(s, pos, depth), depth),
        token_at(s, pos, depth) matches Ok((v, end)) && pos < end <= s.len() && syntax_text(
            syntax_at(s, pos, depth),
        ) == s.subrange(pos, end) && syntax_value(syntax_at(s, pos, depth)) == v,
    decreases s.len() - pos, 2int,
{
    if s[pos] == '"' {
        lemma_string_written(s, pos);
    } else if s[pos] == '{' {
        lemma_object_written(s, pos, depth);
    } else if s[pos] == '[' {
        lemma_array_written(s, pos, depth);
    } else if word_at(s, pos, "true"@) {
        reveal_strlit("true");
    } else if word_at(s, pos, "false"@) {
        reveal_strlit("false");
    } else if word_at(s, pos, "null"@) {
        reveal_strlit("null");
    } else {
        lemma_number_written(s, pos);
    }
}

/// The same of an array.
pub proof fn lemma_array_written(s: Seq<char>, pos: int, depth: nat)
    requires
        0 <= pos < s.len(),
        s[pos] == '[',
        array_at(s, pos, depth) is Ok,
    ensures
        syntax_valid(syntax_at(s, pos, depth), depth),
        array_at(s, pos, depth) matches Ok((items, end)) && pos < end <= s.len() && syntax_text(
            syntax_at(s, pos, depth),
        ) == s.subrange(pos, end) && syntax_value(syntax_at(s, pos, depth)) == ValueModel::Array(
            items,
        ),
    decreases s.len() - pos, 1int,
{
    let x = syntax_at(s, pos, depth);
    let (v, end) = array_at(s, pos, depth)->Ok_0;
    lemma_after_whitespace(s, pos + 1);
    let first = after_whitespace(s, pos + 1);
    if first < s.len() && s[first] == ']' {
        lemma_gap_at(s, pos + 1);
        lemma_subrange_first(s, pos, end);
        lemma_subrange_around(s, pos + 1, first, end);
        assert(s.subrange(first + 1, end) =~= Seq::<char>::empty());
        assert(syntax_text(x) =~= s.subrange(pos, end));
    } else {
        lemma_items_written(s, pos + 1, first, depth + 1, Seq::empty(), Seq::empty());
        let items = items_at(s, pos + 1, depth + 1, Seq::empty());
        lemma_subrange_first(s, pos, end);
        assert(syntax_text(x) =~= seq!['['] + (items_text(items, 0) + seq![']']));
        assert(Seq::<ValueModel>::empty() + items_value(items).skip(0) =~= items_value(items));
    }
}

/// The same of an object.
pub proof fn lemma_object_written(s: Seq<char>, pos: int, depth: nat)
    requires
        0 <= pos < s.len(),
        s[pos] == '{',
        object_at(s, pos, depth) is Ok,
    ensures
        syntax_valid(syntax_at(s, pos, depth), depth),
        object_at(s, pos, depth) matches Ok((members, end)) && pos < end <= s.len()
            && syntax_text(syntax_at(s, pos, depth)) == s.subrange(pos, end) && syntax_value(
            syntax_at(s, pos, depth),
        ) == ValueModel::Object(members),
    decreases s.len() - pos, 1int,
{
    let x = syntax_at(s, pos, depth);
    let (v, end) = object_at(s, pos, depth)->Ok_0;
    lemma_after_whitespace(s, pos + 1);
    let first = after_whitespace(s, pos + 1);
    if first < s.len() && s[first] == '}' {
        lemma_gap_at(s, pos + 1);
        lemma_subrange_first(s, pos, end);
        lemma_subrange_around(s, pos + 1, first, end);
        assert(s.subrange(first + 1, end) =~= Seq::<char>::empty());
        assert(syntax_text(x) =~= s.subrange(pos, end));
    } else {
        lemma_entries_written(s, pos + 1, depth + 1, Seq::empty(), Seq::empty());
        let entries = entries_at(s, pos + 1, depth + 1, Seq::empty());
        lemma_subrange_first(s, pos, end);
        assert(syntax_text(x) =~= seq!['{'] + (entries_text(entries, 0) + seq!['}']));
    }
}

/// What is read at `pos` as a value is written as the grammar has it, from
/// `pos` to the end of the whitespace after it, and stands for what is
/// read.
pub proof fn lemma_node_written(s: Seq<char>, pos: int, depth: nat)
    requires
        0 <= pos <= s.len(),
        value_at(s, pos, depth) is Ok,
    ensures
        node_valid(node_at(s, pos, depth), depth),
        value_at(s, pos, depth) matches Ok((v, end)) && pos < end <= s.len() && node_text(
            node_at(s, pos, depth),
        ) == s.subrange(pos, end) && node_value(node_at(s, pos, depth)) == v,
    decreases s.len() - pos, 3int,
{
    lemma_after_whitespace(s, pos);
    let start = after_whitespace(s, pos);
    lemma_syntax_written(s, start, depth);
    let token_end = token_end(s, start, depth);
    lemma_after_whitespace(s, token_end);
    lemma_gap_at(s, pos);
    lemma_gap_at(s, token_end);
    let n = node_at(s, pos, depth);
    let end = after_whitespace(s, token_end);
    assert(node_text(n) =~= s.subrange(pos, end)) by {
        assert(s.subrange(pos, end) =~= s.subrange(pos, start) + s.subrange(start, token_end)
            + s.subrange(token_end, end));
    }
}

/// Whether `all` goes on from `read` with values that are written as the
/// grammar has it.
pub open spec fn extends_items(all: Seq<Node>, read: Seq<Node>, depth: nat) -> bool {
    &&& read.len() < all.len()
    &&& all.take(read.len() as int) == read
    &&& forall|k: int| read.len() <= k < all.len() ==> node_valid(#[trigger] all[k], depth)
}

/// How reading the elements of an array goes one element on: where the
/// value that is read at `pos` ends, there stands a closing bracket, and
/// the elements are read, or a comma, and reading goes on after it.
pub proof fn lemma_elements_step(s: Seq<char>, pos: int, depth: nat, read: Seq<ValueModel>)
    requires
        0 <= pos <= s.len(),
        elements_at(s, pos, depth, read) is Ok,
    ensures
        value_at(s, pos, depth) is Ok,
        ({
            let (v, end) = value_at(s, pos, depth)->Ok_0;
            &&& pos < end < s.len()
            &&& s[end] == ']' || s[end] == ','
            &&& s[end] == ']' ==> elements_at(s, pos, depth, read) == Ok::<
                (Seq<ValueModel>, int),
                FaultModel,
            >((read.push(v), end + 1))
            &&& s[end] == ',' ==> elements_at(s, pos, depth, read) == elements_at(
                s,
                end + 1,
                depth,
                read.push(v),
            )
        }),
{
    lemma_value_at(s, pos, depth);
}

/// Reading a value from inside the whitespace before it is reading it from
/// the start of that whitespace.
pub proof fn lemma_value_at_from(s: Seq<char>, pos: int, from: int, depth: nat)
    requires
        pos <= from <= after_whitespace(s, pos),
    ensures
        value_at(s, from, depth) == value_at(s, pos, depth),
{
    lemma_after_whitespace_from(s, pos, from);
}

/// What is read from `from` on as the elements of an array is written as
/// the grammar has it, from `pos` to the closing bracket. `from` lies in
/// the whitespace at `pos`.
#[verifier::rlimit(30)]
pub proof fn lemma_items_written(
    s: Seq<char>,
    pos: int,
    from: int,
    depth: nat,
    read: Seq<ValueModel>,
    nodes: Seq<Node>,
)
    requires
        0 <= pos <= from <= after_whitespace(s, pos),
        pos <= s.len(),
        elements_at(s, from, depth, read) is Ok,
    ensures
        extends_items(items_at(s, pos, depth, nodes), nodes, depth),
        elements_at(s, from, depth, read) matches Ok((all, end)) && pos < end <= s.len()
            && items_text(items_at(s, pos, depth, nodes), nodes.len() as int) + seq![']']
            == s.subrange(pos, end) && all == read + items_value(
            items_at(s, pos, depth, nodes),
        ).skip(nodes.len() as int),
    decreases s.len() - pos, 4int,
{
    lemma_after_whitespace(s, pos);
    lemma_value_at_from(s, pos, from, depth);
    lemma_elements_step(s, from, depth, read);
    lemma_node_written(s, pos, depth);
    let n = node_at(s, pos, depth);
    let (v, e) = value_at(s, pos, depth)->Ok_0;
    let at = nodes.len() as int;
    let more = nodes.push(n);
    let all_nodes = items_at(s, pos, depth, nodes);
    let (all, end) = elements_at(s, from, depth, read)->Ok_0;
    if s[e] == ',' {
        lemma_after_whitespace(s, e + 1);
        lemma_items_written(s, e + 1, e + 1, depth, read.push(v), more);
        assert(all_nodes == items_at(s, e + 1, depth, more));
        lemma_take_push(all_nodes, nodes, n);
        lemma_subrange_around(s, pos, e, end);
        assert(items_text(all_nodes, at) == node_text(n) + seq![','] + items_text(
            all_nodes,
            at + 1,
        ));
        assert(items_text(all_nodes, at) + seq![']'] =~= node_text(n) + seq![','] + (items_text(
            all_nodes,
            at + 1,
        ) + seq![']']));
    } else {
        assert(all_nodes == more);
        assert(all_nodes.take(at) =~= nodes);
        lemma_subrange_around(s, pos, e, end);
        assert(items_text(all_nodes, at) == node_text(n));
        assert(items_value(all_nodes).skip(at + 1) =~= Seq::empty());
    }
    assert(items_value(all_nodes)[at] == v);
    lemma_skip_push(read, items_value(all_nodes), at);
}

/// How reading the members of an object goes one member on: where the
/// member that is read at `pos` ends, there stands a closing brace, and the
/// members are read, or a comma, and reading goes on after it.
pub proof fn lemma_members_step(s: Seq<char>, pos: int, depth: nat, read: Members)
    requires
        0 <= pos <= s.len(),
        members_at(s, pos, depth, read) is Ok,
    ensures
        string_at(s, pos) is Ok,
        ({
            let (key, key_end) = string_at(s, pos)->Ok_0;
            let colon = after_whitespace(s, key_end);
            &&& pos < key_end <= colon < s.len()
            &&& s[colon] == ':'
            &&& value_at(s, colon + 1, depth) is Ok
            &&& {
                let (v, end) = value_at(s, colon + 1, depth)->Ok_0;
                let all = with_member(read, key, v);
                &&& colon < end < s.len()
                &&& s[end] == '}' || s[end] == ','
                &&& s[end] == '}' ==> members_at(s, pos, depth, read) == Ok::<
                    (Members, int),
                    FaultModel,
                >((all, end + 1))
                &&& s[end] == ',' ==> members_at(s, pos, depth, read) == members_at(
                    s,
                    after_whitespace(s, end + 1),
                    depth,
                    all,
                )
            }
        }),
{
    lemma_string_at(s, pos);
    let (key, key_end) = string_at(s, pos)->Ok_0;
    lemma_after_whitespace(s, key_end);
    lemma_value_at(s, after_whitespace(s, key_end) + 1, depth);
}

/// What is read at `pos` as a member is written as the grammar has it,
/// from `pos` to the end of the whitespace after its value, and stands for
/// the key and the value that are read.
pub proof fn lemma_entry_written(s: Seq<char>, pos: int, depth: nat)
    requires
        0 <= pos <= s.len(),
        string_at(s, after_whitespace(s, pos)) is Ok,
        ({
            let colon = after_whitespace(s, string_at(s, after_whitespace(s, pos))->Ok_0.1);
            colon < s.len() && s[colon] == ':' && value_at(s, colon + 1, depth) is Ok
        }),
    ensures
        entry_valid(entry_at(s, pos, depth), depth),
        pos < entry_end(s, pos, depth) <= s.len(),
        entry_text(entry_at(s, pos, depth)) == s.subrange(pos, entry_end(s, pos, depth)),
        ({
            let (key, key_end) = string_at(s, after_whitespace(s, pos))->Ok_0;
            let (v, end) = value_at(s, after_whitespace(s, key_end) + 1, depth)->Ok_0;
            &&& pieces_chars(entry_at(s, pos, depth).key) == key
            &&& node_value(entry_at(s, pos, depth).value) == v
            &&& entry_end(s, pos, depth) == end
        }),
    decreases s.len() - pos, 4int,
{
    lemma_after_whitespace(s, pos);
    lemma_gap_at(s, pos);
    let key_start = after_whitespace(s, pos);
    lemma_string_at(s, key_start);
    lemma_string_written(s, key_start);
    let (key, key_end) = string_at(s, key_start)->Ok_0;
    lemma_after_whitespace(s, key_end);
    lemma_gap_at(s, key_end);
    let colon = after_whitespace(s, key_end);
    lemma_node_written(s, colon + 1, depth);
    let e = entry_at(s, pos, depth);
    let end = entry_end(s, pos, depth);
    lemma_subrange_parts(s, pos, key_start, key_end, colon, end);
    lemma_subrange_first(s, colon, end);
    assert(entry_text(e) =~= s.subrange(pos, key_start) + s.subrange(key_start, key_end)
        + s.subrange(key_end, colon) + (seq![':'] + s.subrange(colon + 1, end)));
}

/// Whether `all` goes on from `read` with members that are written as the
/// grammar has it.
pub open spec fn extends_entries(all: Seq<Entry>, read: Seq<Entry>, depth: nat) -> bool {
    &&& read.len() < all.len()
    &&& all.take(read.len() as int) == read
    &&& forall|k: int| read.len() <= k < all.len() ==> entry_valid(#[trigger] all[k], depth)
}

/// What is read as the members of an object, the first key after the
/// whitespace at `pos`, is written as the grammar has it, from `pos` to the
/// closing brace.
#[verifier::rlimit(30)]
pub proof fn lemma_entries_written(
    s: Seq<char>,
    pos: int,
    depth: nat,
    read: Members,
    entries: Seq<Entry>,
)
    requires
        0 <= pos <= s.len(),
        members_at(s, after_whitespace(s, pos), depth, read) is Ok,
    ensures
        extends_entries(entries_at(s, pos, depth, entries), entries, depth),
        members_at(s, after_whitespace(s, pos), depth, read) matches Ok((all, end)) && pos < end
            <= s.len() && entries_text(entries_at(s, pos, depth, entries), entries.len() as int)
            + seq!['}'] == s.subrange(pos, end) && all == entries_value(
            entries_at(s, pos, depth, entries),
            entries.len() as int,
            read,
        ),
    decreases s.len() - pos, 5int,
{
    lemma_after_whitespace(s, pos);
    lemma_members_step(s, after_whitespace(s, pos), depth, read);
    lemma_entry_written(s, pos, depth);
    let n = entry_at(s, pos, depth);
    let e = entry_end(s, pos, depth);
    let at = entries.len() as int;
    let more = entries.push(n);
    let all_entries = entries_at(s, pos, depth, entries);
    let (all, end) = members_at(s, after_whitespace(s, pos), depth, read)->Ok_0;
    let next = with_member(read, pieces_chars(n.key), node_value(n.value));
    if s[e] == ',' {
        lemma_entries_written(s, e + 1, depth, next, more);
        assert(all_entries == entries_at(s, e + 1, depth, more));
        lemma_take_push(all_entries, entries, n);
        lemma_subrange_around(s, pos, e, end);
        assert(entries_text(all_entries, at) == entry_text(n) + seq![','] + entries_text(
            all_entries,
            at + 1,
        ));
        assert(entries_text(all_entries, at) + seq!['}'] =~= entry_text(n) + seq![','] + (
        entries_text(all_entries, at + 1) + seq!['}']));
        assert(entries_value(all_entries, at, read) == entries_value(all_entries, at + 1, next));
    } else {
        assert(all_entries == more);
        assert(all_entries.take(at) =~= entries);
        lemma_subrange_around(s, pos, e, end);
        assert(entries_text(all_entries, at) == entry_text(n));
        assert(entries_value(all_entries, at, read) == entries_value(all_entries, at + 1, next));
    }
}

/// Soundness of the reader: a text that is read is written as the grammar
/// has it, and is read as what it stands for.
pub proof fn lemma_document_written(s: Seq<char>)
    requires
        document(s) is Ok,
    ensures
        node_valid(written(s), 0),
        node_text(written(s)) == s,
        document(s) == Ok::<ValueModel, FaultModel>(node_value(written(s))),
{
    lemma_node_written(s, 0, 0);
    assert(s.subrange(0, s.len() as int) =~= s);
}

} // verus!
