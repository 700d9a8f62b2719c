//! JSON as it is written: a tree of tokens with the whitespace between
//! them, its text and its value; and the proof that every such text is
//! read as that value.

use crate::error::FaultModel;
use crate::grammar::{
    after_digits, after_whitespace, document, elements_at, hex_value, is_digit, is_hex_digit,
    is_plain, is_whitespace, lemma_after_whitespace_from, members_at, number_at, simple_escape, string_at, string_rest,
    token_at, value_at, word_at, MAX_DEPTH,
};
use crate::text::is_scalar;
use crate::value::{with_member, Members, NumberModel, ValueModel};
use vstd::prelude::*;

verus! {

/// Whether the text `t` stands in `s` at `pos`.
pub open spec fn stands_at(s: Seq<char>, pos: int, t: Seq<char>) -> bool {
    &&& 0 <= pos
    &&& pos + t.len() <= s.len()
    &&& forall|i: int| 0 <= i < t.len() ==> s[pos + i] == #[trigger] t[i]
}

/// A text that stands at `pos` is made of two texts that stand one after
/// the other.
pub proof fn lemma_stands_split(s: Seq<char>, pos: int, a: Seq<char>, b: Seq<char>)
    requires
        stands_at(s, pos, a + b),
    ensures
        stands_at(s, pos, a),
        stands_at(s, pos + a.len(), b),
{
    assert forall|i: int| 0 <= i < a.len() implies s[pos + i] == #[trigger] a[i] by {
        assert((a + b)[i] == a[i]);
    }
    assert forall|i: int| 0 <= i < b.len() implies s[pos + a.len() + i] == #[trigger] b[i] by {
        assert((a + b)[i + a.len()] == b[i]);
    }
}

/// Whether `g` is made of whitespace alone.
pub open spec fn is_gap(g: Seq<char>) -> bool {
    forall|i: int| 0 <= i < g.len() ==> is_whitespace(#[trigger] g[i])
}

/// Whitespace that stands at `pos` is skipped.
pub proof fn lemma_gap_skipped(s: Seq<char>, pos: int, g: Seq<char>)
    requires
        is_gap(g),
        stands_at(s, pos, g),
    ensures
        after_whitespace(s, pos) == after_whitespace(s, pos + g.len()),
    decreases g.len(),
{
    if g.len() > 0 {
        assert(s[pos + 0] == g[0]);
        let rest = g.skip(1);
        assert forall|i: int| 0 <= i < rest.len() implies s[pos + 1 + i] == #[trigger] rest[i] by {
            assert(s[pos + (i + 1)] == g[i + 1]);
        }
        lemma_gap_skipped(s, pos + 1, rest);
    }
}

/// Whether `d` is made of digits alone.
pub open spec fn all_digits(d: Seq<char>) -> bool {
    forall|i: int| 0 <= i < d.len() ==> is_digit(#[trigger] d[i])
}

/// Digits that stand at `pos`, with no digit after them, are skipped and no
/// more.
pub proof fn lemma_digits_skipped(s: Seq<char>, pos: int, d: Seq<char>)
    requires
        all_digits(d),
        stands_at(s, pos, d),
        pos + d.len() < s.len() ==> !is_digit(s[pos + d.len()]),
    ensures
        after_digits(s, pos) == pos + d.len(),
    decreases d.len(),
{
    if d.len() > 0 {
        assert(s[pos + 0] == d[0]);
        let rest = d.skip(1);
        assert forall|i: int| 0 <= i < rest.len() implies s[pos + 1 + i] == #[trigger] rest[i] by {
            assert(s[pos + (i + 1)] == d[i + 1]);
        }
        lemma_digits_skipped(s, pos + 1, rest);
    }
}

/// One item of a string as it is written: a character that stands for
/// itself, a backslash with a letter, or `\u` with four hex digits.
pub enum Piece {
    Plain(char),
    Short(char),
    Hex(char, char, char, char),
}

/// The code that four hex digits name.
pub open spec fn hex_code(a: char, b: char, c: char, d: char) -> int {
    hex_value(a) * 4096 + hex_value(b) * 256 + hex_value(c) * 16 + hex_value(d)
}

impl Piece {
    pub open spec fn valid(self) -> bool {
        match self {
            Piece::Plain(c) => is_plain(c),
            Piece::Short(e) => simple_escape(e) is Some,
            Piece::Hex(a, b, c, d) => is_hex_digit(a) && is_hex_digit(b) && is_hex_digit(c)
                && is_hex_digit(d) && is_scalar(hex_code(a, b, c, d)),
        }
    }

    /// How the piece is written.
    pub open spec fn text(self) -> Seq<char> {
        match self {
            Piece::Plain(c) => seq![c],
            Piece::Short(e) => seq!['\\', e],
            Piece::Hex(a, b, c, d) => seq!['\\', 'u', a, b, c, d],
        }
    }

    /// The character that the piece stands for.
    pub open spec fn character(self) -> char {
        match self {
            Piece::Plain(c) => c,
            Piece::Short(e) => simple_escape(e).unwrap(),
            Piece::Hex(a, b, c, d) => hex_code(a, b, c, d) as char,
        }
    }
}

pub open spec fn valid_pieces(ps: Seq<Piece>) -> bool {
    forall|i: int| 0 <= i < ps.len() ==> (#[trigger] ps[i]).valid()
}

/// How the pieces from the `i`-th on are written, one after the other.
pub open spec fn pieces_text_from(ps: Seq<Piece>, i: int) -> Seq<char>
    decreases ps.len() - i,
{
    if 0 <= i < ps.len() {
        ps[i].text() + pieces_text_from(ps, i + 1)
    } else {
        Seq::empty()
    }
}

/// How a string of these pieces is written, between its quotes.
pub open spec fn string_text(ps: Seq<Piece>) -> Seq<char> {
    seq!['"'] + pieces_text_from(ps, 0) + seq!['"']
}

/// The characters that the pieces stand for.
pub open spec fn pieces_chars(ps: Seq<Piece>) -> Seq<char> {
    Seq::new(ps.len(), |i: int| ps[i].character())
}

/// Reading goes through the pieces of a string one by one, up to the
/// closing quote.
pub proof fn lemma_pieces_read(
    s: Seq<char>,
    start: int,
    pos: int,
    ps: Seq<Piece>,
    i: int,
    text: Seq<char>,
)
    requires
        0 <= i <= ps.len(),
        valid_pieces(ps),
        stands_at(s, pos, pieces_text_from(ps, i) + seq!['"']),
    ensures
        string_rest(s, start, pos, text) == Ok::<(Seq<char>, int), FaultModel>(
            (text + pieces_chars(ps).skip(i), pos + pieces_text_from(ps, i).len() + 1),
        ),
    decreases ps.len() - i,
{
    let quote = seq!['"'];
    if i == ps.len() {
        assert(pieces_text_from(ps, i) + quote =~= quote);
        assert(s[pos + 0] == quote[0]);
        assert(text + pieces_chars(ps).skip(i) =~= text);
    } else {
        let p = ps[i];
        let t = p.text();
        let rest = pieces_text_from(ps, i + 1);
        assert(pieces_text_from(ps, i) + quote =~= t + (rest + quote));
        lemma_stands_split(s, pos, t, rest + quote);
        assert(p.valid());
        assert(text.push(p.character()) + pieces_chars(ps).skip(i + 1) =~= text + pieces_chars(
            ps,
        ).skip(i));
        match p {
            Piece::Plain(c) => {
                assert(s[pos + 0] == t[0]);
                lemma_pieces_read(s, start, pos + 1, ps, i + 1, text.push(c));
            },
            Piece::Short(e) => {
                assert(s[pos + 0] == t[0]);
                assert(s[pos + 1] == t[1]);
                lemma_pieces_read(s, start, pos + 2, ps, i + 1, text.push(p.character()));
            },
            Piece::Hex(a, b, c, d) => {
                assert(s[pos + 0] == t[0]);
                assert(s[pos + 1] == t[1]);
                assert(s[pos + 2] == t[2]);
                assert(s[pos + 3] == t[3]);
                assert(s[pos + 4] == t[4]);
                assert(s[pos + 5] == t[5]);
                lemma_pieces_read(s, start, pos + 6, ps, i + 1, text.push(p.character()));
            },
        }
    }
}

/// A string that stands at `pos` is read as the characters of its pieces.
pub proof fn lemma_string_read(s: Seq<char>, pos: int, ps: Seq<Piece>)
    requires
        valid_pieces(ps),
        stands_at(s, pos, string_text(ps)),
    ensures
        string_at(s, pos) == Ok::<(Seq<char>, int), FaultModel>(
            (pieces_chars(ps), pos + string_text(ps).len()),
        ),
{
    let quote = seq!['"'];
    let body = pieces_text_from(ps, 0);
    assert(string_text(ps) =~= quote + (body + quote));
    lemma_stands_split(s, pos, quote, body + quote);
    assert(s[pos + 0] == quote[0]);
    lemma_pieces_read(s, pos, pos + 1, ps, 0, Seq::empty());
    assert(Seq::<char>::empty() + pieces_chars(ps).skip(0) =~= pieces_chars(ps));
}

/// A number as it is written: its parts, whether the exponent is marked
/// with `E`, and whether the exponent has a `+`.
pub struct NumberText {
    pub number: NumberModel,
    pub upper: bool,
    pub plus: bool,
}

impl NumberText {
    pub open spec fn valid(self) -> bool {
        &&& self.number.valid()
        &&& self.plus ==> (self.number.exponent matches Some(e) && !e.negative)
    }

    pub open spec fn sign_text(self) -> Seq<char> {
        if self.number.negative {
            seq!['-']
        } else {
            Seq::empty()
        }
    }

    pub open spec fn fraction_text(self) -> Seq<char> {
        match self.number.fraction {
            Some(f) => seq!['.'] + f,
            None => Seq::empty(),
        }
    }

    pub open spec fn exponent_sign_text(self) -> Seq<char> {
        match self.number.exponent {
            Some(e) => if e.negative {
                seq!['-']
            } else if self.plus {
                seq!['+']
            } else {
                Seq::empty()
            },
            None => Seq::empty(),
        }
    }

    pub open spec fn exponent_text(self) -> Seq<char> {
        match self.number.exponent {
            Some(e) => seq![if self.upper { 'E' } else { 'e' }] + self.exponent_sign_text()
                + e.digits,
            None => Seq::empty(),
        }
    }

    /// How the number is written.
    pub open spec fn text(self) -> Seq<char> {
        self.sign_text() + self.number.whole + self.fraction_text() + self.exponent_text()
    }
}

/// Whether a number that ends at `pos` goes on no further: the input ends
/// there, or holds there no digit, no decimal point and no exponent mark.
pub open spec fn closes(s: Seq<char>, pos: int) -> bool {
    0 <= pos < s.len() ==> !(is_digit(s[pos]) || s[pos] == '.' || s[pos] == 'e' || s[pos] == 'E')
}

/// A number that stands at `pos` and goes on no further is read as its
/// parts.
pub proof fn lemma_number_read(s: Seq<char>, pos: int, t: NumberText)
    requires
        t.valid(),
        stands_at(s, pos, t.text()),
        closes(s, pos + t.text().len()),
    ensures
        number_at(s, pos) == Ok::<(NumberModel, int), FaultModel>(
            (t.number, pos + t.text().len()),
        ),
{
    let n = t.number;
    let sign = t.sign_text();
    let fraction = t.fraction_text();
    let exponent = t.exponent_text();
    assert(t.text() =~= sign + (n.whole + (fraction + exponent)));
    lemma_stands_split(s, pos, sign, n.whole + (fraction + exponent));
    let whole = pos + sign.len();
    lemma_stands_split(s, whole, n.whole, fraction + exponent);
    let whole_end = whole + n.whole.len();
    lemma_stands_split(s, whole_end, fraction, exponent);
    let fraction_end = whole_end + fraction.len();
    let end = fraction_end + exponent.len();
    assert(end == pos + t.text().len());
    assert(is_digit(n.whole[0]));
    assert(s[whole + 0] == n.whole[0]);
    if n.negative {
        assert(s[pos + 0] == sign[0]);
    }
    // what stands after each part
    if n.fraction is Some {
        assert(s[whole_end + 0] == fraction[0]);
    }
    if n.exponent is Some {
        assert(s[fraction_end + 0] == exponent[0]);
    }
    lemma_digits_skipped(s, whole, n.whole);
    assert(after_digits(s, whole) == whole_end);
    assert(s.subrange(whole, whole_end) =~= n.whole);
    match n.fraction {
        Some(f) => {
            let dot = seq!['.'];
            lemma_stands_split(s, whole_end, dot, f);
            assert(is_digit(f[0]));
            lemma_digits_skipped(s, whole_end + 1, f);
            assert(s.subrange(whole_end + 1, fraction_end) =~= f);
        },
        None => {},
    }
    match n.exponent {
        Some(e) => {
            let mark = seq![if t.upper { 'E' } else { 'e' }];
            let es = t.exponent_sign_text();
            assert(exponent =~= mark + (es + e.digits));
            lemma_stands_split(s, fraction_end, mark, es + e.digits);
            lemma_stands_split(s, fraction_end + 1, es, e.digits);
            assert(is_digit(e.digits[0]));
            assert(s[fraction_end + 1 + es.len() + 0] == e.digits[0]);
            if es.len() > 0 {
                assert(s[fraction_end + 1 + 0] == es[0]);
            }
            lemma_digits_skipped(s, fraction_end + 1 + es.len(), e.digits);
            assert(s.subrange(fraction_end + 1 + es.len(), end) =~= e.digits);
        },
        None => {},
    }
}

/// A value as it is written, without the whitespace around it.
pub enum Syntax {
    Text(Seq<Piece>),
    Number(NumberText),
    True,
    False,
    Null,
    /// The brackets of an empty array, with the whitespace between them.
    EmptyArray(Seq<char>),
    /// The elements of an array, at least one.
    Array(Seq<Node>),
    /// The braces of an empty object, with the whitespace between them.
    EmptyObject(Seq<char>),
    /// The members of an object, at least one.
    Object(Seq<Entry>),
}

/// A value as it is written, with the whitespace before and after it.
pub struct Node {
    pub before: Seq<char>,
    pub syntax: Syntax,
    pub after: Seq<char>,
}

/// A member of an object as it is written: whitespace, the key, whitespace,
/// a colon and the value.
pub struct Entry {
    pub before: Seq<char>,
    pub key: Seq<Piece>,
    pub between: Seq<char>,
    pub value: Node,
}

/// How a value is written, with the whitespace around it.
pub open spec fn node_text(n: Node) -> Seq<char>
    decreases n, 0int,
{
    n.before + syntax_text(n.syntax) + n.after
}

/// How a value is written.
pub open spec fn syntax_text(x: Syntax) -> Seq<char>
    decreases x, 0int,
{
    match x {
        Syntax::Text(ps) => string_text(ps),
        Syntax::Number(t) => t.text(),
        Syntax::True => "true"@,
        Syntax::False => "false"@,
        Syntax::Null => "null"@,
        Syntax::EmptyArray(g) => seq!['['] + g + seq![']'],
        Syntax::Array(items) => seq!['['] + items_text(items, 0) + seq![']'],
        Syntax::EmptyObject(g) => seq!['{'] + g + seq!['}'],
        Syntax::Object(entries) => seq!['{'] + entries_text(entries, 0) + seq!['}'],
    }
}

/// How the elements from the `i`-th on are written, with commas between
/// them.
pub open spec fn items_text(items: Seq<Node>, i: int) -> Seq<char>
    decreases items, items.len() - i,
{
    if !(0 <= i < items.len()) {
        Seq::empty()
    } else if i == items.len() - 1 {
        node_text(items[i])
    } else {
        node_text(items[i]) + seq![','] + items_text(items, i + 1)
    }
}

/// How a member is written.
pub open spec fn entry_text(e: Entry) -> Seq<char>
    decreases e, 0int,
{
    e.before + string_text(e.key) + e.between + seq![':'] + node_text(e.value)
}

/// How the members from the `i`-th on are written, with commas between
/// them.
pub open spec fn entries_text(entries: Seq<Entry>, i: int) -> Seq<char>
    decreases entries, entries.len() - i,
{
    if !(0 <= i < entries.len()) {
        Seq::empty()
    } else if i == entries.len() - 1 {
        entry_text(entries[i])
    } else {
        entry_text(entries[i]) + seq![','] + entries_text(entries, i + 1)
    }
}

/// The value that is written.
pub open spec fn node_value(n: Node) -> ValueModel
    decreases n, 0int,
{
    syntax_value(n.syntax)
}

/// The value that is written.
pub open spec fn syntax_value(x: Syntax) -> ValueModel
    decreases x, 0int,
{
    match x {
        Syntax::Text(ps) => ValueModel::Text(pieces_chars(ps)),
        Syntax::Number(t) => ValueModel::Number(t.number),
        Syntax::True => ValueModel::Bool(true),
        Syntax::False => ValueModel::Bool(false),
        Syntax::Null => ValueModel::Null,
        Syntax::EmptyArray(g) => ValueModel::Array(Seq::empty()),
        Syntax::Array(items) => ValueModel::Array(items_value(items)),
        Syntax::EmptyObject(g) => ValueModel::Object(Seq::empty()),
        Syntax::Object(entries) => ValueModel::Object(entries_value(entries, 0, Seq::empty())),
    }
}

/// The values of the elements, in order.
pub open spec fn items_value(items: Seq<Node>) -> Seq<ValueModel>
    decreases items, 0int,
{
    Seq::new(
        items.len(),
        |i: int|
            if 0 <= i < items.len() {
                node_value(items[i])
            } else {
                ValueModel::Null
            },
    )
}

/// `members` with the members from the `i`-th on, one after the other: a
/// key that came before gets the later value.
pub open spec fn entries_value(entries: Seq<Entry>, i: int, members: Members) -> Members
    decreases entries, entries.len() - i,
{
    if !(0 <= i < entries.len()) {
        members
    } else {
        entries_value(
            entries,
            i + 1,
            with_member(members, pieces_chars(entries[i].key), node_value(entries[i].value)),
        )
    }
}

/// Whether a value is written as the grammar has it, inside `depth` arrays
/// and objects: whitespace where whitespace may stand.
pub open spec fn node_valid(n: Node, depth: nat) -> bool
    decreases n, 0int,
{
    is_gap(n.before) && is_gap(n.after) && syntax_valid(n.syntax, depth)
}

/// Whether a value is written as the grammar has it, inside `depth` arrays
/// and objects.
pub open spec fn syntax_valid(x: Syntax, depth: nat) -> bool
    decreases x, 0int,
{
    match x {
        Syntax::Text(ps) => valid_pieces(ps),
        Syntax::Number(t) => t.valid(),
        Syntax::True => true,
        Syntax::False => true,
        Syntax::Null => true,
        Syntax::EmptyArray(g) => depth < MAX_DEPTH && is_gap(g),
        Syntax::Array(items) => depth < MAX_DEPTH && items.len() > 0 && forall|i: int|
            0 <= i < items.len() ==> node_valid(#[trigger] items[i], depth + 1),
        Syntax::EmptyObject(g) => depth < MAX_DEPTH && is_gap(g),
        Syntax::Object(entries) => depth < MAX_DEPTH && entries.len() > 0 && forall|i: int|
            0 <= i < entries.len() ==> entry_valid(#[trigger] entries[i], depth + 1),
    }
}

/// Whether a member is written as the grammar has it, inside `depth` arrays
/// and objects.
pub open spec fn entry_valid(e: Entry, depth: nat) -> bool
    decreases e, 0int,
{
    is_gap(e.before) && valid_pieces(e.key) && is_gap(e.between) && node_valid(e.value, depth)
}

/// Whether a value can start with `c`.
pub open spec fn starts_value(c: char) -> bool {
    c == '"' || c == '{' || c == '[' || c == 't' || c == 'f' || c == 'n' || c == '-' || is_digit(c)
}

/// What is written for a value starts with a character of its own.
pub proof fn lemma_syntax_start(x: Syntax, depth: nat)
    requires
        syntax_valid(x, depth),
    ensures
        syntax_text(x).len() > 0,
        starts_value(syntax_text(x)[0]),
{
    reveal_strlit("true");
    reveal_strlit("false");
    reveal_strlit("null");
    match x {
        Syntax::Number(t) => {
            assert(is_digit(t.number.whole[0]));
            let head = t.sign_text() + t.number.whole;
            assert(t.text() =~= head + (t.fraction_text() + t.exponent_text()));
            assert(t.text()[0] == head[0]);
        },
        _ => {},
    }
}

/// Where the value of a node starts, and what stands there.
pub proof fn lemma_node_start(s: Seq<char>, pos: int, n: Node, depth: nat)
    requires
        node_valid(n, depth),
        stands_at(s, pos, node_text(n)),
    ensures
        after_whitespace(s, pos) == pos + n.before.len(),
        pos + n.before.len() < s.len(),
        starts_value(s[pos + n.before.len()]),
        stands_at(s, pos + n.before.len(), syntax_text(n.syntax)),
        stands_at(s, pos + n.before.len() + syntax_text(n.syntax).len(), n.after),
{
    let x = syntax_text(n.syntax);
    assert(node_text(n) =~= n.before + (x + n.after));
    lemma_stands_split(s, pos, n.before, x + n.after);
    let start = pos + n.before.len();
    lemma_stands_split(s, start, x, n.after);
    lemma_syntax_start(n.syntax, depth);
    assert(s[start + 0] == x[0]);
    lemma_gap_skipped(s, pos, n.before);
}

/// A value that stands at `pos`, with its whitespace, is read as what it
/// stands for, and the whitespace after it is skipped.
pub proof fn lemma_node_read(s: Seq<char>, pos: int, n: Node, depth: nat)
    requires
        node_valid(n, depth),
        stands_at(s, pos, node_text(n)),
        closes(s, pos + node_text(n).len()),
    ensures
        value_at(s, pos, depth) == Ok::<(ValueModel, int), FaultModel>(
            (node_value(n), after_whitespace(s, pos + node_text(n).len())),
        ),
    decreases n, 0int,
{
    lemma_node_start(s, pos, n, depth);
    let start = pos + n.before.len();
    let end = start + syntax_text(n.syntax).len();
    if n.after.len() > 0 {
        assert(s[end + 0] == n.after[0]);
    }
    lemma_syntax_read(s, start, n.syntax, depth);
    lemma_gap_skipped(s, end, n.after);
}

/// A value that stands at `pos` is read as what it stands for.
pub proof fn lemma_syntax_read(s: Seq<char>, pos: int, x: Syntax, depth: nat)
    requires
        syntax_valid(x, depth),
        stands_at(s, pos, syntax_text(x)),
        closes(s, pos + syntax_text(x).len()),
    ensures
        token_at(s, pos, depth) == Ok::<(ValueModel, int), FaultModel>(
            (syntax_value(x), pos + syntax_text(x).len()),
        ),
    decreases x, 0int,
{
    reveal_strlit("true");
    reveal_strlit("false");
    reveal_strlit("null");
    lemma_syntax_start(x, depth);
    let t = syntax_text(x);
    assert(s[pos + 0] == t[0]);
    assert(word_at(s, pos, "true"@) ==> s.subrange(pos, pos + 4)[0] == 't');
    assert(word_at(s, pos, "false"@) ==> s.subrange(pos, pos + 5)[0] == 'f');
    assert(word_at(s, pos, "null"@) ==> s.subrange(pos, pos + 4)[0] == 'n');
    match x {
        Syntax::Text(ps) => {
            lemma_string_read(s, pos, ps);
        },
        Syntax::Number(n) => {
            lemma_number_read(s, pos, n);
        },
        Syntax::True => {
            assert(s.subrange(pos, pos + 4) =~= t);
        },
        Syntax::False => {
            assert(s.subrange(pos, pos + 5) =~= t);
        },
        Syntax::Null => {
            assert(s.subrange(pos, pos + 4) =~= t);
        },
        Syntax::EmptyArray(g) => {
            assert(t =~= seq!['['] + (g + seq![']']));
            lemma_stands_split(s, pos, seq!['['], g + seq![']']);
            lemma_stands_split(s, pos + 1, g, seq![']']);
            assert(s[pos + 1 + g.len() + 0] == seq![']'][0]);
            lemma_gap_skipped(s, pos + 1, g);
        },
        Syntax::Array(items) => {
            let inner = items_text(items, 0) + seq![']'];
            assert(t =~= seq!['['] + inner);
            lemma_stands_split(s, pos, seq!['['], inner);
            let first = node_text(items[0]);
            let rest = if items.len() == 1 {
                seq![']']
            } else {
                seq![','] + items_text(items, 1) + seq![']']
            };
            assert(inner =~= first + rest);
            lemma_stands_split(s, pos + 1, first, rest);
            lemma_node_start(s, pos + 1, items[0], depth + 1);
            lemma_items_read(
                s,
                pos + 1,
                pos + 1 + items[0].before.len(),
                items,
                0,
                depth + 1,
                Seq::empty(),
            );
            assert(Seq::<ValueModel>::empty() + items_value(items).skip(0) =~= items_value(items));
        },
        Syntax::EmptyObject(g) => {
            assert(t =~= seq!['{'] + (g + seq!['}']));
            lemma_stands_split(s, pos, seq!['{'], g + seq!['}']);
            lemma_stands_split(s, pos + 1, g, seq!['}']);
            assert(s[pos + 1 + g.len() + 0] == seq!['}'][0]);
            lemma_gap_skipped(s, pos + 1, g);
        },
        Syntax::Object(entries) => {
            let inner = entries_text(entries, 0) + seq!['}'];
            assert(t =~= seq!['{'] + inner);
            lemma_stands_split(s, pos, seq!['{'], inner);
            lemma_entries_read(s, pos + 1, entries, 0, depth + 1, Seq::empty());
        },
    }
}

/// The elements that stand at `pos`, with the closing bracket after them,
/// are read one by one. Reading may start at `from`, inside the whitespace
/// before the first of them.
pub proof fn lemma_items_read(
    s: Seq<char>,
    pos: int,
    from: int,
    items: Seq<Node>,
    i: int,
    depth: nat,
    read: Seq<ValueModel>,
)
    requires
        0 <= i < items.len(),
        forall|k: int| 0 <= k < items.len() ==> node_valid(#[trigger] items[k], depth),
        stands_at(s, pos, items_text(items, i) + seq![']']),
        pos <= from <= pos + items[i].before.len(),
    ensures
        elements_at(s, from, depth, read) == Ok::<(Seq<ValueModel>, int), FaultModel>(
            (read + items_value(items).skip(i), pos + items_text(items, i).len() + 1),
        ),
    decreases items, items.len() - i,
{
    let n = items[i];
    let t = node_text(n);
    let last = i == items.len() - 1;
    let rest = if last {
        seq![']']
    } else {
        seq![','] + (items_text(items, i + 1) + seq![']'])
    };
    assert(items_text(items, i) + seq![']'] =~= t + rest);
    lemma_stands_split(s, pos, t, rest);
    let end = pos + t.len();
    assert(s[end + 0] == rest[0]);
    assert(node_valid(n, depth));
    lemma_node_start(s, pos, n, depth);
    lemma_node_read(s, pos, n, depth);
    lemma_after_whitespace_from(s, pos, from);
    let v = node_value(n);
    assert(read.push(v) + items_value(items).skip(i + 1) =~= read + items_value(items).skip(i));
    assert(after_whitespace(s, end) == end);
    assert(value_at(s, pos, depth) == Ok::<(ValueModel, int), FaultModel>((v, end)));
    assert(value_at(s, from, depth) == value_at(s, pos, depth));
    if last {
        assert(read.push(v) =~= read + items_value(items).skip(i));
        assert(elements_at(s, from, depth, read) == Ok::<(Seq<ValueModel>, int), FaultModel>(
            (read.push(v), end + 1),
        ));
    }
    if !last {
        let tail = items_text(items, i + 1) + seq![']'];
        lemma_stands_split(s, end, seq![','], tail);
        let m = items[i + 1];
        let after = if i + 1 == items.len() - 1 {
            seq![']']
        } else {
            seq![','] + items_text(items, i + 2) + seq![']']
        };
        assert(tail =~= node_text(m) + after);
        lemma_stands_split(s, end + 1, node_text(m), after);
        assert(node_valid(m, depth));
        lemma_node_start(s, end + 1, m, depth);
        lemma_items_read(s, end + 1, end + 1, items, i + 1, depth, read.push(v));
        assert(s[end] == ',');
        assert(after_whitespace(s, end + 1) == end + 1 + m.before.len());
        assert(elements_at(s, from, depth, read) == elements_at(s, end + 1, depth, read.push(v)));
    }
}

/// The members that stand at `pos`, with the closing brace after them, are
/// read one by one.
pub proof fn lemma_entries_read(
    s: Seq<char>,
    pos: int,
    entries: Seq<Entry>,
    i: int,
    depth: nat,
    read: Members,
)
    requires
        0 <= i < entries.len(),
        forall|k: int| 0 <= k < entries.len() ==> entry_valid(#[trigger] entries[k], depth),
        stands_at(s, pos, entries_text(entries, i) + seq!['}']),
    ensures
        after_whitespace(s, pos) == pos + entries[i].before.len(),
        pos + entries[i].before.len() < s.len(),
        s[pos + entries[i].before.len()] == '"',
        members_at(s, pos + entries[i].before.len(), depth, read) == Ok::<(Members, int), FaultModel>(
            (entries_value(entries, i, read), pos + entries_text(entries, i).len() + 1),
        ),
    decreases entries, entries.len() - i,
{
    let e = entries[i];
    assert(entry_valid(e, depth));
    let t = entry_text(e);
    let last = i == entries.len() - 1;
    let rest = if last {
        seq!['}']
    } else {
        seq![','] + (entries_text(entries, i + 1) + seq!['}'])
    };
    assert(entries_text(entries, i) + seq!['}'] =~= t + rest);
    lemma_stands_split(s, pos, t, rest);
    let end = pos + t.len();
    assert(s[end + 0] == rest[0]);
    // the parts of the member
    let key = string_text(e.key);
    let value = node_text(e.value);
    assert(t =~= e.before + (key + (e.between + (seq![':'] + value))));
    lemma_stands_split(s, pos, e.before, key + (e.between + (seq![':'] + value)));
    let key_start = pos + e.before.len();
    lemma_stands_split(s, key_start, key, e.between + (seq![':'] + value));
    let key_end = key_start + key.len();
    lemma_stands_split(s, key_end, e.between, seq![':'] + value);
    let colon = key_end + e.between.len();
    lemma_stands_split(s, colon, seq![':'], value);
    assert(s[colon + 0] == seq![':'][0]);
    assert(key =~= seq!['"'] + (pieces_text_from(e.key, 0) + seq!['"']));
    assert(s[key_start + 0] == key[0]);
    lemma_gap_skipped(s, pos, e.before);
    lemma_string_read(s, key_start, e.key);
    lemma_gap_skipped(s, key_end, e.between);
    lemma_node_read(s, colon + 1, e.value, depth);
    let v = node_value(e.value);
    let all = with_member(read, pieces_chars(e.key), v);
    assert(string_at(s, key_start) == Ok::<(Seq<char>, int), FaultModel>(
        (pieces_chars(e.key), key_end),
    ));
    assert(after_whitespace(s, key_end) == colon);
    assert(end == colon + 1 + value.len());
    assert(after_whitespace(s, end) == end);
    assert(value_at(s, colon + 1, depth) == Ok::<(ValueModel, int), FaultModel>((v, end)));
    assert(entries_value(entries, i, read) == entries_value(entries, i + 1, all));
    if last {
        assert(members_at(s, key_start, depth, read) == Ok::<(Members, int), FaultModel>(
            (all, end + 1),
        ));
    } else {
        let tail = entries_text(entries, i + 1) + seq!['}'];
        lemma_stands_split(s, end, seq![','], tail);
        lemma_entries_read(s, end + 1, entries, i + 1, depth, all);
        assert(s[end] == ',');
        let next = after_whitespace(s, end + 1);
        assert(s[next] == '"');
        assert(members_at(s, key_start, depth, read) == members_at(s, next, depth, all));
    }
}

/// Completeness of the reader: a document that is written as the grammar
/// has it is read as the value that it stands for.
pub proof fn lemma_document_read(n: Node)
    requires
        node_valid(n, 0),
    ensures
        document(node_text(n)) == Ok::<ValueModel, FaultModel>(node_value(n)),
{
    let s = node_text(n);
    assert(stands_at(s, 0, s));
    lemma_node_read(s, 0, n, 0);
}

} // verus!
