//! The shortest text of a value, and the proof that it is read as that
//! value.

use crate::document::{
    entries_value, entry_valid, items_value, lemma_document_read, node_text, node_valid, node_value,
    pieces_chars, syntax_text, syntax_valid, syntax_value, valid_pieces, Entry, Node, NumberText,
    Piece, Syntax,
};
use crate::error::FaultModel;
use crate::grammar::{document, is_plain};
use crate::value::{distinct_keys, lemma_key_index, value_valid, with_member, Members, ValueModel};
use vstd::prelude::*;

verus! {

/// The hex digit of value `d`, in lower case.
pub open spec fn hex_char(d: int) -> char {
    if d < 10 {
        ('0' as int + d) as char
    } else {
        ('a' as int + d - 10) as char
    }
}

/// How a character of a string is written in the shortest text: as itself
/// where it may stand for itself, a quote and a backslash after a
/// backslash, a control character as `\u00` and two hex digits.
pub open spec fn minimal_piece(c: char) -> Piece {
    if is_plain(c) {
        Piece::Plain(c)
    } else if c == '"' || c == '\\' {
        Piece::Short(c)
    } else {
        Piece::Hex('0', '0', hex_char(c as int / 16), hex_char(c as int % 16))
    }
}

pub open spec fn minimal_pieces(t: Seq<char>) -> Seq<Piece> {
    Seq::new(t.len(), |i: int| minimal_piece(t[i]))
}

/// A value without whitespace around it.
pub open spec fn bare(x: Syntax) -> Node {
    Node { before: Seq::empty(), syntax: x, after: Seq::empty() }
}

/// How a value is written in the shortest text: no whitespace, numbers as
/// they are held, strings by `minimal_piece`.
pub open spec fn minimal_syntax(v: ValueModel) -> Syntax
    decreases v, 0int,
{
    match v {
        ValueModel::Text(t) => Syntax::Text(minimal_pieces(t)),
        ValueModel::Number(n) => Syntax::Number(NumberText { number: n, upper: false, plus: false }),
        ValueModel::Bool(b) => if b {
            Syntax::True
        } else {
            Syntax::False
        },
        ValueModel::Null => Syntax::Null,
        ValueModel::Array(items) => if items.len() == 0 {
            Syntax::EmptyArray(Seq::empty())
        } else {
            Syntax::Array(minimal_items(items))
        },
        ValueModel::Object(members) => if members.len() == 0 {
            Syntax::EmptyObject(Seq::empty())
        } else {
            Syntax::Object(minimal_entries(members))
        },
    }
}

pub open spec fn minimal_items(items: Seq<ValueModel>) -> Seq<Node>
    decreases items, 0int,
{
    Seq::new(
        items.len(),
        |i: int|
            if 0 <= i < items.len() {
                bare(minimal_syntax(items[i]))
            } else {
                bare(Syntax::Null)
            },
    )
}

pub open spec fn minimal_entries(members: Members) -> Seq<Entry>
    decreases members, 0int,
{
    Seq::new(
        members.len(),
        |i: int|
            Entry {
                before: Seq::empty(),
                key: if 0 <= i < members.len() {
                    minimal_pieces(members[i].0)
                } else {
                    Seq::empty()
                },
                between: Seq::empty(),
                value: if 0 <= i < members.len() {
                    bare(minimal_syntax(members[i].1))
                } else {
                    bare(Syntax::Null)
                },
            },
    )
}

/// The shortest text of a value.
pub open spec fn minimal_text(v: ValueModel) -> Seq<char> {
    syntax_text(minimal_syntax(v))
}

/// The shortest way to write a character is a way to write it.
pub proof fn lemma_minimal_piece(c: char)
    ensures
        minimal_piece(c).valid(),
        minimal_piece(c).character() == c,
{
}

/// The shortest way to write a string stands for that string.
pub proof fn lemma_minimal_pieces(t: Seq<char>)
    ensures
        valid_pieces(minimal_pieces(t)),
        pieces_chars(minimal_pieces(t)) == t,
{
    let ps = minimal_pieces(t);
    assert forall|i: int| 0 <= i < ps.len() implies (#[trigger] ps[i]).valid() by {
        lemma_minimal_piece(t[i]);
    }
    assert forall|i: int| 0 <= i < t.len() implies pieces_chars(ps)[i] == t[i] by {
        lemma_minimal_piece(t[i]);
    }
    assert(pieces_chars(ps) =~= t);
}

/// The shortest way to write a value is written as the grammar has it, and
/// stands for that value.
pub proof fn lemma_minimal_syntax(v: ValueModel, depth: nat)
    requires
        value_valid(v, depth),
    ensures
        syntax_valid(minimal_syntax(v), depth),
        syntax_value(minimal_syntax(v)) == v,
    decreases v, 0int,
{
    match v {
        ValueModel::Text(t) => {
            lemma_minimal_pieces(t);
        },
        ValueModel::Array(items) => {
            if items.len() > 0 {
                let nodes = minimal_items(items);
                assert forall|i: int| 0 <= i < nodes.len() implies node_valid(
                    #[trigger] nodes[i],
                    depth + 1,
                ) && node_value(nodes[i]) == items[i] by {
                    assert(value_valid(items[i], depth + 1));
                    lemma_minimal_syntax(items[i], depth + 1);
                }
                assert(items_value(nodes) =~= items);
            } else {
                assert(items =~= Seq::empty());
            }
        },
        ValueModel::Object(members) => {
            if members.len() > 0 {
                let entries = minimal_entries(members);
                assert forall|i: int| 0 <= i < entries.len() implies entry_valid(
                    #[trigger] entries[i],
                    depth + 1,
                ) by {
                    assert(value_valid(members[i].1, depth + 1));
                    lemma_minimal_syntax(members[i].1, depth + 1);
                    lemma_minimal_pieces(members[i].0);
                }
                lemma_minimal_entries(members, 0, depth + 1);
                assert(members.take(0) =~= Seq::empty());
                assert(members.take(members.len() as int) =~= members);
            } else {
                assert(members =~= Seq::empty());
            }
        },
        _ => {},
    }
}

/// The members of an object with distinct keys, written one after the
/// other, are read as these members.
pub proof fn lemma_minimal_entries(members: Members, i: int, depth: nat)
    requires
        0 <= i <= members.len(),
        distinct_keys(members),
        forall|k: int| 0 <= k < members.len() ==> value_valid((#[trigger] members[k]).1, depth),
    ensures
        entries_value(minimal_entries(members), i, members.take(i)) == members,
    decreases members, members.len() - i,
{
    let entries = minimal_entries(members);
    assert(entries.len() == members.len());
    if i < members.len() {
        let key = members[i].0;
        let value = members[i].1;
        assert(value_valid(members[i].1, depth));
        lemma_minimal_syntax(value, depth);
        lemma_minimal_pieces(key);
        assert(pieces_chars(entries[i].key) == key);
        assert(node_value(entries[i].value) == value);
        let read = members.take(i);
        assert forall|j: int| 0 <= j < read.len() implies (#[trigger] read[j]).0 != key by {
            assert(read[j] == members[j]);
        }
        lemma_key_index(read, key, i);
        assert(with_member(read, key, value) =~= members.take(i + 1));
        lemma_minimal_entries(members, i + 1, depth);
    } else {
        assert(members.take(i) =~= members);
    }
}

/// Round trip: the shortest text of a value that a document can hold is
/// read as that value.
pub proof fn lemma_round_trip(v: ValueModel)
    requires
        value_valid(v, 0),
    ensures
        document(minimal_text(v)) == Ok::<ValueModel, FaultModel>(v),
{
    lemma_minimal_syntax(v, 0);
    let n = bare(minimal_syntax(v));
    assert(node_text(n) =~= minimal_text(v));
    lemma_document_read(n);
}

} // verus!
