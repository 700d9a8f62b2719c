//! Whitespace between tokens does not matter.

use crate::document::{
    entries_value, items_value, lemma_document_read, node_text, node_valid, node_value,
    pieces_chars, syntax_value, Entry, Node, Syntax,
};
use crate::error::FaultModel;
use crate::grammar::document;
use crate::value::{with_member, Members, ValueModel};
use crate::written::{lemma_document_written, written};
use vstd::prelude::*;

verus! {

/// A value as it is written, with all whitespace between its tokens taken
/// out.
pub open spec fn compact_node(n: Node) -> Node
    decreases n, 0int,
{
    Node { before: Seq::empty(), syntax: compact_syntax(n.syntax), after: Seq::empty() }
}

/// A value as it is written, with all whitespace between its tokens taken
/// out.
pub open spec fn compact_syntax(x: Syntax) -> Syntax
    decreases x, 0int,
{
    match x {
        Syntax::EmptyArray(g) => Syntax::EmptyArray(Seq::empty()),
        Syntax::Array(items) => Syntax::Array(compact_items(items)),
        Syntax::EmptyObject(g) => Syntax::EmptyObject(Seq::empty()),
        Syntax::Object(entries) => Syntax::Object(compact_entries(entries)),
        _ => x,
    }
}

pub open spec fn compact_items(items: Seq<Node>) -> Seq<Node>
    decreases items, 0int,
{
    Seq::new(
        items.len(),
        |i: int|
            if 0 <= i < items.len() {
                compact_node(items[i])
            } else {
                Node { before: Seq::empty(), syntax: Syntax::Null, after: Seq::empty() }
            },
    )
}

pub open spec fn compact_entry(e: Entry) -> Entry
    decreases e, 0int,
{
    Entry {
        before: Seq::empty(),
        key: e.key,
        between: Seq::empty(),
        value: compact_node(e.value),
    }
}

pub open spec fn compact_entries(entries: Seq<Entry>) -> Seq<Entry>
    decreases entries, 0int,
{
    Seq::new(
        entries.len(),
        |i: int|
            if 0 <= i < entries.len() {
                compact_entry(entries[i])
            } else {
                Entry {
                    before: Seq::empty(),
                    key: Seq::empty(),
                    between: Seq::empty(),
                    value: Node { before: Seq::empty(), syntax: Syntax::Null, after: Seq::empty() },
                }
            },
    )
}

/// Taking the whitespace out leaves the value that is written as it is.
pub proof fn lemma_compact_value(x: Syntax)
    ensures
        syntax_value(compact_syntax(x)) == syntax_value(x),
    decreases x, 0int,
{
    match x {
        Syntax::Array(items) => {
            let c = compact_items(items);
            assert forall|i: int| 0 <= i < items.len() implies node_value(#[trigger] c[i])
                == node_value(items[i]) by {
                lemma_compact_value(items[i].syntax);
            }
            assert(items_value(c) =~= items_value(items));
        },
        Syntax::Object(entries) => {
            lemma_compact_entries_value(entries, 0, Seq::empty());
        },
        _ => {},
    }
}

/// Taking the whitespace out leaves the members that are written as they
/// are.
pub proof fn lemma_compact_entries_value(entries: Seq<Entry>, i: int, members: Members)
    requires
        0 <= i,
    ensures
        entries_value(compact_entries(entries), i, members) == entries_value(entries, i, members),
    decreases entries, entries.len() - i,
{
    let c = compact_entries(entries);
    assert(c.len() == entries.len());
    if i < entries.len() {
        assert(c[i] == compact_entry(entries[i]));
        lemma_compact_value(entries[i].value.syntax);
        let value = node_value(entries[i].value);
        assert(node_value(c[i].value) == value);
        let next = with_member(members, pieces_chars(entries[i].key), value);
        lemma_compact_entries_value(entries, i + 1, next);
        assert(entries_value(c, i, members) == entries_value(c, i + 1, next));
        assert(entries_value(entries, i, members) == entries_value(entries, i + 1, next));
    }
}

/// Whitespace between tokens changes nothing: two documents that are
/// written as the grammar has it, and that differ only in the whitespace
/// between their tokens, are read as the same value.
pub proof fn lemma_whitespace_invariance(a: Node, b: Node)
    requires
        node_valid(a, 0),
        node_valid(b, 0),
        compact_node(a) == compact_node(b),
    ensures
        document(node_text(a)) == Ok::<ValueModel, FaultModel>(node_value(a)),
        document(node_text(b)) == document(node_text(a)),
{
    lemma_document_read(a);
    lemma_document_read(b);
    lemma_compact_value(a.syntax);
    lemma_compact_value(b.syntax);
}

/// The same of any text that is read: every document with its tokens, as
/// the grammar has it, is read as the same value.
pub proof fn lemma_whitespace_invariance_of_text(s: Seq<char>, b: Node)
    requires
        document(s) is Ok,
        node_valid(b, 0),
        compact_node(b) == compact_node(written(s)),
    ensures
        document(node_text(b)) == document(s),
{
    lemma_document_written(s);
    lemma_whitespace_invariance(written(s), b);
}

} // verus!
