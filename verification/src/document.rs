//! Documents as they are written: the fields of an object in their order, and the steps
//! that a parser yields for them.

use crate::event::{FrameView, Step, Token};
use crate::value::Tree;
use vstd::prelude::*;

verus! {

/// A JSON document as it is written. An object keeps its fields in the order in which
/// they stand, and may hold a name more than once.
pub enum Document {
    Null,
    Boolean(bool),
    I64(i64),
    U64(u64),
    F64(u64),
    String(Seq<char>),
    Array(Seq<Document>),
    Object(Seq<(Seq<char>, Document)>),
}

/// The value that a document has: its fields are set one after another, so that of two
/// fields with one name the later one stays.
pub open spec fn document_tree(document: Document) -> Tree
    decreases document,
{
    match document {
        Document::Null => Tree::Null,
        Document::Boolean(b) => Tree::Boolean(b),
        Document::I64(i) => Tree::I64(i),
        Document::U64(u) => Tree::U64(u),
        Document::F64(bits) => Tree::F64(bits),
        Document::String(s) => Tree::String(s),
        Document::Array(items) => Tree::Array(items_trees(items, Seq::empty())),
        Document::Object(fields) => Tree::Object(fields_trees(fields, Map::empty())),
    }
}

/// The values of `items`, put behind `done`.
pub open spec fn items_trees(items: Seq<Document>, done: Seq<Tree>) -> Seq<Tree>
    decreases items,
{
    if items.len() == 0 {
        done
    } else {
        items_trees(items.skip(1), done.push(document_tree(items[0])))
    }
}

/// The values of `fields`, set one after another in `done`.
pub open spec fn fields_trees(
    fields: Seq<(Seq<char>, Document)>,
    done: Map<Seq<char>, Tree>,
) -> Map<Seq<char>, Tree>
    decreases fields,
{
    if fields.len() == 0 {
        done
    } else {
        fields_trees(fields.skip(1), done.insert(fields[0].0, document_tree(fields[0].1)))
    }
}

/// How deep arrays and objects are nested in a document: a scalar has depth 0.
pub open spec fn document_depth(document: Document) -> nat
    decreases document,
{
    match document {
        Document::Array(items) => 1 + items_depth(items),
        Document::Object(fields) => 1 + fields_depth(fields),
        _ => 0,
    }
}

/// The greatest depth among `items`.
pub open spec fn items_depth(items: Seq<Document>) -> nat
    decreases items,
{
    if items.len() == 0 {
        0
    } else {
        let first = document_depth(items[0]);
        let others = items_depth(items.skip(1));
        if first >= others {
            first
        } else {
            others
        }
    }
}

/// The greatest depth among the values of `fields`.
pub open spec fn fields_depth(fields: Seq<(Seq<char>, Document)>) -> nat
    decreases fields,
{
    if fields.len() == 0 {
        0
    } else {
        let first = document_depth(fields[0].1);
        let others = fields_depth(fields.skip(1));
        if first >= others {
            first
        } else {
            others
        }
    }
}

/// The event that a document starts with.
pub open spec fn first_token(document: Document) -> Token {
    match document {
        Document::Null => Token::Null,
        Document::Boolean(b) => Token::Boolean(b),
        Document::I64(i) => Token::I64(i),
        Document::U64(u) => Token::U64(u),
        Document::F64(bits) => Token::F64(bits),
        Document::String(s) => Token::String(s),
        Document::Array(_) => Token::ArrayStart,
        Document::Object(_) => Token::ObjectStart,
    }
}

/// The steps that follow a document's first event: none for a scalar; for an array its
/// elements and the `ArrayEnd`; for an object its fields and the `ObjectEnd`. An end
/// shows the frame `frame`, in which the document itself stands.
pub open spec fn document_tail(document: Document, frame: Option<FrameView>) -> Seq<Step>
    decreases document,
{
    match document {
        Document::Array(items) => items_steps(items, 0) + seq![
            Step { token: Token::ArrayEnd, frame },
        ],
        Document::Object(fields) => fields_steps(fields) + seq![
            Step { token: Token::ObjectEnd, frame },
        ],
        _ => Seq::empty(),
    }
}

/// The steps of `items` as the elements of an array, the first of them at index `at`:
/// each element starts in the frame of its index.
pub open spec fn items_steps(items: Seq<Document>, at: nat) -> Seq<Step>
    decreases items,
{
    if items.len() == 0 {
        Seq::empty()
    } else {
        let frame = Some(FrameView::Index(at as u32));
        seq![Step { token: first_token(items[0]), frame }] + document_tail(items[0], frame)
            + items_steps(items.skip(1), at + 1)
    }
}

/// The steps of `fields` as the fields of an object: each value starts in the frame of
/// its field's name.
pub open spec fn fields_steps(fields: Seq<(Seq<char>, Document)>) -> Seq<Step>
    decreases fields,
{
    if fields.len() == 0 {
        Seq::empty()
    } else {
        let frame = Some(FrameView::Key(fields[0].0));
        seq![Step { token: first_token(fields[0].1), frame }] + document_tail(fields[0].1, frame)
            + fields_steps(fields.skip(1))
    }
}

} // verus!
