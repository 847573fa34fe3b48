//! The events that the parser yields, and the mathematical stream that they come from.

use rustc_serialize::json::ParserError;
use vstd::prelude::*;

verus! {

/// One event of the parser.
#[derive(Debug, PartialEq)]
pub enum Event {
    ObjectStart,
    ObjectEnd,
    ArrayStart,
    ArrayEnd,
    BooleanValue(bool),
    I64Value(i64),
    U64Value(u64),
    /// A floating-point number, as its IEEE-754 bit pattern.
    F64Value(u64),
    StringValue(String),
    NullValue,
    /// The parser could not make sense of its input at this point.
    Error(ParserError),
}

/// What an event says, without what only the parser can interpret.
pub enum Token {
    ObjectStart,
    ObjectEnd,
    ArrayStart,
    ArrayEnd,
    Boolean(bool),
    I64(i64),
    U64(u64),
    F64(u64),
    String(Seq<char>),
    Null,
    Error,
}

/// Whether an event can start a value: whether it is a scalar or opens an array or an
/// object. An event that cannot, found where a value should start, is read as null.
pub open spec fn starts_value(token: Token) -> bool {
    !(token is ObjectEnd || token is ArrayEnd || token is Error)
}

impl Event {
    /// Whether the event can start a value.
    pub fn starts_value(&self) -> (starts: bool)
        ensures
            starts == starts_value(self@),
    {
        match self {
            Event::ObjectEnd => false,
            Event::ArrayEnd => false,
            Event::Error(_) => false,
            _ => true,
        }
    }
}

impl View for Event {
    type V = Token;

    open spec fn view(&self) -> Token {
        match *self {
            Event::ObjectStart => Token::ObjectStart,
            Event::ObjectEnd => Token::ObjectEnd,
            Event::ArrayStart => Token::ArrayStart,
            Event::ArrayEnd => Token::ArrayEnd,
            Event::BooleanValue(b) => Token::Boolean(b),
            Event::I64Value(i) => Token::I64(i),
            Event::U64Value(u) => Token::U64(u),
            Event::F64Value(bits) => Token::F64(bits),
            Event::StringValue(s) => Token::String(s@),
            Event::NullValue => Token::Null,
            Event::Error(_) => Token::Error,
        }
    }
}

/// The innermost frame of the parser's stack: where in the document the event that was
/// pulled last belongs.
#[derive(Debug, PartialEq, Eq)]
pub enum Frame {
    /// The event belongs to the element of an array at this index.
    Index(u32),
    /// The event belongs to the field of an object with this name.
    Key(String),
}

/// A [`Frame`] as a mathematical value.
pub enum FrameView {
    Index(u32),
    Key(Seq<char>),
}

impl View for Frame {
    type V = FrameView;

    open spec fn view(&self) -> FrameView {
        match *self {
            Frame::Index(i) => FrameView::Index(i),
            Frame::Key(name) => FrameView::Key(name@),
        }
    }
}

/// The view of a frame that may be missing.
pub open spec fn frame_view(frame: Option<Frame>) -> Option<FrameView> {
    match frame {
        None => None,
        Some(frame) => Some(frame@),
    }
}

/// The name of the field that a frame shows. It is of use only where the frame is the
/// name of a field; elsewhere it is the empty name.
pub open spec fn field_name(frame: Option<FrameView>) -> Seq<char> {
    match frame {
        Some(FrameView::Key(name)) => name,
        _ => Seq::empty(),
    }
}

/// One pull from the parser: the event that it yields, and the innermost frame of the
/// parser's stack right after it.
pub struct Step {
    pub token: Token,
    pub frame: Option<FrameView>,
}

} // verus!
