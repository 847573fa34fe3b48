//! The streaming parser of `rustc_serialize`, as this crate sees it.
//!
//! The parser itself is not verified. What is assumed of it stands in this file and
//! nowhere else: two functions that call it, and the names in which their contracts speak.

use crate::event::{frame_view, Event, Frame, FrameView, Step};
use rustc_serialize::json::{JsonEvent, Parser, ParserError, StackElement};
use std::str::Chars;
use vstd::prelude::*;

verus! {

/// `rustc_serialize::json::Parser`: a value of it is carried around and handed to the
/// functions below, and nothing else is known of it.
#[verifier::external_type_specification]
#[verifier::external_body]
#[verifier::reject_recursive_types(T)]
pub struct ExParser<T>(Parser<T>);

/// `rustc_serialize::json::ParserError`: carried inside [`Event::Error`] as the parser
/// gave it.
#[verifier::external_type_specification]
#[verifier::external_body]
pub struct ExParserError(ParserError);

/// The steps that the parser has still to yield: what its `next` will return call after
/// call until it returns `None`, each event with the frame that is on top of the parser's
/// stack once that event has been returned. The parser reads a string, which is finite,
/// and every event but an error takes at least one character of it, while an error is
/// the last event; so there are finitely many steps.
pub uninterp spec fn pending(parser: Parser<Chars>) -> Seq<Step>;

/// The frame on top of the parser's stack as it stands: what `stack().top()` shows.
pub uninterp spec fn context(parser: Parser<Chars>) -> Option<FrameView>;

/// Whether the parser stays within its own counters on all the input that it has still
/// to read: the names on its stack are addressed by 16-bit offsets into one buffer, the
/// index of an array's element is counted in 32 bits, and the digits of an exponent are
/// summed up in a machine word. Where one of these overflows, `next` or `stack().top()`
/// may panic; on a parser for which this holds they return.
pub uninterp spec fn in_range(parser: Parser<Chars>) -> bool;

/// Calls `Parser::next` (the parser's `Iterator::next`) and hands the event on in this
/// crate's type, a floating-point number by its bits.
///
/// Assumed: the call returns `None` exactly when no step is pending, and leaves none
/// pending then; else it returns the event of the first pending step, that step's frame
/// is now on top of the stack, and the steps after it are the ones still pending. A
/// parser within its counters stays so.
#[verifier::external_body]
pub(crate) fn next_event(parser: &mut Parser<Chars>) -> (event: Option<Event>)
    requires
        in_range(*old(parser)),
    ensures
        in_range(*final(parser)),
        match event {
            None => pending(*old(parser)).len() == 0 && pending(*final(parser)) == pending(
                *old(parser),
            ),
            Some(event) => {
                &&& pending(*old(parser)).len() > 0
                &&& event@ == pending(*old(parser))[0].token
                &&& context(*final(parser)) == pending(*old(parser))[0].frame
                &&& pending(*final(parser)) == pending(*old(parser)).skip(1)
            },
        },
{
    Some(match parser.next()? {
        JsonEvent::ObjectStart => Event::ObjectStart,
        JsonEvent::ObjectEnd => Event::ObjectEnd,
        JsonEvent::ArrayStart => Event::ArrayStart,
        JsonEvent::ArrayEnd => Event::ArrayEnd,
        JsonEvent::BooleanValue(b) => Event::BooleanValue(b),
        JsonEvent::I64Value(i) => Event::I64Value(i),
        JsonEvent::U64Value(u) => Event::U64Value(u),
        JsonEvent::F64Value(f) => Event::F64Value(f.to_bits()),
        JsonEvent::StringValue(s) => Event::StringValue(s),
        JsonEvent::NullValue => Event::NullValue,
        JsonEvent::Error(e) => Event::Error(e),
    })
}

/// Calls `Parser::stack` and `Stack::top` on it, and hands the frame on in this crate's
/// type, a name as a string of its own.
///
/// Assumed: the call shows the frame on top of the stack, and changes nothing.
#[verifier::external_body]
pub(crate) fn current_context(parser: &Parser<Chars>) -> (frame: Option<Frame>)
    requires
        in_range(*parser),
    ensures
        frame_view(frame) == context(*parser),
{
    match parser.stack().top() {
        None => None,
        Some(StackElement::Index(i)) => Some(Frame::Index(i)),
        Some(StackElement::Key(name)) => Some(Frame::Key(name.to_string())),
    }
}

} // verus!
