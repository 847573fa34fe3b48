//! Building a value in memory from the events of the parser.

use crate::error::{ReadError, Violation};
use crate::event::{Event, Frame};
use crate::grammar::{lemma_parse_value_rest, parse_elements, parse_fields, parse_value};
use crate::source::{current_context, in_range, next_event, pending};
use crate::value::{lemma_trees_of_push, trees_of, Object, Value};
use rustc_serialize::json::Parser;
use std::str::Chars;
use vstd::prelude::*;

verus! {

/// How deep arrays and objects may be nested in a value that is read without a limit of
/// the caller's own.
pub const DEFAULT_MAX_DEPTH: usize = 128;

/// Reads the value that `first` started, and leaves the parser right behind it. `first`
/// has been pulled from the parser already.
///
/// A scalar is that value, with nothing more read. An array or an object is read up to
/// the end that closes it. An event that starts no value gives null, with nothing more
/// read. Arrays and objects may be nested `max_depth` deep, the one that `first` starts
/// counted; what goes deeper is refused.
pub fn read_value_within(first: Event, parser: &mut Parser<Chars>, max_depth: usize) -> (result:
    Result<Value, ReadError>)
    requires
        in_range(*old(parser)),
    ensures
        in_range(*final(parser)),
        match parse_value(first@, pending(*old(parser)), max_depth as nat) {
            Ok((tree, rest)) => result matches Ok(value) && value@ == tree && pending(
                *final(parser),
            ) == rest,
            Err(e) => result == Err::<Value, ReadError>(e),
        },
    decreases pending(*old(parser)).len(), 1nat,
{
    match first {
        Event::ArrayStart => {
            if max_depth == 0 {
                return Err(ReadError::ContractViolation(Violation::TooDeep));
            }
            match read_array_within(parser, max_depth - 1) {
                Ok(items) => Ok(Value::Array(items)),
                Err(e) => Err(e),
            }
        },
        Event::ObjectStart => {
            if max_depth == 0 {
                return Err(ReadError::ContractViolation(Violation::TooDeep));
            }
            match read_object_within(parser, max_depth - 1) {
                Ok(object) => Ok(Value::Object(object)),
                Err(e) => Err(e),
            }
        },
        Event::BooleanValue(b) => Ok(Value::Boolean(b)),
        Event::I64Value(i) => Ok(Value::I64(i)),
        Event::U64Value(u) => Ok(Value::U64(u)),
        Event::F64Value(bits) => Ok(Value::F64(bits)),
        Event::StringValue(s) => Ok(Value::String(s)),
        Event::NullValue => Ok(Value::Null),
        Event::ObjectEnd => Ok(Value::Null),
        Event::ArrayEnd => Ok(Value::Null),
        Event::Error(_) => Ok(Value::Null),
    }
}

/// Reads the elements of an array up to the `ArrayEnd` that closes it, and leaves the
/// parser right behind that. The `ArrayStart` has been pulled from the parser already.
/// The elements may be nested `max_depth` deep.
pub fn read_array_within(parser: &mut Parser<Chars>, max_depth: usize) -> (result: Result<
    Vec<Value>,
    ReadError,
>)
    requires
        in_range(*old(parser)),
    ensures
        in_range(*final(parser)),
        match parse_elements(pending(*old(parser)), max_depth as nat, Seq::empty()) {
            Ok((items, rest)) => result matches Ok(values) && trees_of(values@) == items
                && pending(*final(parser)) == rest,
            Err(e) => result == Err::<Vec<Value>, ReadError>(e),
        },
    decreases pending(*old(parser)).len(), 0nat,
{
    let mut values: Vec<Value> = Vec::new();
    proof {
        lemma_trees_of_push(values@, Value::Null);
    }
    loop
        invariant
            in_range(*parser),
            pending(*parser).len() <= pending(*old(parser)).len(),
            parse_elements(pending(*parser), max_depth as nat, trees_of(values@))
                == parse_elements(pending(*old(parser)), max_depth as nat, Seq::empty()),
        decreases pending(*parser).len(),
    {
        let ghost steps = pending(*parser);
        match next_event(parser) {
            None => {
                return Err(ReadError::PrematureExhaustion);
            },
            Some(Event::ArrayEnd) => {
                return Ok(values);
            },
            Some(first) => {
                proof {
                    lemma_parse_value_rest(first@, steps.skip(1), max_depth as nat);
                }
                match read_value_within(first, parser, max_depth) {
                    Ok(item) => {
                        proof {
                            lemma_trees_of_push(values@, item);
                        }
                        values.push(item);
                    },
                    Err(e) => {
                        return Err(e);
                    },
                }
            },
        }
    }
}

/// Reads the fields of an object up to the `ObjectEnd` that closes it, and leaves the
/// parser right behind that. The `ObjectStart` has been pulled from the parser already.
/// A field that comes twice keeps its last value. The values may be nested `max_depth`
/// deep.
pub fn read_object_within(parser: &mut Parser<Chars>, max_depth: usize) -> (result: Result<
    Object,
    ReadError,
>)
    requires
        in_range(*old(parser)),
    ensures
        in_range(*final(parser)),
        match parse_fields(pending(*old(parser)), max_depth as nat, Map::empty()) {
            Ok((fields, rest)) => result matches Ok(object) && object@ == fields && pending(
                *final(parser),
            ) == rest,
            Err(e) => result == Err::<Object, ReadError>(e),
        },
    decreases pending(*old(parser)).len(), 0nat,
{
    let mut object = Object::new();
    loop
        invariant
            in_range(*parser),
            pending(*parser).len() <= pending(*old(parser)).len(),
            parse_fields(pending(*parser), max_depth as nat, object@) == parse_fields(
                pending(*old(parser)),
                max_depth as nat,
                Map::empty(),
            ),
        decreases pending(*parser).len(),
    {
        let ghost steps = pending(*parser);
        match next_event(parser) {
            None => {
                return Err(ReadError::PrematureExhaustion);
            },
            Some(Event::ObjectEnd) => {
                return Ok(object);
            },
            Some(first) => {
                let name = match current_context(parser) {
                    Some(Frame::Key(name)) => name,
                    _ => {
                        return Err(ReadError::ContractViolation(Violation::MissingFieldName));
                    },
                };
                proof {
                    lemma_parse_value_rest(first@, steps.skip(1), max_depth as nat);
                }
                match read_value_within(first, parser, max_depth) {
                    Ok(value) => {
                        object.insert(name, value);
                    },
                    Err(e) => {
                        return Err(e);
                    },
                }
            },
        }
    }
}

/// Reads the value that `first` started, nested no deeper than [`DEFAULT_MAX_DEPTH`].
pub fn read_value(first: Event, parser: &mut Parser<Chars>) -> (result: Result<Value, ReadError>)
    requires
        in_range(*old(parser)),
    ensures
        in_range(*final(parser)),
        match parse_value(first@, pending(*old(parser)), DEFAULT_MAX_DEPTH as nat) {
            Ok((tree, rest)) => result matches Ok(value) && value@ == tree && pending(
                *final(parser),
            ) == rest,
            Err(e) => result == Err::<Value, ReadError>(e),
        },
{
    read_value_within(first, parser, DEFAULT_MAX_DEPTH)
}

} // verus!
