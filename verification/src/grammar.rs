//! What a stream of parser steps means: where the value that starts at its front ends,
//! and which tree it builds.
//!
//! A value is one event, or an `ArrayStart` followed by values up to an `ArrayEnd`, or an
//! `ObjectStart` followed by values up to an `ObjectEnd`. An event that cannot start a
//! value and is found where one should start counts as a value of its own.

use crate::error::{ReadError, Violation};
use crate::event::{FrameView, Step, Token};
use crate::value::Tree;
use vstd::prelude::*;

verus! {

/// The tree of a value that is a single event: a scalar stands for itself, and any other
/// event that turns up in a value's place stands for null.
pub open spec fn scalar_tree(token: Token) -> Tree {
    match token {
        Token::Boolean(b) => Tree::Boolean(b),
        Token::I64(i) => Tree::I64(i),
        Token::U64(u) => Tree::U64(u),
        Token::F64(bits) => Tree::F64(bits),
        Token::String(s) => Tree::String(s),
        _ => Tree::Null,
    }
}

/// The steps that are left once the value that `first` started has been read from
/// `steps`; `None` if the steps end before the value does.
pub open spec fn after_value(first: Token, steps: Seq<Step>) -> Option<Seq<Step>>
    decreases steps.len(), 1nat,
{
    match first {
        Token::ArrayStart => after_elements(steps),
        Token::ObjectStart => after_fields(steps),
        _ => Some(steps),
    }
}

/// The steps that are left once the elements of an array and its `ArrayEnd` have been
/// read from `steps`.
pub open spec fn after_elements(steps: Seq<Step>) -> Option<Seq<Step>>
    decreases steps.len(), 0nat,
{
    if steps.len() == 0 {
        None
    } else if steps[0].token is ArrayEnd {
        Some(steps.skip(1))
    } else {
        match after_value(steps[0].token, steps.skip(1)) {
            Some(rest) => if rest.len() < steps.len() {
                after_elements(rest)
            } else {
                None
            },
            None => None,
        }
    }
}

/// The steps that are left once the fields of an object and its `ObjectEnd` have been
/// read from `steps`.
pub open spec fn after_fields(steps: Seq<Step>) -> Option<Seq<Step>>
    decreases steps.len(), 0nat,
{
    if steps.len() == 0 {
        None
    } else if steps[0].token is ObjectEnd {
        Some(steps.skip(1))
    } else {
        match after_value(steps[0].token, steps.skip(1)) {
            Some(rest) => if rest.len() < steps.len() {
                after_fields(rest)
            } else {
                None
            },
            None => None,
        }
    }
}

/// The tree of the value that `first` started, read from `steps`, and the steps left
/// after it. Arrays and objects may be nested `depth` deep, `first` counted.
pub open spec fn parse_value(first: Token, steps: Seq<Step>, depth: nat) -> Result<
    (Tree, Seq<Step>),
    ReadError,
>
    decreases steps.len(), 1nat,
{
    match first {
        Token::ArrayStart => if depth == 0 {
            Err(ReadError::ContractViolation(Violation::TooDeep))
        } else {
            match parse_elements(steps, (depth - 1) as nat, Seq::empty()) {
                Ok((items, rest)) => Ok((Tree::Array(items), rest)),
                Err(e) => Err(e),
            }
        },
        Token::ObjectStart => if depth == 0 {
            Err(ReadError::ContractViolation(Violation::TooDeep))
        } else {
            match parse_fields(steps, (depth - 1) as nat, Map::empty()) {
                Ok((fields, rest)) => Ok((Tree::Object(fields), rest)),
                Err(e) => Err(e),
            }
        },
        _ => Ok((scalar_tree(first), steps)),
    }
}

/// The elements of an array read from `steps` up to its `ArrayEnd`, put behind the
/// elements in `done`, and the steps left after the `ArrayEnd`. The elements may be
/// nested `depth` deep.
pub open spec fn parse_elements(steps: Seq<Step>, depth: nat, done: Seq<Tree>) -> Result<
    (Seq<Tree>, Seq<Step>),
    ReadError,
>
    decreases steps.len(), 0nat,
{
    if steps.len() == 0 {
        Err(ReadError::PrematureExhaustion)
    } else if steps[0].token is ArrayEnd {
        Ok((done, steps.skip(1)))
    } else {
        match parse_value(steps[0].token, steps.skip(1), depth) {
            Ok((item, rest)) => if rest.len() < steps.len() {
                parse_elements(rest, depth, done.push(item))
            } else {
                Err(ReadError::PrematureExhaustion)
            },
            Err(e) => Err(e),
        }
    }
}

/// The elements of an array that are read from `steps` before the reading ends, be it at
/// the `ArrayEnd` or at the first error, put behind the elements in `done`.
pub open spec fn elements_read(steps: Seq<Step>, depth: nat, done: Seq<Tree>) -> Seq<Tree>
    decreases steps.len(),
{
    if steps.len() == 0 || steps[0].token is ArrayEnd {
        done
    } else {
        match parse_value(steps[0].token, steps.skip(1), depth) {
            Ok((item, rest)) => if rest.len() < steps.len() {
                elements_read(rest, depth, done.push(item))
            } else {
                done
            },
            Err(_) => done,
        }
    }
}

/// The fields of an object read from `steps` up to its `ObjectEnd`, set one after another
/// in the map `done`, and the steps left after the `ObjectEnd`. Each field takes its name
/// from the frame of the step that starts its value. The values may be nested `depth`
/// deep.
pub open spec fn parse_fields(steps: Seq<Step>, depth: nat, done: Map<Seq<char>, Tree>) -> Result<
    (Map<Seq<char>, Tree>, Seq<Step>),
    ReadError,
>
    decreases steps.len(), 0nat,
{
    if steps.len() == 0 {
        Err(ReadError::PrematureExhaustion)
    } else if steps[0].token is ObjectEnd {
        Ok((done, steps.skip(1)))
    } else {
        match steps[0].frame {
            Some(FrameView::Key(name)) => match parse_value(steps[0].token, steps.skip(1), depth) {
                Ok((value, rest)) => if rest.len() < steps.len() {
                    parse_fields(rest, depth, done.insert(name, value))
                } else {
                    Err(ReadError::PrematureExhaustion)
                },
                Err(e) => Err(e),
            },
            _ => Err(ReadError::ContractViolation(Violation::MissingFieldName)),
        }
    }
}

/// Reading a value never lengthens the stream, so the test on the length in the
/// definitions above never fails.
pub proof fn lemma_after_value_shorter(first: Token, steps: Seq<Step>)
    ensures
        after_value(first, steps) matches Some(rest) ==> rest.len() <= steps.len(),
        after_elements(steps) matches Some(rest) ==> rest.len() < steps.len(),
        after_fields(steps) matches Some(rest) ==> rest.len() < steps.len(),
    decreases steps.len(),
{
    if steps.len() > 0 {
        lemma_after_value_shorter(steps[0].token, steps.skip(1));
        if let Some(rest) = after_value(steps[0].token, steps.skip(1)) {
            if rest.len() < steps.len() {
                lemma_after_value_shorter(first, rest);
            }
        }
    }
}

/// A value that can be built ends where its structure ends: the steps left after it are
/// those of [`after_value`].
pub proof fn lemma_parse_value_rest(first: Token, steps: Seq<Step>, depth: nat)
    ensures
        parse_value(first, steps, depth) matches Ok((_, rest)) ==> after_value(first, steps)
            == Some(rest) && rest.len() <= steps.len(),
    decreases steps.len(), 1nat,
{
    match first {
        Token::ArrayStart => {
            if depth > 0 {
                lemma_parse_elements_rest(steps, (depth - 1) as nat, Seq::empty());
            }
        },
        Token::ObjectStart => {
            if depth > 0 {
                lemma_parse_fields_rest(steps, (depth - 1) as nat, Map::empty());
            }
        },
        _ => {},
    }
}

/// The elements of an array that can be built end where the array's structure ends.
pub proof fn lemma_parse_elements_rest(steps: Seq<Step>, depth: nat, done: Seq<Tree>)
    ensures
        parse_elements(steps, depth, done) matches Ok((_, rest)) ==> after_elements(steps)
            == Some(rest) && rest.len() < steps.len(),
    decreases steps.len(), 0nat,
{
    if steps.len() > 0 && !(steps[0].token is ArrayEnd) {
        lemma_parse_value_rest(steps[0].token, steps.skip(1), depth);
        if let Ok((item, rest)) = parse_value(steps[0].token, steps.skip(1), depth) {
            if rest.len() < steps.len() {
                lemma_parse_elements_rest(rest, depth, done.push(item));
            }
        }
    }
}

/// Where an array can be built, the elements that are read are the array's.
pub proof fn lemma_elements_read_all(steps: Seq<Step>, depth: nat, done: Seq<Tree>)
    ensures
        parse_elements(steps, depth, done) matches Ok((items, _)) ==> elements_read(
            steps,
            depth,
            done,
        ) == items,
    decreases steps.len(),
{
    if steps.len() > 0 && !(steps[0].token is ArrayEnd) {
        if let Ok((item, rest)) = parse_value(steps[0].token, steps.skip(1), depth) {
            if rest.len() < steps.len() {
                lemma_elements_read_all(rest, depth, done.push(item));
            }
        }
    }
}

/// The fields of an object that can be built end where the object's structure ends.
pub proof fn lemma_parse_fields_rest(steps: Seq<Step>, depth: nat, done: Map<Seq<char>, Tree>)
    ensures
        parse_fields(steps, depth, done) matches Ok((_, rest)) ==> after_fields(steps) == Some(
            rest,
        ) && rest.len() < steps.len(),
    decreases steps.len(), 0nat,
{
    if steps.len() > 0 && !(steps[0].token is ObjectEnd) {
        if let Some(FrameView::Key(name)) = steps[0].frame {
            lemma_parse_value_rest(steps[0].token, steps.skip(1), depth);
            if let Ok((value, rest)) = parse_value(steps[0].token, steps.skip(1), depth) {
                if rest.len() < steps.len() {
                    lemma_parse_fields_rest(rest, depth, done.insert(name, value));
                }
            }
        }
    }
}

} // verus!
