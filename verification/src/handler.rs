//! Handlers: what a [`StreamReader`](crate::reader::StreamReader) hands the fields of an
//! object to, and the three handlers that come with the crate.

use crate::error::{ReadError, Violation};
use crate::event::{Event, Step, Token};
use crate::grammar::{
    after_value, elements_read, lemma_elements_read_all, lemma_parse_elements_rest,
    lemma_parse_value_rest, parse_elements, parse_value,
};
use crate::laws::law_collecting_visitor;
use crate::materialize::{read_value, DEFAULT_MAX_DEPTH};
use crate::source::{in_range, next_event, pending};
use crate::value::{lemma_trees_of_push, trees_of, Object, Tree, Value};
use rustc_serialize::json::Parser;
use std::str::Chars;
use vstd::prelude::*;

verus! {

/// Takes the value of one field off the parser.
///
/// `handle` is given the field's name, the first event of the field's value, which has
/// been pulled from the parser already, and the parser. Where it returns `Ok`, it has
/// read the field's value to its end and not one event more: the reader that called it
/// goes on with the next event as the start of the next field. Where it returns an
/// error, the traversal is given up.
pub trait Handler {
    /// What one call of `handle` does to the handler: whether a handler that is `self`,
    /// given a field called `key` whose value starts with `first` and goes on in `steps`,
    /// can return `result` and be `after` then. A handler that does not say lets this
    /// hold always.
    open spec fn handles(
        &self,
        key: Seq<char>,
        first: Token,
        steps: Seq<Step>,
        result: Result<(), ReadError>,
        after: &Self,
    ) -> bool {
        true
    }

    fn handle(&mut self, key: String, first: Event, parser: &mut Parser<Chars>) -> (result: Result<
        (),
        ReadError,
    >)
        requires
            in_range(*old(parser)),
        ensures
            in_range(*final(parser)),
            result is Ok ==> after_value(first@, pending(*old(parser))) == Some(
                pending(*final(parser)),
            ),
            old(self).handles(key@, first@, pending(*old(parser)), result, &*final(self)),
    ;
}

/// The handler that reads a value and drops it.
#[derive(Debug, Clone, Copy, PartialEq, Eq)]
pub struct DummyHandler;

impl Handler for DummyHandler {
    open spec fn handles(
        &self,
        key: Seq<char>,
        first: Token,
        steps: Seq<Step>,
        result: Result<(), ReadError>,
        after: &Self,
    ) -> bool {
        match parse_value(first, steps, DEFAULT_MAX_DEPTH as nat) {
            Ok(_) => result is Ok,
            Err(e) => result == Err::<(), ReadError>(e),
        }
    }

    fn handle(&mut self, key: String, first: Event, parser: &mut Parser<Chars>) -> (result: Result<
        (),
        ReadError,
    >)
        ensures
            parse_value(first@, pending(*old(parser)), DEFAULT_MAX_DEPTH as nat) matches Ok(
                (_, rest),
            ) ==> pending(*final(parser)) == rest,
    {
        proof {
            lemma_parse_value_rest(first@, pending(*parser), DEFAULT_MAX_DEPTH as nat);
        }
        match read_value(first, parser) {
            Ok(_) => Ok(()),
            Err(e) => Err(e),
        }
    }
}

/// A handler that reads the value it is given and drops it.
pub fn dummy_handler() -> (handler: DummyHandler)
    ensures
        handler == DummyHandler,
{
    DummyHandler
}

/// The handler that reads a value and sets the field of that name in an object that it
/// holds.
pub struct CopyHandler {
    pub target: Object,
}

impl Handler for CopyHandler {
    open spec fn handles(
        &self,
        key: Seq<char>,
        first: Token,
        steps: Seq<Step>,
        result: Result<(), ReadError>,
        after: &Self,
    ) -> bool {
        match parse_value(first, steps, DEFAULT_MAX_DEPTH as nat) {
            Ok((tree, _)) => result is Ok && after.target@ == self.target@.insert(key, tree),
            Err(e) => result == Err::<(), ReadError>(e) && after.target@ == self.target@,
        }
    }

    fn handle(&mut self, key: String, first: Event, parser: &mut Parser<Chars>) -> (result: Result<
        (),
        ReadError,
    >)
        ensures
            parse_value(first@, pending(*old(parser)), DEFAULT_MAX_DEPTH as nat) matches Ok(
                (_, rest),
            ) ==> pending(*final(parser)) == rest,
    {
        proof {
            lemma_parse_value_rest(first@, pending(*parser), DEFAULT_MAX_DEPTH as nat);
        }
        match read_value(first, parser) {
            Ok(value) => {
                self.target.insert(key, value);
                Ok(())
            },
            Err(e) => Err(e),
        }
    }
}

/// A handler that reads every value it is given and sets the field of that name in
/// `target`, which it keeps.
pub fn copy_handler(target: Object) -> (handler: CopyHandler)
    ensures
        handler.target == target,
{
    CopyHandler { target }
}

/// What an [`ArrayHandler`] shows the elements of an array to, one after another.
pub trait Visitor {
    /// What one call of `visit` does: whether it can take a visitor that is `self` and is
    /// shown `item` to `after`. A visitor that does not say lets this hold always.
    open spec fn visits(&self, item: Tree, after: &Self) -> bool {
        true
    }

    fn visit(&mut self, item: Value)
        ensures
            old(self).visits(item@, &*final(self)),
    ;
}

/// A vector of values is a visitor that keeps each element it is shown, behind those it
/// holds already.
impl Visitor for Vec<Value> {
    open spec fn visits(&self, item: Tree, after: &Self) -> bool {
        trees_of(after@) == trees_of(self@).push(item)
    }

    fn visit(&mut self, item: Value) {
        proof {
            lemma_trees_of_push(self@, item);
        }
        self.push(item);
    }
}

/// Whether showing `items` one after another can take a visitor from `before` to `after`.
pub open spec fn visits_all<V: Visitor>(before: V, items: Seq<Tree>, after: V) -> bool
    decreases items.len(),
{
    if items.len() == 0 {
        after == before
    } else {
        exists|between: V|
            visits_all(before, items.drop_last(), between) && #[trigger] between.visits(
                items.last(),
                &after,
            )
    }
}

/// The handler that reads an array and shows each of its elements to a visitor. Where
/// the reading fails, the visitor has been shown the elements that came before.
pub struct ArrayHandler<V: Visitor> {
    pub visitor: V,
}

impl<V: Visitor> Handler for ArrayHandler<V> {
    open spec fn handles(
        &self,
        key: Seq<char>,
        first: Token,
        steps: Seq<Step>,
        result: Result<(), ReadError>,
        after: &Self,
    ) -> bool {
        if first is ArrayStart {
            &&& match parse_elements(steps, DEFAULT_MAX_DEPTH as nat, Seq::empty()) {
                Ok(_) => result is Ok,
                Err(e) => result == Err::<(), ReadError>(e),
            }
            &&& visits_all(
                self.visitor,
                elements_read(steps, DEFAULT_MAX_DEPTH as nat, Seq::empty()),
                after.visitor,
            )
        } else {
            result == Err::<(), ReadError>(ReadError::ContractViolation(Violation::NotAnArray))
                && after.visitor == self.visitor
        }
    }

    fn handle(&mut self, key: String, first: Event, parser: &mut Parser<Chars>) -> (result: Result<
        (),
        ReadError,
    >)
        ensures
            !(first@ is ArrayStart) ==> pending(*final(parser)) == pending(*old(parser)),
            first@ is ArrayStart ==> (parse_elements(
                pending(*old(parser)),
                DEFAULT_MAX_DEPTH as nat,
                Seq::empty(),
            ) matches Ok((_, rest)) ==> pending(*final(parser)) == rest),
    {
        match first {
            Event::ArrayStart => {},
            _ => {
                return Err(ReadError::ContractViolation(Violation::NotAnArray));
            },
        }
        let ghost shown: Seq<Tree> = Seq::empty();
        loop
            invariant
                first@ is ArrayStart,
                in_range(*parser),
                parse_elements(pending(*parser), DEFAULT_MAX_DEPTH as nat, shown)
                    == parse_elements(
                    pending(*old(parser)),
                    DEFAULT_MAX_DEPTH as nat,
                    Seq::empty(),
                ),
                elements_read(pending(*parser), DEFAULT_MAX_DEPTH as nat, shown)
                    == elements_read(
                    pending(*old(parser)),
                    DEFAULT_MAX_DEPTH as nat,
                    Seq::empty(),
                ),
                visits_all(old(self).visitor, shown, self.visitor),
            decreases pending(*parser).len(),
        {
            let ghost steps = pending(*parser);
            match next_event(parser) {
                None => {
                    return Err(ReadError::PrematureExhaustion);
                },
                Some(Event::ArrayEnd) => {
                    proof {
                        lemma_parse_elements_rest(
                            pending(*old(parser)),
                            DEFAULT_MAX_DEPTH as nat,
                            Seq::empty(),
                        );
                    }
                    return Ok(());
                },
                Some(element) => {
                    proof {
                        lemma_parse_value_rest(
                            element@,
                            steps.skip(1),
                            DEFAULT_MAX_DEPTH as nat,
                        );
                    }
                    match read_value(element, parser) {
                        Ok(item) => {
                            let ghost between = self.visitor;
                            self.visitor.visit(item);
                            proof {
                                assert(shown.push(item@).drop_last() == shown);
                                assert(between.visits(shown.push(item@).last(), &self.visitor));
                                shown = shown.push(item@);
                            }
                        },
                        Err(e) => {
                            return Err(e);
                        },
                    }
                },
            }
        }
    }
}

/// A handler that reads arrays only, and shows each element of the array it is given to
/// `visitor`, in order.
pub fn array_handler<V: Visitor>(visitor: V) -> (handler: ArrayHandler<V>)
    ensures
        handler.visitor == visitor,
{
    ArrayHandler { visitor }
}

/// Reads the elements of an array up to the `ArrayEnd` that closes it, each nested no
/// deeper than [`DEFAULT_MAX_DEPTH`], and leaves the parser right behind that. The
/// `ArrayStart` has been pulled from the parser already.
///
/// The elements are gathered by an array handler that shows them to a vector.
pub fn read_array(parser: &mut Parser<Chars>) -> (result: Result<Vec<Value>, ReadError>)
    requires
        in_range(*old(parser)),
    ensures
        in_range(*final(parser)),
        match parse_elements(pending(*old(parser)), DEFAULT_MAX_DEPTH as nat, Seq::empty()) {
            Ok((items, rest)) => result matches Ok(values) && trees_of(values@) == items
                && pending(*final(parser)) == rest,
            Err(e) => result == Err::<Vec<Value>, ReadError>(e),
        },
{
    let mut handler = array_handler(Vec::new());
    let ghost empty = handler.visitor;
    let ghost steps = pending(*parser);
    match handler.handle(String::new(), Event::ArrayStart, parser) {
        Ok(()) => {
            proof {
                let items = parse_elements(steps, DEFAULT_MAX_DEPTH as nat, Seq::empty())->Ok_0.0;
                lemma_elements_read_all(steps, DEFAULT_MAX_DEPTH as nat, Seq::empty());
                law_collecting_visitor(empty, items, handler.visitor);
                lemma_trees_of_push(empty@, Value::Null);
                assert(Seq::<Tree>::empty() + items == items);
            }
            Ok(handler.visitor)
        },
        Err(e) => Err(e),
    }
}

} // verus!
