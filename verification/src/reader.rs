//! The reader that walks the body of an object and hands each field to its handler.

use crate::error::{ReadError, Violation};
use crate::event::{field_name, Event, Frame, FrameView, Step, Token};
use crate::grammar::{
    after_fields, after_value, lemma_after_value_shorter, lemma_parse_fields_rest, parse_fields,
};
use crate::handler::{copy_handler, dummy_handler, DummyHandler, Handler};
use crate::laws::law_copying_reader;
use crate::materialize::DEFAULT_MAX_DEPTH;
use crate::source::{current_context, in_range, next_event, pending};
use crate::value::Object;
use rustc_serialize::json::Parser;
use std::str::Chars;
use vstd::prelude::*;

verus! {

/// Reads the body of an object from the parser and calls a handler on each field: the one
/// that was set for the field's name, or else the default handler.
///
/// The handlers set for names are of one type, `H`, and the default handler of another,
/// `D`. Both fields are open: after a traversal the handlers are taken out of them, with
/// what they have gathered.
pub struct StreamReader<H: Handler, D: Handler> {
    /// The handlers set for names, in the order in which the names first came. Where a
    /// name stands twice, the first one counts.
    pub handlers: Vec<(String, H)>,
    /// The handler for the fields that have no handler of their own.
    pub default_handler: D,
}

/// Whether `at` is the first place in `handlers` that holds `name`.
pub open spec fn first_named<H>(handlers: Seq<(String, H)>, name: Seq<char>, at: int) -> bool {
    &&& 0 <= at < handlers.len()
    &&& handlers[at].0@ == name
    &&& forall|before: int| 0 <= before < at ==> (#[trigger] handlers[before]).0@ != name
}

/// Where in `handlers` the handler for a field called `name` stands; `None` where none
/// has been set, so that the field goes to the default handler.
pub open spec fn route<H>(handlers: Seq<(String, H)>, name: Seq<char>) -> Option<int> {
    if exists|at: int| first_named(handlers, name, at) {
        Some(choose|at: int| first_named(handlers, name, at))
    } else {
        None
    }
}

/// The handler that has been set for `name`, if any.
pub open spec fn named<H>(handlers: Seq<(String, H)>, name: Seq<char>) -> Option<H> {
    match route(handlers, name) {
        Some(at) => Some(handlers[at].1),
        None => None,
    }
}

impl<H: Handler> StreamReader<H, DummyHandler> {
    /// A reader with no handler set for any name, whose default handler reads a field's
    /// value and drops it.
    pub fn new() -> (reader: Self)
        ensures
            reader.handlers@.len() == 0,
            reader.default_handler == DummyHandler,
    {
        StreamReader { handlers: Vec::new(), default_handler: dummy_handler() }
    }
}

impl<H: Handler, D: Handler> StreamReader<H, D> {
    /// The same reader with `handler` for the fields that have no handler of their own.
    pub fn set_default_handler<E: Handler>(self, handler: E) -> (reader: StreamReader<H, E>)
        ensures
            reader.handlers == self.handlers,
            reader.default_handler == handler,
    {
        StreamReader { handlers: self.handlers, default_handler: handler }
    }

    /// Where the handler for `name` stands, if one has been set.
    fn position(&self, name: &String) -> (found: Option<usize>)
        ensures
            match found {
                Some(at) => first_named(self.handlers@, name@, at as int),
                None => forall|at: int|
                    0 <= at < self.handlers@.len() ==> (#[trigger] self.handlers@[at]).0@
                        != name@,
            },
            found matches Some(at) ==> route(self.handlers@, name@) == Some(at as int),
            found is None ==> route(self.handlers@, name@) is None,
    {
        let mut at: usize = 0;
        while at < self.handlers.len()
            invariant
                at <= self.handlers@.len(),
                forall|before: int|
                    0 <= before < at ==> (#[trigger] self.handlers@[before]).0@ != name@,
            decreases self.handlers@.len() - at,
        {
            if self.handlers[at].0 == *name {
                assert(first_named(self.handlers@, name@, at as int));
                return Some(at);
            }
            at = at + 1;
        }
        None
    }

    /// Sets the handler for the fields called `name`: in the place of the one that was set
    /// for that name before, or else behind the handlers that are there. The handlers for
    /// other names, and the default handler, stay.
    pub fn set_handler(&mut self, name: String, handler: H)
        ensures
            final(self).handlers@ == match route(old(self).handlers@, name@) {
                Some(at) => old(self).handlers@.update(at, (name, handler)),
                None => old(self).handlers@.push((name, handler)),
            },
            named(final(self).handlers@, name@) == Some(handler),
            forall|other: Seq<char>|
                other != name@ ==> #[trigger] named(final(self).handlers@, other) == named(
                    old(self).handlers@,
                    other,
                ),
            final(self).default_handler == old(self).default_handler,
    {
        let ghost before = self.handlers@;
        let ghost wanted = name@;
        let found = self.position(&name);
        match found {
            Some(at) => {
                self.handlers.set(at, (name, handler));
            },
            None => {
                self.handlers.push((name, handler));
            },
        }
        proof {
            let after = self.handlers@;
            let place = match found {
                Some(at) => at as int,
                None => before.len() as int,
            };
            assert forall|at: int| 0 <= at < before.len() implies (#[trigger] after[at]).0@
                == before[at].0@ by {}
            assert forall|at: int| 0 <= at < before.len() implies (#[trigger] before[at]).0@
                == after[at].0@ by {}
            assert(first_named(after, wanted, place));
            assert forall|other: Seq<char>| other != wanted implies #[trigger] named(after, other)
                == named(before, other) by {
                assert forall|at: int| first_named(before, other, at) <==> first_named(
                    after,
                    other,
                    at,
                ) by {
                    if first_named(before, other, at) {
                        assert(first_named(after, other, at));
                    }
                    if first_named(after, other, at) {
                        assert(at < before.len());
                        assert(first_named(before, other, at));
                    }
                }
                if let Some(at) = route(before, other) {
                    assert(first_named(after, other, at));
                }
            }
        }
    }

    /// What [`dispatch`](Self::dispatch) does to the reader: the handler that a field
    /// called `key` goes to handles the field, and the other handlers stay as they are.
    pub open spec fn dispatches(
        &self,
        key: Seq<char>,
        first: Token,
        steps: Seq<Step>,
        result: Result<(), ReadError>,
        after: &Self,
    ) -> bool {
        match route(self.handlers@, key) {
            Some(at) => {
                &&& after.handlers@.len() == self.handlers@.len()
                &&& forall|other: int|
                    0 <= other < self.handlers@.len() && other != at
                        ==> #[trigger] after.handlers@[other] == self.handlers@[other]
                &&& after.handlers@[at].0 == self.handlers@[at].0
                &&& self.handlers@[at].1.handles(key, first, steps, result, &after.handlers@[at].1)
                &&& after.default_handler == self.default_handler
            },
            None => {
                &&& after.handlers@ == self.handlers@
                &&& self.default_handler.handles(key, first, steps, result, &after.default_handler)
            },
        }
    }

    /// Calls the handler that a field called `key` goes to, on that field's value.
    pub fn dispatch(&mut self, key: String, first: Event, parser: &mut Parser<Chars>) -> (result:
        Result<(), ReadError>)
        requires
            in_range(*old(parser)),
        ensures
            in_range(*final(parser)),
            result is Ok ==> after_value(first@, pending(*old(parser))) == Some(
                pending(*final(parser)),
            ),
            old(self).dispatches(key@, first@, pending(*old(parser)), result, &*final(self)),
    {
        match self.position(&key) {
            Some(at) => self.handlers[at].1.handle(key, first, parser),
            None => self.default_handler.handle(key, first, parser),
        }
    }

    /// What [`read_object`](Self::read_object) does to the reader: whether a reader that
    /// is `self`, reading the body of an object from `steps`, can return `result` and be
    /// `after` then.
    ///
    /// The fields are dispatched in the order in which they come, each under the name
    /// that the frame of its first step shows. The first error ends the traversal: the
    /// end of the steps, a field without a name, or what a handler returned.
    pub open spec fn reads(
        &self,
        steps: Seq<Step>,
        result: Result<(), ReadError>,
        after: &Self,
    ) -> bool
        decreases steps.len(),
    {
        if steps.len() == 0 {
            result == Err::<(), ReadError>(ReadError::PrematureExhaustion) && self.same(after)
        } else if steps[0].token is ObjectEnd {
            result is Ok && self.same(after)
        } else {
            match steps[0].frame {
                Some(FrameView::Key(_)) => {
                    ||| result is Err && self.dispatches(
                        field_name(steps[0].frame),
                        steps[0].token,
                        steps.skip(1),
                        result,
                        after,
                    )
                    ||| exists|outcome: Result<(), ReadError>, between: Self|
                        {
                            &&& outcome is Ok
                            &&& #[trigger] self.dispatches(
                                field_name(steps[0].frame),
                                steps[0].token,
                                steps.skip(1),
                                outcome,
                                &between,
                            )
                            &&& match after_value(steps[0].token, steps.skip(1)) {
                                Some(rest) => rest.len() < steps.len() && between.reads(
                                    rest,
                                    result,
                                    after,
                                ),
                                None => false,
                            }
                        }
                },
                _ => result == Err::<(), ReadError>(
                    ReadError::ContractViolation(Violation::MissingFieldName),
                ) && self.same(after),
            }
        }
    }

    /// A traversal that dispatches its first field with success goes on as the traversal
    /// of the fields after it.
    proof fn lemma_reads_on(
        &self,
        steps: Seq<Step>,
        key: Seq<char>,
        outcome: Result<(), ReadError>,
        between: &Self,
        rest: Seq<Step>,
        result: Result<(), ReadError>,
        after: &Self,
    )
        requires
            steps.len() > 0,
            !(steps[0].token is ObjectEnd),
            steps[0].frame == Some(FrameView::Key(key)),
            outcome is Ok,
            self.dispatches(key, steps[0].token, steps.skip(1), outcome, between),
            after_value(steps[0].token, steps.skip(1)) == Some(rest),
            rest.len() < steps.len(),
            between.reads(rest, result, after),
        ensures
            self.reads(steps, result, after),
    {
        assert(field_name(steps[0].frame) == key);
    }

    /// Whether two readers hold the same handlers under the same names.
    pub open spec fn same(&self, other: &Self) -> bool {
        self.handlers@ == other.handlers@ && self.default_handler == other.default_handler
    }

    /// Reads the body of an object up to the `ObjectEnd` that closes it, and calls on each
    /// field the handler that the field's name goes to. The `ObjectStart` has been pulled
    /// from the parser already.
    ///
    /// Where the reader succeeds, it leaves the parser right behind the object's
    /// `ObjectEnd`.
    pub fn read_object(&mut self, parser: &mut Parser<Chars>) -> (result: Result<(), ReadError>)
        requires
            in_range(*old(parser)),
        ensures
            in_range(*final(parser)),
            result is Ok ==> after_fields(pending(*old(parser))) == Some(pending(*final(parser))),
            old(self).reads(pending(*old(parser)), result, &*final(self)),
    {
        loop
            invariant
                in_range(*parser),
                after_fields(pending(*parser)) == after_fields(pending(*old(parser))),
                forall|result: Result<(), ReadError>, after: Self| #[trigger]
                    self.reads(pending(*parser), result, &after) ==> old(self).reads(
                        pending(*old(parser)),
                        result,
                        &after,
                    ),
            decreases pending(*parser).len(),
        {
            let ghost steps = pending(*parser);
            let ghost before = *self;
            match next_event(parser) {
                None => {
                    assert(before.reads(steps, Err(ReadError::PrematureExhaustion), &*self));
                    return Err(ReadError::PrematureExhaustion);
                },
                Some(Event::ObjectEnd) => {
                    assert(before.reads(steps, Ok(()), &*self));
                    return Ok(());
                },
                Some(first) => {
                    let key = match current_context(parser) {
                        Some(Frame::Key(name)) => name,
                        _ => {
                            assert(before.reads(
                                steps,
                                Err(ReadError::ContractViolation(Violation::MissingFieldName)),
                                &*self,
                            ));
                            return Err(ReadError::ContractViolation(Violation::MissingFieldName));
                        },
                    };
                    proof {
                        lemma_after_value_shorter(first@, steps.skip(1));
                    }
                    let ghost name = key@;
                    let ghost token = first@;
                    let outcome = self.dispatch(key, first, parser);
                    let ghost between = *self;
                    assert(before.dispatches(name, token, steps.skip(1), outcome, &between));
                    match outcome {
                        Ok(()) => {
                            proof {
                                let rest = pending(*parser);
                                assert forall|result: Result<(), ReadError>, after: Self| #[trigger]
                                    between.reads(rest, result, &after) implies before.reads(
                                    steps,
                                    result,
                                    &after,
                                ) by {
                                    before.lemma_reads_on(
                                        steps,
                                        name,
                                        outcome,
                                        &between,
                                        rest,
                                        result,
                                        &after,
                                    );
                                }
                            }
                        },
                        Err(e) => {
                            assert(before.reads(steps, Err(e), &*self));
                            return Err(e);
                        },
                    }
                },
            }
        }
    }
}

/// Reads the fields of an object up to the `ObjectEnd` that closes it, each value nested
/// no deeper than [`DEFAULT_MAX_DEPTH`], and leaves the parser right behind that. The
/// `ObjectStart` has been pulled from the parser already. A field that comes twice keeps
/// its last value.
///
/// The fields are gathered by a reader that has no handler for any name and copies by
/// default.
pub fn read_object(parser: &mut Parser<Chars>) -> (result: Result<Object, ReadError>)
    requires
        in_range(*old(parser)),
    ensures
        in_range(*final(parser)),
        match parse_fields(pending(*old(parser)), DEFAULT_MAX_DEPTH as nat, Map::empty()) {
            Ok((fields, rest)) => result matches Ok(object) && object@ == fields && pending(
                *final(parser),
            ) == rest,
            Err(e) => result == Err::<Object, ReadError>(e),
        },
{
    let reader: StreamReader<DummyHandler, DummyHandler> = StreamReader::new();
    let mut reader = reader.set_default_handler(copy_handler(Object::new()));
    let ghost before = reader;
    let ghost steps = pending(*parser);
    let outcome = reader.read_object(parser);
    proof {
        law_copying_reader(before, steps, outcome, reader);
        lemma_parse_fields_rest(steps, DEFAULT_MAX_DEPTH as nat, Map::empty());
    }
    match outcome {
        Ok(()) => Ok(reader.default_handler.target),
        Err(e) => Err(e),
    }
}

} // verus!
