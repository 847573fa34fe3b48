//! What holds of the reader, its handlers and the grammar together.

use crate::document::{
    document_depth, document_tail, document_tree, fields_depth, fields_steps, fields_trees,
    first_token, items_depth, items_steps, items_trees, Document,
};
use crate::error::ReadError;
use crate::event::{field_name, starts_value, FrameView, Step, Token};
use crate::grammar::{
    after_fields, after_value, lemma_after_value_shorter, lemma_parse_elements_rest,
    lemma_parse_fields_rest, lemma_parse_value_rest, parse_elements, parse_fields, parse_value,
};
use crate::handler::{visits_all, CopyHandler, Handler, Visitor};
use crate::materialize::DEFAULT_MAX_DEPTH;
use crate::reader::StreamReader;
use crate::value::{trees_of, Tree, Value};
use vstd::prelude::*;

verus! {

/// Reading gives back what was written: where the steps of a document stand in front of
/// the steps `more`, and the document is nested no deeper than `depth`, the value that
/// is read after the document's first event is the document's value, and the steps left
/// are `more`.
pub proof fn law_round_trip(
    document: Document,
    frame: Option<FrameView>,
    more: Seq<Step>,
    depth: nat,
)
    requires
        document_depth(document) <= depth,
    ensures
        parse_value(first_token(document), document_tail(document, frame) + more, depth) == Ok::<
            (Tree, Seq<Step>),
            ReadError,
        >((document_tree(document), more)),
    decreases document,
{
    match document {
        Document::Array(items) => {
            let end = seq![Step { token: Token::ArrayEnd, frame }];
            lemma_items_round_trip(items, 0, end + more, (depth - 1) as nat, Seq::empty());
            assert(document_tail(document, frame) + more == items_steps(items, 0) + (end + more));
            assert((end + more).skip(1) == more);
        },
        Document::Object(fields) => {
            let end = seq![Step { token: Token::ObjectEnd, frame }];
            lemma_fields_round_trip(fields, end + more, (depth - 1) as nat, Map::empty());
            assert(document_tail(document, frame) + more == fields_steps(fields) + (end + more));
            assert((end + more).skip(1) == more);
        },
        _ => {
            assert(document_tail(document, frame) + more == more);
        },
    }
}

/// What stands in front of a run of sequences is its first element, and the rest follows.
proof fn lemma_front<T>(first: T, a: Seq<T>, b: Seq<T>, c: Seq<T>)
    ensures
        (seq![first] + a + b + c).len() > 0,
        (seq![first] + a + b + c)[0] == first,
        (seq![first] + a + b + c).skip(1) == a + (b + c),
{
    assert((seq![first] + a + b + c).skip(1) =~= a + (b + c));
}

/// The elements of a written array are read back in their order, up to the end that
/// follows them.
proof fn lemma_items_round_trip(
    items: Seq<Document>,
    at: nat,
    more: Seq<Step>,
    depth: nat,
    done: Seq<Tree>,
)
    requires
        items_depth(items) <= depth,
        more.len() > 0,
        more[0].token is ArrayEnd,
    ensures
        parse_elements(items_steps(items, at) + more, depth, done) == Ok::<
            (Seq<Tree>, Seq<Step>),
            ReadError,
        >((items_trees(items, done), more.skip(1))),
    decreases items,
{
    let steps = items_steps(items, at) + more;
    if items.len() == 0 {
        assert(steps == more);
    } else {
        let frame = Some(FrameView::Index(at as u32));
        let tail = document_tail(items[0], frame);
        let rest = items_steps(items.skip(1), at + 1) + more;
        lemma_front(
            Step { token: first_token(items[0]), frame },
            tail,
            items_steps(items.skip(1), at + 1),
            more,
        );
        law_round_trip(items[0], frame, rest, depth);
        lemma_items_round_trip(
            items.skip(1),
            at + 1,
            more,
            depth,
            done.push(document_tree(items[0])),
        );
    }
}

/// The fields of a written object are read back in their order, each under its name, up
/// to the end that follows them.
proof fn lemma_fields_round_trip(
    fields: Seq<(Seq<char>, Document)>,
    more: Seq<Step>,
    depth: nat,
    done: Map<Seq<char>, Tree>,
)
    requires
        fields_depth(fields) <= depth,
        more.len() > 0,
        more[0].token is ObjectEnd,
    ensures
        parse_fields(fields_steps(fields) + more, depth, done) == Ok::<
            (Map<Seq<char>, Tree>, Seq<Step>),
            ReadError,
        >((fields_trees(fields, done), more.skip(1))),
    decreases fields,
{
    let steps = fields_steps(fields) + more;
    if fields.len() == 0 {
        assert(steps == more);
    } else {
        let frame = Some(FrameView::Key(fields[0].0));
        let tail = document_tail(fields[0].1, frame);
        let rest = fields_steps(fields.skip(1)) + more;
        lemma_front(
            Step { token: first_token(fields[0].1), frame },
            tail,
            fields_steps(fields.skip(1)),
            more,
        );
        law_round_trip(fields[0].1, frame, rest, depth);
        lemma_fields_round_trip(
            fields.skip(1),
            more,
            depth,
            done.insert(fields[0].0, document_tree(fields[0].1)),
        );
    }
}

/// A value that can be read from `steps` can be read from any part of `steps` that
/// holds all of it, with the same result.
proof fn lemma_enough_for_value(first: Token, steps: Seq<Step>, depth: nat, k: int)
    requires
        parse_value(first, steps, depth) is Ok,
        steps.len() - parse_value(first, steps, depth)->Ok_0.1.len() <= k <= steps.len(),
    ensures
        ({
            let (tree, rest) = parse_value(first, steps, depth)->Ok_0;
            parse_value(first, steps.take(k), depth) == Ok::<(Tree, Seq<Step>), ReadError>(
                (tree, rest.take(k - (steps.len() - rest.len()))),
            )
        }),
    decreases steps.len(), 1nat,
{
    match first {
        Token::ArrayStart => {
            lemma_enough_for_elements(steps, (depth - 1) as nat, Seq::empty(), k);
        },
        Token::ObjectStart => {
            lemma_enough_for_fields(steps, (depth - 1) as nat, Map::empty(), k);
        },
        _ => {
            assert(steps.take(k - 0) == steps.take(k));
        },
    }
}

proof fn lemma_enough_for_elements(steps: Seq<Step>, depth: nat, done: Seq<Tree>, k: int)
    requires
        parse_elements(steps, depth, done) is Ok,
        steps.len() - parse_elements(steps, depth, done)->Ok_0.1.len() <= k <= steps.len(),
    ensures
        ({
            let (items, rest) = parse_elements(steps, depth, done)->Ok_0;
            parse_elements(steps.take(k), depth, done) == Ok::<(Seq<Tree>, Seq<Step>), ReadError>(
                (items, rest.take(k - (steps.len() - rest.len()))),
            )
        }),
    decreases steps.len(), 0nat,
{
    let cut = steps.take(k);
    lemma_parse_elements_rest(steps, depth, done);
    assert(cut.skip(1) == steps.skip(1).take(k - 1));
    if !(steps[0].token is ArrayEnd) {
        let (item, after_item) = parse_value(steps[0].token, steps.skip(1), depth)->Ok_0;
        lemma_parse_value_rest(steps[0].token, steps.skip(1), depth);
        lemma_parse_elements_rest(after_item, depth, done.push(item));
        lemma_enough_for_value(steps[0].token, steps.skip(1), depth, k - 1);
        let taken = steps.skip(1).len() - after_item.len();
        lemma_enough_for_elements(after_item, depth, done.push(item), k - 1 - taken);
    }
}

proof fn lemma_enough_for_fields(
    steps: Seq<Step>,
    depth: nat,
    done: Map<Seq<char>, Tree>,
    k: int,
)
    requires
        parse_fields(steps, depth, done) is Ok,
        steps.len() - parse_fields(steps, depth, done)->Ok_0.1.len() <= k <= steps.len(),
    ensures
        ({
            let (fields, rest) = parse_fields(steps, depth, done)->Ok_0;
            parse_fields(steps.take(k), depth, done) == Ok::<
                (Map<Seq<char>, Tree>, Seq<Step>),
                ReadError,
            >((fields, rest.take(k - (steps.len() - rest.len()))))
        }),
    decreases steps.len(), 0nat,
{
    let cut = steps.take(k);
    lemma_parse_fields_rest(steps, depth, done);
    assert(cut.skip(1) == steps.skip(1).take(k - 1));
    if !(steps[0].token is ObjectEnd) {
        let name = field_name(steps[0].frame);
        let (value, after_value) = parse_value(steps[0].token, steps.skip(1), depth)->Ok_0;
        lemma_parse_value_rest(steps[0].token, steps.skip(1), depth);
        lemma_parse_fields_rest(after_value, depth, done.insert(name, value));
        lemma_enough_for_value(steps[0].token, steps.skip(1), depth, k - 1);
        let taken = steps.skip(1).len() - after_value.len();
        lemma_enough_for_fields(after_value, depth, done.insert(name, value), k - 1 - taken);
    }
}

/// Steps that end inside a value give no value: where a value can be read from `steps`
/// and takes more than the first `k` of them, reading it from those `k` steps alone fails
/// for want of events.
pub proof fn law_cut_short_value(first: Token, steps: Seq<Step>, depth: nat, k: int)
    requires
        parse_value(first, steps, depth) is Ok,
        0 <= k < steps.len() - parse_value(first, steps, depth)->Ok_0.1.len(),
    ensures
        parse_value(first, steps.take(k), depth) == Err::<(Tree, Seq<Step>), ReadError>(
            ReadError::PrematureExhaustion,
        ),
    decreases steps.len(), 1nat,
{
    match first {
        Token::ArrayStart => {
            law_cut_short_array(steps, (depth - 1) as nat, Seq::empty(), k);
        },
        Token::ObjectStart => {
            law_cut_short_object(steps, (depth - 1) as nat, Map::empty(), k);
        },
        _ => {},
    }
}

/// Steps that end before the `ArrayEnd` of an array that has been started give no array,
/// not even the elements that were complete: reading fails for want of events.
pub proof fn law_cut_short_array(steps: Seq<Step>, depth: nat, done: Seq<Tree>, k: int)
    requires
        parse_elements(steps, depth, done) is Ok,
        0 <= k < steps.len() - parse_elements(steps, depth, done)->Ok_0.1.len(),
    ensures
        parse_elements(steps.take(k), depth, done) == Err::<(Seq<Tree>, Seq<Step>), ReadError>(
            ReadError::PrematureExhaustion,
        ),
    decreases steps.len(), 0nat,
{
    let cut = steps.take(k);
    if k > 0 {
        assert(cut.skip(1) == steps.skip(1).take(k - 1));
        let (item, after_item) = parse_value(steps[0].token, steps.skip(1), depth)->Ok_0;
        lemma_parse_value_rest(steps[0].token, steps.skip(1), depth);
        lemma_parse_elements_rest(after_item, depth, done.push(item));
        let taken = steps.skip(1).len() - after_item.len();
        if k - 1 < taken {
            law_cut_short_value(steps[0].token, steps.skip(1), depth, k - 1);
        } else {
            lemma_enough_for_value(steps[0].token, steps.skip(1), depth, k - 1);
            law_cut_short_array(after_item, depth, done.push(item), k - 1 - taken);
        }
    }
}

/// Steps that end before the `ObjectEnd` of an object that has been started give no
/// object: reading fails for want of events.
pub proof fn law_cut_short_object(
    steps: Seq<Step>,
    depth: nat,
    done: Map<Seq<char>, Tree>,
    k: int,
)
    requires
        parse_fields(steps, depth, done) is Ok,
        0 <= k < steps.len() - parse_fields(steps, depth, done)->Ok_0.1.len(),
    ensures
        parse_fields(steps.take(k), depth, done) == Err::<
            (Map<Seq<char>, Tree>, Seq<Step>),
            ReadError,
        >(ReadError::PrematureExhaustion),
    decreases steps.len(), 0nat,
{
    let cut = steps.take(k);
    if k > 0 {
        assert(cut.skip(1) == steps.skip(1).take(k - 1));
        let name = field_name(steps[0].frame);
        let (value, after_value) = parse_value(steps[0].token, steps.skip(1), depth)->Ok_0;
        lemma_parse_value_rest(steps[0].token, steps.skip(1), depth);
        lemma_parse_fields_rest(after_value, depth, done.insert(name, value));
        let taken = steps.skip(1).len() - after_value.len();
        if k - 1 < taken {
            law_cut_short_value(steps[0].token, steps.skip(1), depth, k - 1);
        } else {
            lemma_enough_for_value(steps[0].token, steps.skip(1), depth, k - 1);
            law_cut_short_object(after_value, depth, done.insert(name, value), k - 1 - taken);
        }
    }
}

/// An event that cannot start a value, found where a value should start, is read as
/// null, and nothing behind it is touched.
pub proof fn law_anomaly_is_null(first: Token, steps: Seq<Step>, depth: nat)
    requires
        !starts_value(first),
    ensures
        parse_value(first, steps, depth) == Ok::<(Tree, Seq<Step>), ReadError>((Tree::Null, steps)),
        after_value(first, steps) == Some(steps),
{
}

/// A field whose value is an event that cannot start a value is set to null, and the
/// fields behind it are read as if nothing had happened.
pub proof fn law_anomaly_in_object(steps: Seq<Step>, depth: nat, done: Map<Seq<char>, Tree>)
    requires
        steps.len() > 0,
        steps[0].token is ArrayEnd || steps[0].token is Error,
        steps[0].frame matches Some(FrameView::Key(_)),
    ensures
        parse_fields(steps, depth, done) == parse_fields(
            steps.skip(1),
            depth,
            done.insert(field_name(steps[0].frame), Tree::Null),
        ),
{
    law_anomaly_is_null(steps[0].token, steps.skip(1), depth);
}

/// An element of an array that is an event that cannot start a value is null, and the
/// elements behind it are read as if nothing had happened.
pub proof fn law_anomaly_in_array(steps: Seq<Step>, depth: nat, done: Seq<Tree>)
    requires
        steps.len() > 0,
        steps[0].token is ObjectEnd || steps[0].token is Error,
    ensures
        parse_elements(steps, depth, done) == parse_elements(
            steps.skip(1),
            depth,
            done.push(Tree::Null),
        ),
{
    law_anomaly_is_null(steps[0].token, steps.skip(1), depth);
}

/// What the handler of a field leaves behind where it succeeds is the rest of the object:
/// the next thing to come from the parser is the start of the next field, or the
/// `ObjectEnd`, and never an event of the value that was handled.
pub proof fn law_handler_leaves_rest(steps: Seq<Step>)
    requires
        steps.len() > 0,
        !(steps[0].token is ObjectEnd),
        after_fields(steps) is Some,
    ensures
        after_value(steps[0].token, steps.skip(1)) matches Some(rest) && rest.len() > 0
            && after_fields(rest) == after_fields(steps),
{
    lemma_after_value_shorter(steps[0].token, steps.skip(1));
}

/// A traversal sets no handler and drops none: whatever it does to the handlers, they
/// stand under the same names in the same places afterwards.
pub proof fn law_traversal_keeps_names<H: Handler, D: Handler>(
    reader: StreamReader<H, D>,
    steps: Seq<Step>,
    result: Result<(), ReadError>,
    after: StreamReader<H, D>,
)
    requires
        reader.reads(steps, result, &after),
    ensures
        after.handlers@.len() == reader.handlers@.len(),
        forall|at: int|
            0 <= at < reader.handlers@.len() ==> (#[trigger] after.handlers@[at]).0
                == reader.handlers@[at].0,
    decreases steps.len(),
{
    if steps.len() > 0 && !(steps[0].token is ObjectEnd) {
        if let Some(FrameView::Key(key)) = steps[0].frame {
            assert(field_name(steps[0].frame) == key);
            if result is Err && reader.dispatches(
                key,
                steps[0].token,
                steps.skip(1),
                result,
                &after,
            ) {
            } else {
                let (outcome, between) = choose|
                    outcome: Result<(), ReadError>,
                    between: StreamReader<H, D>,
                |
                    {
                        &&& outcome is Ok
                        &&& #[trigger] reader.dispatches(
                            key,
                            steps[0].token,
                            steps.skip(1),
                            outcome,
                            &between,
                        )
                        &&& match after_value(steps[0].token, steps.skip(1)) {
                            Some(rest) => rest.len() < steps.len() && between.reads(
                                rest,
                                result,
                                &after,
                            ),
                            None => false,
                        }
                    };
                let rest = after_value(steps[0].token, steps.skip(1))->0;
                law_traversal_keeps_names(between, rest, result, after);
            }
        }
    }
}

/// A reader that has no handler for any name and copies by default gathers the object
/// that the grammar defines: it fails where the object cannot be built, with the same
/// error, and else its target holds the object's fields, set over those it held before.
pub proof fn law_copying_reader<H: Handler>(
    reader: StreamReader<H, CopyHandler>,
    steps: Seq<Step>,
    result: Result<(), ReadError>,
    after: StreamReader<H, CopyHandler>,
)
    requires
        reader.handlers@.len() == 0,
        reader.reads(steps, result, &after),
    ensures
        after.handlers@.len() == 0,
        match parse_fields(steps, DEFAULT_MAX_DEPTH as nat, reader.default_handler.target@) {
            Ok((fields, _)) => result is Ok && after.default_handler.target@ == fields,
            Err(e) => result == Err::<(), ReadError>(e),
        },
    decreases steps.len(),
{
    if steps.len() > 0 && !(steps[0].token is ObjectEnd) {
        if let Some(FrameView::Key(key)) = steps[0].frame {
            assert(field_name(steps[0].frame) == key);
            lemma_parse_value_rest(steps[0].token, steps.skip(1), DEFAULT_MAX_DEPTH as nat);
            if result is Err && reader.dispatches(
                key,
                steps[0].token,
                steps.skip(1),
                result,
                &after,
            ) {
            } else {
                let (outcome, between) = choose|
                    outcome: Result<(), ReadError>,
                    between: StreamReader<H, CopyHandler>,
                |
                    {
                        &&& outcome is Ok
                        &&& #[trigger] reader.dispatches(
                            key,
                            steps[0].token,
                            steps.skip(1),
                            outcome,
                            &between,
                        )
                        &&& match after_value(steps[0].token, steps.skip(1)) {
                            Some(rest) => rest.len() < steps.len() && between.reads(
                                rest,
                                result,
                                &after,
                            ),
                            None => false,
                        }
                    };
                let rest = after_value(steps[0].token, steps.skip(1))->0;
                law_copying_reader(between, rest, result, after);
            }
        }
    }
}

/// A vector that is shown the elements of an array holds them behind what it held before,
/// in the order in which they came.
pub proof fn law_collecting_visitor(before: Vec<Value>, items: Seq<Tree>, after: Vec<Value>)
    requires
        visits_all(before, items, after),
    ensures
        trees_of(after@) == trees_of(before@) + items,
    decreases items.len(),
{
    if items.len() == 0 {
        assert(trees_of(before@) + items == trees_of(before@));
    } else {
        let between = choose|between: Vec<Value>|
            visits_all(before, items.drop_last(), between) && #[trigger] between.visits(
                items.last(),
                &after,
            );
        law_collecting_visitor(before, items.drop_last(), between);
        assert(trees_of(before@) + items == (trees_of(before@) + items.drop_last()).push(
            items.last(),
        ));
    }
}

} // verus!
