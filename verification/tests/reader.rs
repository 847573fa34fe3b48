use json_streamer::{
    array_handler, copy_handler, dummy_handler, read_value, ArrayHandler, CopyHandler,
    DummyHandler, Event, Handler, Object, ReadError, StreamReader, Value, Violation, Visitor,
};
use rustc_serialize::json::{ErrorCode, JsonEvent, Parser, ParserError};
use std::str::Chars;

/// Keeps the name and the first event of every field it is given, and reads the value.
struct Recorder {
    calls: Vec<(String, Event)>,
}

impl Recorder {
    fn new() -> Recorder {
        Recorder { calls: Vec::new() }
    }
}

impl Handler for Recorder {
    fn handle(
        &mut self,
        key: String,
        first: Event,
        parser: &mut Parser<Chars>,
    ) -> Result<(), ReadError> {
        let kept = match &first {
            Event::ObjectStart => Event::ObjectStart,
            Event::ArrayStart => Event::ArrayStart,
            Event::BooleanValue(b) => Event::BooleanValue(*b),
            Event::I64Value(i) => Event::I64Value(*i),
            Event::U64Value(u) => Event::U64Value(*u),
            Event::F64Value(bits) => Event::F64Value(*bits),
            Event::StringValue(s) => Event::StringValue(s.clone()),
            _ => Event::NullValue,
        };
        self.calls.push((key, kept));
        read_value(first, parser)?;
        Ok(())
    }
}

/// Keeps every first event as it came, and reads the value.
struct Events {
    seen: Vec<(String, Event)>,
}

impl Handler for Events {
    fn handle(
        &mut self,
        key: String,
        first: Event,
        parser: &mut Parser<Chars>,
    ) -> Result<(), ReadError> {
        let start = match first {
            Event::ObjectStart => Event::ObjectStart,
            Event::ArrayStart => Event::ArrayStart,
            _ => Event::NullValue,
        };
        self.seen.push((key, first));
        read_value(start, parser)?;
        Ok(())
    }
}

/// Reads an object with a reader of its own.
struct Nested<H: Handler, D: Handler> {
    reader: StreamReader<H, D>,
}

impl<H: Handler, D: Handler> Handler for Nested<H, D> {
    fn handle(
        &mut self,
        _key: String,
        first: Event,
        parser: &mut Parser<Chars>,
    ) -> Result<(), ReadError> {
        assert_eq!(first, Event::ObjectStart);
        self.reader.read_object(parser)
    }
}

/// Counts the elements it is shown.
struct Counter {
    seen: usize,
}

impl Visitor for Counter {
    fn visit(&mut self, _item: Value) {
        self.seen += 1;
    }
}

fn open(text: &str) -> Parser<Chars<'_>> {
    let mut parser = Parser::new(text.chars());
    assert_eq!(parser.next(), Some(JsonEvent::ObjectStart));
    parser
}

#[test]
fn a_handler_gets_its_field_and_the_default_handler_the_rest() {
    let mut parser = open(r#"{"x": 1, "y": 2}"#);
    let mut reader = StreamReader::new().set_default_handler(Recorder::new());
    reader.set_handler("x".to_string(), Recorder::new());
    assert_eq!(reader.read_object(&mut parser), Ok(()));
    assert_eq!(reader.handlers.len(), 1);
    assert_eq!(reader.handlers[0].0, "x");
    assert_eq!(reader.handlers[0].1.calls, vec![("x".to_string(), Event::U64Value(1))]);
    assert_eq!(reader.default_handler.calls, vec![("y".to_string(), Event::U64Value(2))]);
    assert_eq!(parser.next(), None);
}

#[test]
fn every_kind_of_event_reaches_the_handler_as_it_is() {
    let text = [
        r#"{"n": null, "t": true, "u": 7, "i": -7, "f": 1.5,"#,
        r#" "s": "str", "o": {"p": 1}, "a": [2]}"#,
    ]
    .concat();
    let mut parser = open(&text);
    let start: StreamReader<DummyHandler, DummyHandler> = StreamReader::new();
    let mut reader = start.set_default_handler(Events { seen: Vec::new() });
    assert_eq!(reader.read_object(&mut parser), Ok(()));
    let named = |name: &str, event: Event| (name.to_string(), event);
    assert_eq!(
        reader.default_handler.seen,
        vec![
            named("n", Event::NullValue),
            named("t", Event::BooleanValue(true)),
            named("u", Event::U64Value(7)),
            named("i", Event::I64Value(-7)),
            named("f", Event::F64Value(0x3FF8_0000_0000_0000)),
            named("s", Event::StringValue("str".to_string())),
            named("o", Event::ObjectStart),
            named("a", Event::ArrayStart),
        ]
    );
    assert_eq!(parser.next(), None);
}

#[test]
fn the_error_of_the_parser_reaches_the_handler_as_it_is() {
    let mut parser = open(r#"{"a": @}"#);
    let start: StreamReader<DummyHandler, DummyHandler> = StreamReader::new();
    let mut reader = start.set_default_handler(Events { seen: Vec::new() });
    assert_eq!(reader.read_object(&mut parser), Err(ReadError::PrematureExhaustion));
    assert_eq!(
        reader.default_handler.seen,
        vec![(
            "a".to_string(),
            Event::Error(ParserError::SyntaxError(ErrorCode::InvalidSyntax, 1, 7))
        )]
    );
}

#[test]
fn a_handler_gets_a_signed_first_event() {
    let mut parser = open(r#"{"x": -1, "y": 2}"#);
    let mut reader = StreamReader::new().set_default_handler(dummy_handler());
    reader.set_handler("x".to_string(), Recorder::new());
    assert_eq!(reader.read_object(&mut parser), Ok(()));
    assert_eq!(reader.handlers[0].1.calls, vec![("x".to_string(), Event::I64Value(-1))]);
}

#[test]
fn a_field_that_comes_twice_is_handled_twice() {
    let mut parser = open(r#"{"x": 1, "y": 2, "x": [3]}"#);
    let mut reader = StreamReader::new().set_default_handler(Recorder::new());
    reader.set_handler("x".to_string(), Recorder::new());
    assert_eq!(reader.read_object(&mut parser), Ok(()));
    assert_eq!(
        reader.handlers[0].1.calls,
        vec![("x".to_string(), Event::U64Value(1)), ("x".to_string(), Event::ArrayStart)]
    );
    assert_eq!(reader.default_handler.calls, vec![("y".to_string(), Event::U64Value(2))]);
}

#[test]
fn the_next_event_after_a_handler_is_the_next_field() {
    // The value of "x" is long; the handler of "y" must see the start of "y"'s own value.
    let text = r#"{"x": {"p": [1, {"q": [[], {}]}], "r": "s"}, "y": [4], "z": null}"#;
    let mut parser = open(text);
    let mut reader = StreamReader::new().set_default_handler(Recorder::new());
    reader.set_handler("x".to_string(), dummy_handler());
    assert_eq!(reader.read_object(&mut parser), Ok(()));
    assert_eq!(
        reader.default_handler.calls,
        vec![("y".to_string(), Event::ArrayStart), ("z".to_string(), Event::NullValue)]
    );
    assert_eq!(parser.next(), None);
}

#[test]
fn a_handler_leaves_the_parser_at_the_object_end_of_the_last_field() {
    let mut parser = Parser::new(r#"[{"x": [1, 2]}, 5]"#.chars());
    assert_eq!(parser.next(), Some(JsonEvent::ArrayStart));
    assert_eq!(parser.next(), Some(JsonEvent::ObjectStart));
    assert_eq!(parser.next(), Some(JsonEvent::ArrayStart));
    let mut handler = dummy_handler();
    assert_eq!(handler.handle("x".to_string(), Event::ArrayStart, &mut parser), Ok(()));
    assert_eq!(parser.next(), Some(JsonEvent::ObjectEnd));
    assert_eq!(parser.next(), Some(JsonEvent::U64Value(5)));
}

#[test]
fn the_reader_stops_behind_the_object_end() {
    let mut parser = Parser::new(r#"[{"x": 1}, 5]"#.chars());
    assert_eq!(parser.next(), Some(JsonEvent::ArrayStart));
    assert_eq!(parser.next(), Some(JsonEvent::ObjectStart));
    let mut reader: StreamReader<DummyHandler, DummyHandler> = StreamReader::new();
    assert_eq!(reader.read_object(&mut parser), Ok(()));
    assert_eq!(parser.next(), Some(JsonEvent::U64Value(5)));
}

#[test]
fn an_array_handler_in_a_nested_reader_shows_each_element() {
    let mut parser = open(r#"{"a": {"b": [1,2,3]}}"#);
    let mut inner = StreamReader::new().set_default_handler(dummy_handler());
    inner.set_handler("b".to_string(), array_handler(Vec::new()));
    let mut outer = StreamReader::new().set_default_handler(dummy_handler());
    outer.set_handler("a".to_string(), Nested { reader: inner });
    assert_eq!(outer.read_object(&mut parser), Ok(()));
    let seen = &outer.handlers[0].1.reader.handlers[0].1.visitor;
    assert_eq!(seen.len(), 3);
    assert!(matches!(seen[0], Value::U64(1)));
    assert!(matches!(seen[1], Value::U64(2)));
    assert!(matches!(seen[2], Value::U64(3)));
    // The outer traversal reached its ObjectEnd, and nothing is left.
    assert_eq!(parser.next(), None);
}

#[test]
fn an_array_handler_shows_whole_elements() {
    let mut parser = open(r#"{"b": [[1, 2], {"c": []}, "d"], "e": 1}"#);
    let mut reader = StreamReader::new().set_default_handler(Recorder::new());
    reader.set_handler("b".to_string(), array_handler(Counter { seen: 0 }));
    assert_eq!(reader.read_object(&mut parser), Ok(()));
    assert_eq!(reader.handlers[0].1.visitor.seen, 3);
    assert_eq!(reader.default_handler.calls, vec![("e".to_string(), Event::U64Value(1))]);
}

#[test]
fn an_array_handler_refuses_what_is_no_array() {
    let mut parser = open(r#"{"b": 1, "c": 2}"#);
    let mut reader = StreamReader::new().set_default_handler(Recorder::new());
    reader.set_handler("b".to_string(), array_handler(Counter { seen: 0 }));
    assert_eq!(
        reader.read_object(&mut parser),
        Err(ReadError::ContractViolation(Violation::NotAnArray))
    );
    assert_eq!(reader.handlers[0].1.visitor.seen, 0);
    // The traversal was given up: the field behind was not handled.
    assert!(reader.default_handler.calls.is_empty());

    let mut parser = Parser::new("[]".chars());
    let mut handler: ArrayHandler<Vec<Value>> = array_handler(Vec::new());
    assert_eq!(
        handler.handle(String::new(), Event::ObjectStart, &mut parser),
        Err(ReadError::ContractViolation(Violation::NotAnArray))
    );
    assert_eq!(parser.next(), Some(JsonEvent::ArrayStart));
}

#[test]
fn an_array_handler_fails_on_an_array_cut_short() {
    let mut parser = Parser::new("[1, [2, 3".chars());
    assert_eq!(parser.next(), Some(JsonEvent::ArrayStart));
    let mut handler = array_handler(Counter { seen: 0 });
    assert_eq!(
        handler.handle(String::new(), Event::ArrayStart, &mut parser),
        Err(ReadError::PrematureExhaustion)
    );
}

#[test]
fn a_copying_reader_gathers_the_object() {
    let mut parser = open(r#"{"a": 1, "b": [true, null], "c": {"d": "e"}, "a": -2}"#);
    let start: StreamReader<DummyHandler, DummyHandler> = StreamReader::new();
    let mut reader = start.set_default_handler(copy_handler(Object::new()));
    assert_eq!(reader.read_object(&mut parser), Ok(()));
    let object = reader.default_handler.target;
    assert_eq!(object.len(), 3);
    assert!(matches!(object.get("a"), Some(Value::I64(-2))));
    assert!(matches!(object.get("b"), Some(Value::Array(items)) if items.len() == 2));
    match object.get("c") {
        Some(Value::Object(inner)) => {
            assert!(matches!(inner.get("d"), Some(Value::String(s)) if s == "e"))
        }
        other => panic!("c is not an object: {:?}", other),
    }
}

#[test]
fn a_copy_handler_sets_fields_over_those_it_holds() {
    let mut target = Object::new();
    target.insert("kept".to_string(), Value::U64(0));
    target.insert("a".to_string(), Value::U64(0));
    let mut handler: CopyHandler = copy_handler(target);
    let mut parser = Parser::new("[]".chars());
    assert_eq!(handler.handle("a".to_string(), Event::U64Value(1), &mut parser), Ok(()));
    assert_eq!(handler.target.len(), 2);
    assert!(matches!(handler.target.get("a"), Some(Value::U64(1))));
    assert!(matches!(handler.target.get("kept"), Some(Value::U64(0))));
}

#[test]
fn a_malformed_value_is_null_and_later_fields_are_read() {
    // An event that starts no value stands for the value of "a"; "b" is read as usual.
    let mut handler = copy_handler(Object::new());
    let mut parser = Parser::new("[]".chars());
    assert_eq!(handler.handle("a".to_string(), Event::ArrayEnd, &mut parser), Ok(()));
    assert_eq!(handler.handle("b".to_string(), Event::U64Value(2), &mut parser), Ok(()));
    assert_eq!(handler.target.len(), 2);
    assert!(matches!(handler.target.get("a"), Some(Value::Null)));
    assert!(matches!(handler.target.get("b"), Some(Value::U64(2))));
}

#[test]
fn a_malformed_value_from_the_parser_is_null() {
    // The parser gives up at '@': it yields an error event for the value of "a", and
    // nothing after it, so the field is set and the traversal then fails.
    let mut parser = open(r#"{"a": @, "b": 2}"#);
    let start: StreamReader<DummyHandler, DummyHandler> = StreamReader::new();
    let mut reader = start.set_default_handler(copy_handler(Object::new()));
    assert_eq!(reader.read_object(&mut parser), Err(ReadError::PrematureExhaustion));
    let object = reader.default_handler.target;
    assert_eq!(object.len(), 1);
    assert!(matches!(object.get("a"), Some(Value::Null)));
}

#[test]
fn the_reader_fails_on_an_exhausted_parser() {
    let mut parser = Parser::new("1".chars());
    assert_eq!(parser.next(), Some(JsonEvent::U64Value(1)));
    let mut reader = StreamReader::new().set_default_handler(Recorder::new());
    reader.set_handler("x".to_string(), Recorder::new());
    assert_eq!(reader.read_object(&mut parser), Err(ReadError::PrematureExhaustion));
    assert!(reader.default_handler.calls.is_empty());
}

#[test]
fn the_reader_refuses_a_field_without_a_name() {
    let mut parser = Parser::new("[1, 2]".chars());
    assert_eq!(parser.next(), Some(JsonEvent::ArrayStart));
    let mut reader = StreamReader::new().set_default_handler(Recorder::new());
    reader.set_handler("x".to_string(), Recorder::new());
    assert_eq!(
        reader.read_object(&mut parser),
        Err(ReadError::ContractViolation(Violation::MissingFieldName))
    );
    assert!(reader.default_handler.calls.is_empty());
}

#[test]
fn the_first_error_of_a_handler_ends_the_traversal() {
    let mut parser = open(r#"{"a": 1, "b": [2, "c": 3}"#);
    let mut reader = StreamReader::new().set_default_handler(Recorder::new());
    reader.set_handler("none".to_string(), Recorder::new());
    assert_eq!(reader.read_object(&mut parser), Err(ReadError::PrematureExhaustion));
    assert_eq!(
        reader.default_handler.calls,
        vec![("a".to_string(), Event::U64Value(1)), ("b".to_string(), Event::ArrayStart)]
    );
}

#[test]
fn set_handler_replaces_the_handler_of_a_name() {
    let mut parser = open(r#"{"x": 1, "y": 2}"#);
    let mut reader = StreamReader::new().set_default_handler(dummy_handler());
    reader.set_handler("x".to_string(), array_handler(Counter { seen: 10 }));
    reader.set_handler("y".to_string(), array_handler(Counter { seen: 20 }));
    reader.set_handler("x".to_string(), array_handler(Counter { seen: 30 }));
    assert_eq!(reader.handlers.len(), 2);
    assert_eq!(reader.handlers[0].0, "x");
    assert_eq!(reader.handlers[0].1.visitor.seen, 30);
    assert_eq!(reader.handlers[1].0, "y");
    assert_eq!(reader.handlers[1].1.visitor.seen, 20);
    assert_eq!(
        reader.read_object(&mut parser),
        Err(ReadError::ContractViolation(Violation::NotAnArray))
    );
}

#[test]
fn dispatch_calls_the_handler_of_the_name_or_the_default_handler() {
    let mut reader = StreamReader::new().set_default_handler(Recorder::new());
    reader.set_handler("x".to_string(), Recorder::new());
    let mut parser = Parser::new("[]".chars());
    assert_eq!(reader.dispatch("x".to_string(), Event::U64Value(1), &mut parser), Ok(()));
    assert_eq!(reader.dispatch("y".to_string(), Event::NullValue, &mut parser), Ok(()));
    assert_eq!(reader.dispatch("".to_string(), Event::BooleanValue(false), &mut parser), Ok(()));
    assert_eq!(reader.handlers[0].1.calls, vec![("x".to_string(), Event::U64Value(1))]);
    assert_eq!(
        reader.default_handler.calls,
        vec![("y".to_string(), Event::NullValue), ("".to_string(), Event::BooleanValue(false))]
    );
}

#[test]
fn a_new_reader_reads_and_drops_every_field() {
    let mut parser = open(r#"{"x": [1, 2], "y": {"z": 3}}"#);
    let mut reader: StreamReader<DummyHandler, DummyHandler> = StreamReader::new();
    assert!(reader.handlers.is_empty());
    assert_eq!(reader.default_handler, DummyHandler);
    assert_eq!(reader.read_object(&mut parser), Ok(()));
    assert_eq!(parser.next(), None);
}

#[test]
fn a_vector_keeps_what_it_is_shown() {
    let mut seen: Vec<Value> = vec![Value::Null];
    seen.visit(Value::U64(4));
    seen.visit(Value::Boolean(true));
    assert_eq!(seen.len(), 3);
    assert!(matches!(seen[0], Value::Null));
    assert!(matches!(seen[1], Value::U64(4)));
    assert!(matches!(seen[2], Value::Boolean(true)));
}
