use plugin_pipeline::marshal::{decode_response, HandlerOutcome, MarshalError, TaggedResult};
use plugin_pipeline::payload::{decode_payload, encode_request, EventPayload, PayloadError};
use plugin_pipeline::value::{CallableRef, Field, ScriptValue};

fn text(s: &str) -> ScriptValue {
    ScriptValue::Text(s.to_string())
}

fn field(key: &str, value: ScriptValue) -> Field {
    Field { key: key.to_string(), value }
}

fn same(a: &ScriptValue, b: &ScriptValue) -> bool {
    match (a, b) {
        (ScriptValue::Nil, ScriptValue::Nil) => true,
        (ScriptValue::Opaque, ScriptValue::Opaque) => true,
        (ScriptValue::Boolean(x), ScriptValue::Boolean(y)) => x == y,
        (ScriptValue::Integer(x), ScriptValue::Integer(y)) => x == y,
        (ScriptValue::Text(x), ScriptValue::Text(y)) => x == y,
        (ScriptValue::Callable(x), ScriptValue::Callable(y)) => x == y,
        (ScriptValue::Record(x), ScriptValue::Record(y)) => {
            x.len() == y.len()
                && x.iter().zip(y.iter()).all(|(f, g)| f.key == g.key && same(&f.value, &g.value))
        }
        _ => false,
    }
}

#[test]
fn encode_request_lays_out_every_field() {
    let value = encode_request(&EventPayload::new("custom_uid".to_string(), true));
    let expected = ScriptValue::Record(vec![
        field("name", text("custom_uid")),
        field("filter", ScriptValue::Boolean(true)),
    ]);
    assert!(same(&value, &expected));
}

#[test]
fn payload_round_trip() {
    for (name, filter) in [("custom_uid", false), ("", true), ("näme with ✓", false)] {
        let payload = EventPayload::new(name.to_string(), filter);
        let decoded = decode_payload(&encode_request(&payload));
        assert_eq!(decoded, Ok(EventPayload::new(name.to_string(), filter)));
    }
}

#[test]
fn success_round_trip_through_response() {
    let payload = EventPayload::new("custom_uid".to_string(), true);
    let decoded = decode_response(vec![encode_request(&payload)]);
    assert_eq!(decoded, Ok(HandlerOutcome::Success(payload)));
}

#[test]
fn decoded_payload_is_not_the_default() {
    let value = ScriptValue::Record(vec![
        field("filter", ScriptValue::Boolean(true)),
        field("name", text("bob")),
    ]);
    assert_eq!(decode_payload(&value), Ok(EventPayload::new("bob".to_string(), true)));
}

#[test]
fn missing_filter_defaults_to_false() {
    let value = ScriptValue::Record(vec![field("name", text("bob"))]);
    assert_eq!(decode_payload(&value), Ok(EventPayload::new("bob".to_string(), false)));
}

#[test]
fn nil_filter_defaults_to_false() {
    let value = ScriptValue::Record(vec![field("name", text("bob")), field("filter", ScriptValue::Nil)]);
    assert_eq!(decode_payload(&value), Ok(EventPayload::new("bob".to_string(), false)));
}

#[test]
fn unknown_fields_are_passed_over() {
    let value = ScriptValue::Record(vec![
        field("extra", ScriptValue::Integer(7)),
        field("name", text("bob")),
        field("nested", ScriptValue::Record(vec![field("name", text("inner"))])),
    ]);
    assert_eq!(decode_payload(&value), Ok(EventPayload::new("bob".to_string(), false)));
}

#[test]
fn first_field_of_a_name_is_the_one_read() {
    let value = ScriptValue::Record(vec![field("name", text("first")), field("name", text("second"))]);
    assert_eq!(decode_payload(&value), Ok(EventPayload::new("first".to_string(), false)));
}

#[test]
fn payload_must_be_a_record() {
    assert_eq!(decode_payload(&text("bob")), Err(PayloadError::NotARecord));
    assert_eq!(decode_payload(&ScriptValue::Nil), Err(PayloadError::NotARecord));
    assert_eq!(decode_payload(&ScriptValue::Opaque), Err(PayloadError::NotARecord));
}

#[test]
fn payload_needs_a_name() {
    let value = ScriptValue::Record(vec![field("filter", ScriptValue::Boolean(true))]);
    assert_eq!(decode_payload(&value), Err(PayloadError::NameMissing));
    assert_eq!(decode_payload(&ScriptValue::Record(vec![])), Err(PayloadError::NameMissing));
}

#[test]
fn payload_name_must_be_text() {
    let value = ScriptValue::Record(vec![field("name", ScriptValue::Integer(5))]);
    assert_eq!(decode_payload(&value), Err(PayloadError::NameNotText));
}

#[test]
fn payload_filter_must_be_boolean() {
    let value = ScriptValue::Record(vec![field("name", text("bob")), field("filter", text("yes"))]);
    assert_eq!(decode_payload(&value), Err(PayloadError::FilterNotBoolean));
}

#[test]
fn default_payload_is_empty() {
    assert_eq!(EventPayload::default(), EventPayload::new(String::new(), false));
}

#[test]
fn cloned_payload_is_equal() {
    let payload = EventPayload::new("custom_uid".to_string(), true);
    assert_eq!(payload.clone(), payload);
}

#[test]
fn one_value_is_a_success() {
    let value = ScriptValue::Record(vec![field("name", text("bob")), field("filter", ScriptValue::Boolean(true))]);
    assert_eq!(
        decode_response(vec![value]),
        Ok(HandlerOutcome::Success(EventPayload::new("bob".to_string(), true)))
    );
}

#[test]
fn nil_and_text_is_a_failure() {
    assert_eq!(
        decode_response(vec![ScriptValue::Nil, text("boom")]),
        Ok(HandlerOutcome::Failure("boom".to_string()))
    );
}

#[test]
fn two_values_without_nil_are_refused() {
    let payload = encode_request(&EventPayload::new("bob".to_string(), false));
    assert_eq!(decode_response(vec![payload, text("boom")]), Err(MarshalError::MultipleValues));
    assert_eq!(
        decode_response(vec![ScriptValue::Boolean(false), ScriptValue::Nil]),
        Err(MarshalError::MultipleValues)
    );
    assert_eq!(decode_response(vec![text("a"), text("b")]), Err(MarshalError::MultipleValues));
}

#[test]
fn nil_with_something_else_is_refused() {
    assert_eq!(
        decode_response(vec![ScriptValue::Nil, ScriptValue::Integer(3)]),
        Err(MarshalError::MessageNotText)
    );
    assert_eq!(decode_response(vec![ScriptValue::Nil, ScriptValue::Nil]), Err(MarshalError::MessageNotText));
}

#[test]
fn three_values_are_too_many() {
    assert_eq!(
        decode_response(vec![ScriptValue::Nil, text("boom"), ScriptValue::Nil]),
        Err(MarshalError::TooManyValues)
    );
    let payload = encode_request(&EventPayload::new("bob".to_string(), false));
    assert_eq!(
        decode_response(vec![payload, ScriptValue::Nil, ScriptValue::Nil, ScriptValue::Nil]),
        Err(MarshalError::TooManyValues)
    );
}

#[test]
fn single_value_that_is_no_payload_is_refused() {
    assert_eq!(decode_response(vec![ScriptValue::Nil]), Err(MarshalError::Payload(PayloadError::NotARecord)));
    assert_eq!(
        decode_response(vec![ScriptValue::Record(vec![field("name", ScriptValue::Callable(CallableRef(1)))])]),
        Err(MarshalError::Payload(PayloadError::NameNotText))
    );
    assert_eq!(
        decode_response(vec![ScriptValue::Record(vec![])]),
        Err(MarshalError::Payload(PayloadError::NameMissing))
    );
    assert_eq!(
        decode_response(vec![ScriptValue::Record(vec![
            field("name", text("bob")),
            field("filter", ScriptValue::Integer(1)),
        ])]),
        Err(MarshalError::Payload(PayloadError::FilterNotBoolean))
    );
}

#[test]
fn tagged_result_round_trip() {
    let values = TaggedResult::Success(text("id-1")).into_values();
    assert_eq!(values.len(), 1);
    assert!(same(&values[0], &text("id-1")));
    match TaggedResult::from_values(values) {
        Ok(TaggedResult::Success(value)) => assert!(same(&value, &text("id-1"))),
        _ => panic!("a success must come back as a success"),
    }

    let values = TaggedResult::Failure("backend down".to_string()).into_values();
    assert_eq!(values.len(), 2);
    assert!(same(&values[0], &ScriptValue::Nil));
    assert!(same(&values[1], &text("backend down")));
    match TaggedResult::from_values(values) {
        Ok(TaggedResult::Failure(message)) => assert_eq!(message, "backend down"),
        _ => panic!("a failure must come back as a failure"),
    }
}

#[test]
fn tagged_success_may_hold_nil() {
    match TaggedResult::from_values(vec![ScriptValue::Nil]) {
        Ok(TaggedResult::Success(value)) => assert!(value.is_nil()),
        _ => panic!("one value is a success whatever it is"),
    }
}

#[test]
fn marshal_error_messages() {
    assert_eq!(MarshalError::MultipleValues.message(), "Multiple values not supported");
    assert_eq!(MarshalError::TooManyValues.message(), "Too many values");
    assert_eq!(MarshalError::MessageNotText.message(), "Error message is not a text");
    assert_eq!(MarshalError::Payload(PayloadError::NotARecord).message(), "Payload is not a record");
    assert_eq!(MarshalError::Payload(PayloadError::NameMissing).message(), "Payload has no name");
    assert_eq!(MarshalError::Payload(PayloadError::NameNotText).message(), "Payload name is not a text");
    assert_eq!(
        MarshalError::Payload(PayloadError::FilterNotBoolean).message(),
        "Payload filter is not a boolean"
    );
}

#[test]
fn field_reads_nil_where_there_is_none() {
    let record = ScriptValue::Record(vec![field("a", ScriptValue::Integer(1))]);
    assert!(record.field("b").is_none());
    assert!(matches!(record.field("a"), Some(ScriptValue::Integer(1))));
    assert!(text("a").field("a").is_none());
    assert!(ScriptValue::Nil.is_nil());
    assert!(!ScriptValue::Boolean(false).is_nil());
}
