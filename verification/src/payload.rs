//! The payload of an event, and its form as a script value.

use vstd::prelude::*;
use crate::value::{lookup, Field, FieldView, ScriptValue, ValueView};

verus! {

/// The request that travels through the handlers of an event.
///
/// Handlers get the payload by value and answer with a whole new payload;
/// the set of fields may grow.
#[non_exhaustive]
#[derive(Debug, PartialEq, Eq)]
pub struct EventPayload {
    pub name: String,
    pub filter: bool,
}

/// The mathematical content of an [`EventPayload`].
pub struct PayloadView {
    pub name: Seq<char>,
    pub filter: bool,
}

impl View for EventPayload {
    type V = PayloadView;

    open spec fn view(&self) -> PayloadView {
        PayloadView { name: self.name@, filter: self.filter }
    }
}

/// Why a script value is no payload.
#[derive(Clone, Copy, Debug, PartialEq, Eq, Structural)]
pub enum PayloadError {
    /// The value has no fields to read.
    NotARecord,
    /// There is no `name`.
    NameMissing,
    /// `name` is there and is no text.
    NameNotText,
    /// `filter` is there and is no boolean.
    FilterNotBoolean,
}

/// The key under which a payload's name travels.
pub open spec fn name_key() -> Seq<char> {
    "name"@
}

/// The key under which a payload's filter flag travels.
pub open spec fn filter_key() -> Seq<char> {
    "filter"@
}

/// The script value that stands for a payload: a record of all its
/// fields.
pub open spec fn request_of(payload: PayloadView) -> ValueView {
    ValueView::Record(
        seq![
            FieldView { key: name_key(), value: ValueView::Text(payload.name) },
            FieldView { key: filter_key(), value: ValueView::Boolean(payload.filter) },
        ],
    )
}

/// The payload that a script value stands for. `name` must be a text;
/// `filter` may be left out and is then `false`; fields that the host does
/// not know are passed over.
pub open spec fn payload_of(value: ValueView) -> Result<PayloadView, PayloadError> {
    if !(value is Record) {
        Err(PayloadError::NotARecord)
    } else {
        match value.field(name_key()) {
            ValueView::Text(name) => match value.field(filter_key()) {
                ValueView::Nil => Ok(PayloadView { name, filter: false }),
                ValueView::Boolean(filter) => Ok(PayloadView { name, filter }),
                _ => Err(PayloadError::FilterNotBoolean),
            },
            ValueView::Nil => Err(PayloadError::NameMissing),
            _ => Err(PayloadError::NameNotText),
        }
    }
}

impl EventPayload {
    /// A payload with the given fields.
    pub fn new(name: String, filter: bool) -> (payload: EventPayload)
        ensures
            payload.name == name,
            payload.filter == filter,
    {
        EventPayload { name, filter }
    }
}

impl Clone for EventPayload {
    fn clone(&self) -> (copy: EventPayload)
        ensures
            copy == *self,
    {
        EventPayload { name: self.name.clone(), filter: self.filter }
    }
}

impl Default for EventPayload {
    /// The payload with an empty name and the filter switched off.
    fn default() -> (payload: EventPayload)
        ensures
            payload@ == (PayloadView { name: Seq::empty(), filter: false }),
    {
        EventPayload { name: String::new(), filter: false }
    }
}

/// Turns a payload into the script value that a handler receives.
pub fn encode_request(payload: &EventPayload) -> (value: ScriptValue)
    ensures
        value@ == request_of(payload@),
{
    let mut fields: Vec<Field> = Vec::new();
    fields.push(Field { key: String::from_str("name"), value: ScriptValue::Text(payload.name.clone()) });
    fields.push(Field { key: String::from_str("filter"), value: ScriptValue::Boolean(payload.filter) });
    let value = ScriptValue::Record(fields);
    proof {
        reveal_with_fuel(ScriptValue::content, 2);
        assert(value@->Record_0 =~= request_of(payload@)->Record_0);
    }
    value
}

/// Reads a payload out of a script value, checking the type of every
/// field it uses.
pub fn decode_payload(value: &ScriptValue) -> (decoded: Result<EventPayload, PayloadError>)
    ensures
        match decoded {
            Ok(payload) => payload_of(value@) == Ok::<PayloadView, PayloadError>(payload@),
            Err(error) => payload_of(value@) == Err::<PayloadView, PayloadError>(error),
        },
{
    match value {
        ScriptValue::Record(_) => {},
        _ => {
            return Err(PayloadError::NotARecord);
        },
    }
    let name = match value.field("name") {
        Some(ScriptValue::Text(text)) => text.clone(),
        Some(ScriptValue::Nil) | None => {
            return Err(PayloadError::NameMissing);
        },
        Some(_) => {
            return Err(PayloadError::NameNotText);
        },
    };
    let filter = match value.field("filter") {
        Some(ScriptValue::Boolean(flag)) => *flag,
        Some(ScriptValue::Nil) | None => false,
        Some(_) => {
            return Err(PayloadError::FilterNotBoolean);
        },
    };
    Ok(EventPayload { name, filter })
}

/// Decoding what was encoded gives the payload back, whatever it holds.
pub proof fn lemma_payload_round_trip(payload: PayloadView)
    ensures
        payload_of(request_of(payload)) == Ok::<PayloadView, PayloadError>(payload),
{
    reveal_strlit("name");
    reveal_strlit("filter");
    let fields = request_of(payload)->Record_0;
    assert(name_key().len() == 4 && filter_key().len() == 6);
    assert(lookup(fields, name_key()) == fields[0].value);
    assert(fields.drop_first()[0] == fields[1]);
    assert(lookup(fields, filter_key()) == fields[1].value) by {
        reveal_with_fuel(lookup, 3);
    }
}

} // verus!
