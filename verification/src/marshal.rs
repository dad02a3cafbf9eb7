//! The two-slot convention by which a result crosses the boundary: one
//! value for success, `Nil` and a message for failure.

use vstd::prelude::*;
use crate::payload::{
    decode_payload, lemma_payload_round_trip, payload_of, request_of, EventPayload, PayloadError,
    PayloadView,
};
use crate::value::{views, ScriptValue, ValueView};

verus! {

/// A violation of the convention, as opposed to a failure that a handler
/// reports through it.
#[derive(Clone, Copy, Debug, PartialEq, Eq, Structural)]
pub enum MarshalError {
    /// Two values came back and the first is not `Nil`.
    MultipleValues,
    /// More than two values came back.
    TooManyValues,
    /// `Nil` came back with something that is no text.
    MessageNotText,
    /// One value came back and it is no payload.
    Payload(PayloadError),
}

/// A success value or an error message, before the value is typed.
#[derive(Debug, PartialEq, Eq)]
pub enum TaggedResult {
    Success(ScriptValue),
    Failure(String),
}

/// The mathematical content of a [`TaggedResult`].
pub enum TaggedView {
    Success(ValueView),
    Failure(Seq<char>),
}

impl View for TaggedResult {
    type V = TaggedView;

    open spec fn view(&self) -> TaggedView {
        match self {
            TaggedResult::Success(value) => TaggedView::Success(value@),
            TaggedResult::Failure(message) => TaggedView::Failure(message@),
        }
    }
}

/// What a handler made of the payload it was given.
#[derive(Debug, PartialEq, Eq)]
pub enum HandlerOutcome {
    /// The payload to go on with.
    Success(EventPayload),
    /// The handler's own report that it failed.
    Failure(String),
}

/// The mathematical content of a [`HandlerOutcome`].
pub enum OutcomeView {
    Success(PayloadView),
    Failure(Seq<char>),
}

impl View for HandlerOutcome {
    type V = OutcomeView;

    open spec fn view(&self) -> OutcomeView {
        match self {
            HandlerOutcome::Success(payload) => OutcomeView::Success(payload@),
            HandlerOutcome::Failure(message) => OutcomeView::Failure(message@),
        }
    }
}

/// The values that carry a tagged result across the boundary.
pub open spec fn slots_of(tagged: TaggedView) -> Seq<ValueView> {
    match tagged {
        TaggedView::Success(value) => seq![value],
        TaggedView::Failure(message) => seq![ValueView::Nil, ValueView::Text(message)],
    }
}

/// The tagged result that a list of values carries. One value is a
/// success. Two values are a failure if they are `Nil` and a text, in this
/// order. Every other list breaks the convention.
pub open spec fn tagged_of(values: Seq<ValueView>) -> Result<TaggedView, MarshalError>
    recommends
        values.len() > 0,
{
    if values.len() == 1 {
        Ok(TaggedView::Success(values[0]))
    } else if values.len() == 2 {
        if values[0] == ValueView::Nil {
            match values[1] {
                ValueView::Text(message) => Ok(TaggedView::Failure(message)),
                _ => Err(MarshalError::MessageNotText),
            }
        } else {
            Err(MarshalError::MultipleValues)
        }
    } else {
        Err(MarshalError::TooManyValues)
    }
}

/// The outcome that a handler's returned values stand for: the tagged
/// result they carry, with a success value read as a payload.
pub open spec fn outcome_of(values: Seq<ValueView>) -> Result<OutcomeView, MarshalError>
    recommends
        values.len() > 0,
{
    match tagged_of(values) {
        Ok(TaggedView::Success(value)) => match payload_of(value) {
            Ok(payload) => Ok(OutcomeView::Success(payload)),
            Err(error) => Err(MarshalError::Payload(error)),
        },
        Ok(TaggedView::Failure(message)) => Ok(OutcomeView::Failure(message)),
        Err(error) => Err(error),
    }
}

impl MarshalError {
    /// The text of this error.
    pub open spec fn text(self) -> Seq<char> {
        match self {
            MarshalError::MultipleValues => "Multiple values not supported"@,
            MarshalError::TooManyValues => "Too many values"@,
            MarshalError::MessageNotText => "Error message is not a text"@,
            MarshalError::Payload(PayloadError::NotARecord) => "Payload is not a record"@,
            MarshalError::Payload(PayloadError::NameMissing) => "Payload has no name"@,
            MarshalError::Payload(PayloadError::NameNotText) => "Payload name is not a text"@,
            MarshalError::Payload(PayloadError::FilterNotBoolean) => "Payload filter is not a boolean"@,
        }
    }

    /// This error in words, for whoever reports it.
    pub fn message(&self) -> (message: String)
        ensures
            message@ == self.text(),
    {
        match self {
            MarshalError::MultipleValues => String::from_str("Multiple values not supported"),
            MarshalError::TooManyValues => String::from_str("Too many values"),
            MarshalError::MessageNotText => String::from_str("Error message is not a text"),
            MarshalError::Payload(PayloadError::NotARecord) => String::from_str("Payload is not a record"),
            MarshalError::Payload(PayloadError::NameMissing) => String::from_str("Payload has no name"),
            MarshalError::Payload(PayloadError::NameNotText) => String::from_str("Payload name is not a text"),
            MarshalError::Payload(PayloadError::FilterNotBoolean) => String::from_str(
                "Payload filter is not a boolean",
            ),
        }
    }
}

impl TaggedResult {
    /// Lays the result out as the values that cross the boundary.
    pub fn into_values(self) -> (values: Vec<ScriptValue>)
        ensures
            views(values@) == slots_of(self@),
    {
        let mut values: Vec<ScriptValue> = Vec::new();
        match self {
            TaggedResult::Success(value) => {
                values.push(value);
            },
            TaggedResult::Failure(message) => {
                values.push(ScriptValue::Nil);
                values.push(ScriptValue::Text(message));
            },
        }
        assert(views(values@) =~= slots_of(self@));
        values
    }

    /// Reads the result that `values` carry, or says how they break the
    /// convention. A callable returns at least one value, so an empty list
    /// is no input.
    pub fn from_values(values: Vec<ScriptValue>) -> (tagged: Result<TaggedResult, MarshalError>)
        requires
            values.len() > 0,
        ensures
            match tagged {
                Ok(result) => tagged_of(views(values@)) == Ok::<TaggedView, MarshalError>(result@),
                Err(error) => tagged_of(views(values@)) == Err::<TaggedView, MarshalError>(error),
            },
    {
        let mut values = values;
        let ghost given = views(values@);
        let count = values.len();
        if count == 1 {
            let value = values.remove(0);
            assert(value@ == given[0]);
            Ok(TaggedResult::Success(value))
        } else if count == 2 {
            let second = values.remove(1);
            assert(second@ == given[1]);
            assert(values@[0]@ == given[0]);
            if values[0].is_nil() {
                match second {
                    ScriptValue::Text(message) => Ok(TaggedResult::Failure(message)),
                    _ => Err(MarshalError::MessageNotText),
                }
            } else {
                Err(MarshalError::MultipleValues)
            }
        } else {
            Err(MarshalError::TooManyValues)
        }
    }
}

/// Reads what a handler returned: the outcome, or the way in which the
/// returned values break the convention.
pub fn decode_response(values: Vec<ScriptValue>) -> (decoded: Result<HandlerOutcome, MarshalError>)
    requires
        values.len() > 0,
    ensures
        match decoded {
            Ok(outcome) => outcome_of(views(values@)) == Ok::<OutcomeView, MarshalError>(outcome@),
            Err(error) => outcome_of(views(values@)) == Err::<OutcomeView, MarshalError>(error),
        },
{
    match TaggedResult::from_values(values) {
        Ok(TaggedResult::Success(value)) => match decode_payload(&value) {
            Ok(payload) => Ok(HandlerOutcome::Success(payload)),
            Err(error) => Err(MarshalError::Payload(error)),
        },
        Ok(TaggedResult::Failure(message)) => Ok(HandlerOutcome::Failure(message)),
        Err(error) => Err(error),
    }
}

/// Every tagged result survives the boundary: reading the values it was
/// laid out as gives it back.
pub proof fn lemma_tagged_round_trip(tagged: TaggedView)
    ensures
        tagged_of(slots_of(tagged)) == Ok::<TaggedView, MarshalError>(tagged),
{
}

/// Every payload survives the boundary: a handler that returns the request
/// it was given, as its one value, has returned that payload.
pub proof fn lemma_success_round_trip(payload: PayloadView)
    ensures
        outcome_of(seq![request_of(payload)]) == Ok::<OutcomeView, MarshalError>(
            OutcomeView::Success(payload),
        ),
{
    lemma_payload_round_trip(payload);
}

/// Two values of which the first is not `Nil` are never read as an
/// outcome: they are the error `MultipleValues`.
pub proof fn lemma_two_values_need_nil(first: ValueView, second: ValueView)
    requires
        first != ValueView::Nil,
    ensures
        outcome_of(seq![first, second]) == Err::<OutcomeView, MarshalError>(
            MarshalError::MultipleValues,
        ),
{
}

} // verus!
