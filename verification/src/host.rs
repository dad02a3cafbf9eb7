//! The host's own handling of an event, and the capability that scripts
//! may call back into.

use vstd::prelude::*;
use crate::marshal::{slots_of, TaggedResult, TaggedView};
use crate::payload::{decode_payload, payload_of, EventPayload, PayloadError};
use crate::value::{views, ScriptValue, ValueView};

verus! {

/// A failure of the host's own logic. It is the caller's to deal with: the
/// pipeline never sees it.
#[derive(Debug, PartialEq, Eq)]
pub struct HostError {
    pub message: String,
}

/// The terminal step of an event: what the host does with the payload
/// once the handlers are through with it.
pub trait Handler {
    /// Resolves the user that `args` names to an identifier.
    fn get_user_impl(&self, args: EventPayload) -> Result<String, HostError>;
}

/// The host object that is handed to every script handler.
#[derive(Clone, Copy, Debug)]
pub struct PluginHandler;

impl Handler for PluginHandler {
    /// The identifier of a user is the name that was asked for. This
    /// lookup has no backend that could fail.
    fn get_user_impl(&self, args: EventPayload) -> (resolved: Result<String, HostError>)
        ensures
            resolved matches Ok(id) && id == args.name,
    {
        Ok(args.name)
    }
}

/// What the host's answer looks like to a script: the identifier, or the
/// error's message as a failure.
pub open spec fn answer_of(resolved: Result<Seq<char>, Seq<char>>) -> TaggedView {
    match resolved {
        Ok(id) => TaggedView::Success(ValueView::Text(id)),
        Err(message) => TaggedView::Failure(message),
    }
}

/// Tags the host's answer for the way back to the script.
pub fn tag_answer(resolved: Result<String, HostError>) -> (tagged: TaggedResult)
    ensures
        tagged@ == answer_of(
            match resolved {
                Ok(id) => Ok(id@),
                Err(error) => Err(error.message@),
            },
        ),
{
    match resolved {
        Ok(id) => TaggedResult::Success(ScriptValue::Text(id)),
        Err(error) => TaggedResult::Failure(error.message),
    }
}

impl PluginHandler {
    /// The capability `get_user`, as a script calls it: the argument is
    /// read as a payload, the user is resolved, and the answer goes back
    /// as the values of a tagged result. An argument that is no payload is
    /// refused and nothing is resolved.
    pub fn get_user(&self, request: &ScriptValue) -> (reply: Result<Vec<ScriptValue>, PayloadError>)
        ensures
            match payload_of(request@) {
                Ok(payload) => reply matches Ok(values) && views(values@) == slots_of(
                    answer_of(Ok(payload.name)),
                ),
                Err(error) => reply == Err::<Vec<ScriptValue>, PayloadError>(error),
            },
    {
        match decode_payload(request) {
            Ok(args) => {
                let resolved = self.get_user_impl(args);
                Ok(tag_answer(resolved).into_values())
            },
            Err(error) => Err(error),
        }
    }
}

} // verus!
