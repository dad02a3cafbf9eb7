//! Firing an event: the payload goes through the handlers one after the
//! other, and a handler that fails is passed over.
//!
//! The calls themselves are the embedder's: a [`Firing`] says which
//! callable to invoke next and with what, and takes what it returned.

use vstd::prelude::*;
use crate::declaration::{descriptor_views, DescriptorView, HandlerDescriptor};
use crate::marshal::{decode_response, outcome_of, HandlerOutcome, MarshalError, OutcomeView};
use crate::order::non_increasing;
use crate::payload::{encode_request, request_of, EventPayload, PayloadView};
use crate::registry::Registry;
use crate::value::{views, CallableRef, ScriptValue};

verus! {

/// The payload after one handler: what the handler returned, or the
/// payload it was given if it failed.
pub open spec fn apply(current: PayloadView, outcome: OutcomeView) -> PayloadView {
    match outcome {
        OutcomeView::Success(payload) => payload,
        OutcomeView::Failure(_) => current,
    }
}

/// The payload after a run of handlers with these outcomes, in this
/// order, that began with `initial`.
pub open spec fn run(initial: PayloadView, outcomes: Seq<OutcomeView>) -> PayloadView
    decreases outcomes.len(),
{
    if outcomes.len() == 0 {
        initial
    } else {
        apply(run(initial, outcomes.drop_last()), outcomes.last())
    }
}

/// The failures that a run of handlers with these outcomes reports: the
/// message of every handler that failed, in the order of the handlers.
pub open spec fn reports(outcomes: Seq<OutcomeView>) -> Seq<Seq<char>>
    decreases outcomes.len(),
{
    if outcomes.len() == 0 {
        Seq::empty()
    } else {
        match outcomes.last() {
            OutcomeView::Success(_) => reports(outcomes.drop_last()),
            OutcomeView::Failure(message) => reports(outcomes.drop_last()).push(message),
        }
    }
}

/// The contents of a list of texts.
pub open spec fn text_views(texts: Seq<String>) -> Seq<Seq<char>> {
    Seq::new(texts.len(), |i: int| texts[i]@)
}

/// What there is to know of an event that is being fired.
pub struct FiringView {
    /// The handlers of the event, in the order in which they run.
    pub handlers: Seq<DescriptorView>,
    /// The payload that the event was fired with.
    pub initial: PayloadView,
    /// The outcomes of the handlers that have run.
    pub outcomes: Seq<OutcomeView>,
}

impl FiringView {
    /// The payload that the handler at `position` is given, or, behind
    /// the last handler, the payload that the event ends with.
    pub open spec fn passed_to(self, position: int) -> PayloadView
        recommends
            0 <= position <= self.outcomes.len(),
    {
        run(self.initial, self.outcomes.take(position))
    }

    /// The payload as it stands.
    pub open spec fn current(self) -> PayloadView {
        run(self.initial, self.outcomes)
    }

    /// The failures reported so far.
    pub open spec fn reported(self) -> Seq<Seq<char>> {
        reports(self.outcomes)
    }

    /// Whether every handler has run.
    pub open spec fn finished(self) -> bool {
        self.outcomes.len() == self.handlers.len()
    }

    /// Whether no more handlers have run than the event has.
    pub open spec fn valid(self) -> bool {
        self.outcomes.len() <= self.handlers.len()
    }
}

/// Whether a handler failed.
pub open spec fn failed() -> spec_fn(OutcomeView) -> bool {
    |outcome: OutcomeView| outcome is Failure
}

/// An event without handlers ends at once, with the payload it was fired
/// with.
pub proof fn lemma_no_handlers_is_identity(firing: FiringView)
    requires
        firing.valid(),
        firing.handlers.len() == 0,
    ensures
        firing.finished(),
        firing.current() == firing.initial,
{
}

/// Where every handler succeeds, the event ends with the payload that
/// the last handler returned.
pub proof fn lemma_all_succeed(firing: FiringView)
    requires
        firing.valid(),
        firing.finished(),
        firing.handlers.len() > 0,
        forall|k: int| 0 <= k < firing.outcomes.len() ==> firing.outcomes[k] is Success,
    ensures
        firing.current() == firing.outcomes.last()->Success_0,
{
}

/// A handler that succeeds hands the payload it returned to the next
/// handler, and reports nothing.
pub proof fn lemma_success_replaces_payload(firing: FiringView, position: int)
    requires
        0 <= position < firing.outcomes.len(),
        firing.outcomes[position] is Success,
    ensures
        firing.passed_to(position + 1) == firing.outcomes[position]->Success_0,
        reports(firing.outcomes.take(position + 1)) == reports(firing.outcomes.take(position)),
{
    assert(firing.outcomes.take(position + 1).drop_last() =~= firing.outcomes.take(position));
}

/// A handler that fails changes nothing: the next handler is given the
/// payload that the failed one was given. Its message is added to the
/// reports, once.
pub proof fn lemma_failure_keeps_payload(firing: FiringView, position: int)
    requires
        0 <= position < firing.outcomes.len(),
        firing.outcomes[position] is Failure,
    ensures
        firing.passed_to(position + 1) == firing.passed_to(position),
        reports(firing.outcomes.take(position + 1)) == reports(
            firing.outcomes.take(position),
        ).push(firing.outcomes[position]->Failure_0),
{
    assert(firing.outcomes.take(position + 1).drop_last() =~= firing.outcomes.take(position));
}

/// The payload after a run is what the last handler that succeeded
/// returned, and the payload that the run began with if none succeeded.
pub proof fn lemma_run_ends_with_last_success(initial: PayloadView, outcomes: Seq<OutcomeView>)
    ensures
        (forall|k: int| 0 <= k < outcomes.len() ==> outcomes[k] is Failure) ==> run(
            initial,
            outcomes,
        ) == initial,
        forall|k: int|
            0 <= k < outcomes.len() && #[trigger] outcomes[k] is Success && (forall|j: int|
                k < j < outcomes.len() ==> outcomes[j] is Failure) ==> run(initial, outcomes)
                == outcomes[k]->Success_0,
    decreases outcomes.len(),
{
    if outcomes.len() > 0 {
        let front = outcomes.drop_last();
        lemma_run_ends_with_last_success(initial, front);
        assert forall|k: int|
            0 <= k < outcomes.len() && #[trigger] outcomes[k] is Success && (forall|j: int|
                k < j < outcomes.len() ==> outcomes[j] is Failure) implies run(initial, outcomes)
            == outcomes[k]->Success_0 by {
            if k < front.len() {
                assert(front[k] == outcomes[k]);
                assert(outcomes[outcomes.len() - 1] is Failure);
                assert forall|j: int| k < j < front.len() implies front[j] is Failure by {
                    assert(front[j] == outcomes[j]);
                }
            }
        }
        if forall|k: int| 0 <= k < outcomes.len() ==> outcomes[k] is Failure {
            assert forall|k: int| 0 <= k < front.len() implies front[k] is Failure by {
                assert(front[k] == outcomes[k]);
            }
            assert(outcomes[outcomes.len() - 1] is Failure);
        }
    }
}

/// There are as many reports as handlers that failed.
pub proof fn lemma_one_report_per_failure(outcomes: Seq<OutcomeView>)
    ensures
        reports(outcomes).len() == outcomes.filter(failed()).len(),
    decreases outcomes.len(),
{
    reveal(Seq::filter);
    if outcomes.len() > 0 {
        lemma_one_report_per_failure(outcomes.drop_last());
    }
}

/// What the embedder is to do next.
#[derive(Debug, PartialEq, Eq)]
pub enum Action {
    /// Call this callable with this request, wait for it to return, and
    /// hand the returned values to [`Firing::resume`].
    Invoke { callable: CallableRef, request: ScriptValue },
    /// No handler is left: this is the payload that the event ends with.
    Finish(EventPayload),
}

/// An event that is being fired.
pub struct Firing {
    handlers: Vec<HandlerDescriptor>,
    position: usize,
    payload: EventPayload,
    failures: Vec<String>,
    state: Ghost<FiringView>,
}

impl View for Firing {
    type V = FiringView;

    closed spec fn view(&self) -> FiringView {
        self.state@
    }
}

impl Firing {
    /// Whether the firing is in a state that firing an event leads to.
    pub closed spec fn wf(&self) -> bool {
        &&& descriptor_views(self.handlers@) == self@.handlers
        &&& self.position == self@.outcomes.len()
        &&& self.position <= self.handlers.len()
        &&& self.payload@ == self@.current()
        &&& text_views(self.failures@) == self@.reported()
    }

    /// A firing that is well formed has run no more handlers than the
    /// event has.
    pub proof fn lemma_wf_is_valid(&self)
        requires
            self.wf(),
        ensures
            self@.valid(),
    {
    }

    /// What is to be done next: the call of the handler whose turn it is,
    /// with the payload as it stands, or nothing more.
    pub fn next(&self) -> (action: Action)
        requires
            self.wf(),
        ensures
            match action {
                Action::Invoke { callable, request } => {
                    &&& !self@.finished()
                    &&& callable == self@.handlers[self@.outcomes.len() as int].callable
                    &&& request@ == request_of(self@.current())
                },
                Action::Finish(payload) => self@.finished() && payload@ == self@.current(),
            },
    {
        if self.position < self.handlers.len() {
            Action::Invoke {
                callable: self.handlers[self.position].callable,
                request: encode_request(&self.payload),
            }
        } else {
            Action::Finish(self.payload.clone())
        }
    }

    /// Takes what the handler whose turn it was returned. If the values
    /// are an outcome, the handler has run: a success replaces the
    /// payload, a failure leaves it as it was and is reported, here and
    /// in [`Firing::failures`]. If they break the convention, nothing
    /// changes and the error says how.
    pub fn resume(&mut self, returned: Vec<ScriptValue>) -> (report: Result<
        Option<String>,
        MarshalError,
    >)
        requires
            old(self).wf(),
            !old(self)@.finished(),
            returned.len() > 0,
        ensures
            final(self).wf(),
            final(self)@.handlers == old(self)@.handlers,
            final(self)@.initial == old(self)@.initial,
            match outcome_of(views(returned@)) {
                Ok(outcome) => {
                    &&& final(self)@.outcomes == old(self)@.outcomes.push(outcome)
                    &&& match outcome {
                        OutcomeView::Success(_) => report == Ok::<Option<String>, MarshalError>(
                            None,
                        ),
                        OutcomeView::Failure(message) => report matches Ok(Some(text)) && text@
                            == message,
                    }
                },
                Err(error) => {
                    &&& final(self)@.outcomes == old(self)@.outcomes
                    &&& report == Err::<Option<String>, MarshalError>(error)
                },
            },
    {
        let ghost before = self@;
        match decode_response(returned) {
            Ok(HandlerOutcome::Success(payload)) => {
                proof {
                    let outcome = OutcomeView::Success(payload@);
                    assert(before.outcomes.push(outcome).drop_last() =~= before.outcomes);
                }
                self.state = Ghost(
                    FiringView {
                        outcomes: before.outcomes.push(OutcomeView::Success(payload@)),
                        ..before
                    },
                );
                self.payload = payload;
                self.position = self.position + 1;
                Ok(None)
            },
            Ok(HandlerOutcome::Failure(message)) => {
                proof {
                    let outcome = OutcomeView::Failure(message@);
                    assert(before.outcomes.push(outcome).drop_last() =~= before.outcomes);
                }
                let ghost reported = text_views(self.failures@);
                self.state = Ghost(
                    FiringView {
                        outcomes: before.outcomes.push(OutcomeView::Failure(message@)),
                        ..before
                    },
                );
                self.failures.push(message.clone());
                assert(text_views(self.failures@) =~= reported.push(message@));
                self.position = self.position + 1;
                Ok(Some(message))
            },
            Err(error) => Err(error),
        }
    }

    /// The failures reported so far, in the order of the handlers.
    pub fn failures(&self) -> (failures: &Vec<String>)
        requires
            self.wf(),
        ensures
            text_views(failures@) == self@.reported(),
    {
        &self.failures
    }
}

impl Registry {
    /// Begins to fire the event `event_name` with the payload `initial`:
    /// no handler has run yet, and the handlers that will run are those
    /// registered for the event, in the registry's order.
    pub fn fire(&self, event_name: &str, initial: EventPayload) -> (firing: Firing)
        ensures
            firing.wf(),
            firing@.handlers == self.handlers(event_name@),
            non_increasing(firing@.handlers),
            firing@.initial == initial@,
            firing@.outcomes == Seq::<OutcomeView>::empty(),
    {
        let handlers = self.handlers_for(event_name);
        let ghost state = FiringView {
            handlers: descriptor_views(handlers@),
            initial: initial@,
            outcomes: Seq::empty(),
        };
        let firing = Firing {
            handlers,
            position: 0,
            payload: initial,
            failures: Vec::new(),
            state: Ghost(state),
        };
        assert(text_views(firing.failures@) =~= Seq::<Seq<char>>::empty());
        firing
    }
}

} // verus!
