//! Handler declarations: what an entry of a script module must hold to
//! declare a handler, and what is made of it.

use vstd::prelude::*;
use crate::value::{CallableRef, ScriptValue, ValueView};

verus! {

/// The priority of a declaration that names none, or none that is an
/// integer between 0 and 255.
pub const DEFAULT_PRIORITY: u8 = 50;

/// One handler of one event. Handlers with a higher priority run earlier.
#[derive(Debug, PartialEq, Eq)]
pub struct HandlerDescriptor {
    pub event_name: String,
    pub priority: u8,
    pub callable: CallableRef,
}

/// The mathematical content of a [`HandlerDescriptor`].
pub struct DescriptorView {
    pub event_name: Seq<char>,
    pub priority: u8,
    pub callable: CallableRef,
}

impl View for HandlerDescriptor {
    type V = DescriptorView;

    open spec fn view(&self) -> DescriptorView {
        DescriptorView {
            event_name: self.event_name@,
            priority: self.priority,
            callable: self.callable,
        }
    }
}

impl Clone for HandlerDescriptor {
    fn clone(&self) -> (copy: HandlerDescriptor)
        ensures
            copy == *self,
    {
        HandlerDescriptor {
            event_name: self.event_name.clone(),
            priority: self.priority,
            callable: self.callable,
        }
    }
}

/// The contents of a list of descriptors.
pub open spec fn descriptor_views(handlers: Seq<HandlerDescriptor>) -> Seq<DescriptorView> {
    Seq::new(handlers.len(), |i: int| handlers[i]@)
}

/// Why an entry that declares a handler is refused.
#[derive(Clone, Copy, Debug, PartialEq, Eq, Structural)]
pub enum DeclarationError {
    /// `event` is there and is no text.
    EventNotText,
    /// `impl` is there and cannot be called.
    ImplNotCallable,
}

/// The key of a declaration's event name.
pub open spec fn event_key() -> Seq<char> {
    "event"@
}

/// The key of a declaration's callable.
pub open spec fn impl_key() -> Seq<char> {
    "impl"@
}

/// The key of a declaration's priority.
pub open spec fn priority_key() -> Seq<char> {
    "priority"@
}

/// The priority that the field `priority` of a declaration stands for.
pub open spec fn priority_of(field: ValueView) -> u8 {
    match field {
        ValueView::Integer(n) => if 0 <= n <= 255 {
            n as u8
        } else {
            DEFAULT_PRIORITY
        },
        _ => DEFAULT_PRIORITY,
    }
}

/// What an entry of a module declares. An entry without `event` or
/// without `impl` declares nothing, whatever else it holds. One with both
/// declares a handler, and is refused if the event's name is no text or
/// the implementation no callable; the name is looked at first.
pub open spec fn declaration(entry: ValueView) -> Result<Option<DescriptorView>, DeclarationError> {
    let event = entry.field(event_key());
    let implementation = entry.field(impl_key());
    if event == ValueView::Nil || implementation == ValueView::Nil {
        Ok(None)
    } else {
        match event {
            ValueView::Text(event_name) => match implementation {
                ValueView::Callable(callable) => Ok(
                    Some(
                        DescriptorView {
                            event_name,
                            priority: priority_of(entry.field(priority_key())),
                            callable,
                        },
                    ),
                ),
                _ => Err(DeclarationError::ImplNotCallable),
            },
            _ => Err(DeclarationError::EventNotText),
        }
    }
}

/// Reads the priority out of the field `priority` of a declaration.
pub fn read_priority(field: Option<&ScriptValue>) -> (priority: u8)
    ensures
        priority == priority_of(
            match field {
                Some(value) => value@,
                None => ValueView::Nil,
            },
        ),
{
    match field {
        Some(ScriptValue::Integer(n)) => {
            if 0 <= *n && *n <= 255 {
                *n as u8
            } else {
                DEFAULT_PRIORITY
            }
        },
        _ => DEFAULT_PRIORITY,
    }
}

/// Inspects one entry of a module: a handler's descriptor, nothing, or
/// the reason why the entry is refused.
pub fn scan_entry(entry: &ScriptValue) -> (scanned: Result<Option<HandlerDescriptor>, DeclarationError>)
    ensures
        match scanned {
            Ok(Some(descriptor)) => declaration(entry@) == Ok::<
                Option<DescriptorView>,
                DeclarationError,
            >(Some(descriptor@)),
            Ok(None) => declaration(entry@) == Ok::<Option<DescriptorView>, DeclarationError>(None),
            Err(error) => declaration(entry@) == Err::<Option<DescriptorView>, DeclarationError>(
                error,
            ),
        },
{
    let event = match entry.field("event") {
        Some(ScriptValue::Nil) | None => {
            return Ok(None);
        },
        Some(value) => value,
    };
    let implementation = match entry.field("impl") {
        Some(ScriptValue::Nil) | None => {
            return Ok(None);
        },
        Some(value) => value,
    };
    let priority = read_priority(entry.field("priority"));
    let event_name = match event {
        ScriptValue::Text(name) => name.clone(),
        _ => {
            return Err(DeclarationError::EventNotText);
        },
    };
    match implementation {
        ScriptValue::Callable(callable) => Ok(
            Some(HandlerDescriptor { event_name, priority, callable: *callable }),
        ),
        _ => Err(DeclarationError::ImplNotCallable),
    }
}

/// Why a module could not be loaded.
#[derive(Clone, Copy, Debug, PartialEq, Eq, Structural)]
pub enum LoadFailure {
    /// The module's source did not evaluate to a collection of entries.
    MalformedSource,
    /// The entry at this position, counted from 0, has an `event` that is
    /// no text.
    EventNotText(usize),
    /// The entry at this position, counted from 0, has an `impl` that
    /// cannot be called.
    ImplNotCallable(usize),
}

/// The failure that refusing the entry at `position` amounts to.
pub open spec fn failure_at(error: DeclarationError, position: int) -> LoadFailure {
    match error {
        DeclarationError::EventNotText => LoadFailure::EventNotText(position as usize),
        DeclarationError::ImplNotCallable => LoadFailure::ImplNotCallable(position as usize),
    }
}

/// The handlers that a list of entries declares, in the order of the
/// entries, or the failure of the first entry that is refused.
pub open spec fn scan(entries: Seq<ValueView>) -> Result<Seq<DescriptorView>, LoadFailure>
    decreases entries.len(),
{
    if entries.len() == 0 {
        Ok(Seq::empty())
    } else {
        match scan(entries.drop_last()) {
            Err(failure) => Err(failure),
            Ok(found) => match declaration(entries.last()) {
                Ok(Some(descriptor)) => Ok(found.push(descriptor)),
                Ok(None) => Ok(found),
                Err(error) => Err(failure_at(error, entries.len() - 1)),
            },
        }
    }
}

/// The handler that an entry adds to those found, if it adds one.
pub open spec fn declared_handler() -> spec_fn(ValueView) -> Option<DescriptorView> {
    |entry: ValueView|
        match declaration(entry) {
            Ok(Some(descriptor)) => Some(descriptor),
            _ => None,
        }
}

/// Where no entry is refused, the handlers found are those that the
/// entries declare, in the order of the entries.
pub proof fn lemma_scan_finds_what_is_declared(entries: Seq<ValueView>)
    ensures
        scan(entries) matches Ok(found) ==> found == entries.filter_map(declared_handler()),
    decreases entries.len(),
{
    if entries.len() > 0 {
        lemma_scan_finds_what_is_declared(entries.drop_last());
    }
}

/// Where a list of entries is refused, it is for the first entry that is
/// refused; where it is not, no entry is refused.
pub proof fn lemma_scan_first_refusal(entries: Seq<ValueView>)
    ensures
        match scan(entries) {
            Ok(_) => forall|k: int| 0 <= k < entries.len() ==> declaration(#[trigger] entries[k]) is Ok,
            Err(failure) => exists|k: int|
                {
                    &&& 0 <= k < entries.len()
                    &&& #[trigger] declaration(entries[k]) matches Err(error)
                    &&& failure == failure_at(error, k)
                    &&& forall|j: int| 0 <= j < k ==> declaration(#[trigger] entries[j]) is Ok
                },
        },
    decreases entries.len(),
{
    if entries.len() > 0 {
        let front = entries.drop_last();
        lemma_scan_first_refusal(front);
        match scan(front) {
            Ok(_) => {
                assert forall|k: int| 0 <= k < front.len() implies declaration(
                    #[trigger] entries[k],
                ) is Ok by {
                    assert(entries[k] == front[k]);
                }
                if declaration(entries.last()) is Err {
                    let k = entries.len() - 1;
                    assert(declaration(entries[k]) is Err);
                }
            },
            Err(failure) => {
                let k = choose|k: int|
                    {
                        &&& 0 <= k < front.len()
                        &&& #[trigger] declaration(front[k]) matches Err(error)
                        &&& failure == failure_at(error, k)
                        &&& forall|j: int| 0 <= j < k ==> declaration(#[trigger] front[j]) is Ok
                    };
                assert(entries[k] == front[k]);
                assert forall|j: int| 0 <= j < k implies declaration(#[trigger] entries[j]) is Ok by {
                    assert(entries[j] == front[j]);
                }
            },
        }
    }
}

/// A refusal among the first entries of a list is the refusal of the
/// whole list.
pub(crate) proof fn lemma_scan_prefix(entries: Seq<ValueView>, n: int)
    requires
        0 <= n <= entries.len(),
    ensures
        scan(entries.take(n)) matches Err(failure) ==> scan(entries) == Err::<
            Seq<DescriptorView>,
            LoadFailure,
        >(failure),
    decreases entries.len() - n,
{
    if n < entries.len() {
        lemma_scan_prefix(entries, n + 1);
        assert(entries.take(n + 1).drop_last() =~= entries.take(n));
    } else {
        assert(entries.take(n) =~= entries);
    }
}

} // verus!
