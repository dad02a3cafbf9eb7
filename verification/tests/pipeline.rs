use plugin_pipeline::host::{Handler, PluginHandler};
use plugin_pipeline::marshal::MarshalError;
use plugin_pipeline::payload::{decode_payload, encode_request, EventPayload, PayloadError};
use plugin_pipeline::pipeline::{Action, Firing};
use plugin_pipeline::registry::{load_plugins, Module, Registry};
use plugin_pipeline::value::{CallableRef, Field, ScriptValue};

fn text(s: &str) -> ScriptValue {
    ScriptValue::Text(s.to_string())
}

fn declare(event: &str, callable: u64, priority: Option<i64>) -> ScriptValue {
    let mut fields = vec![
        Field { key: "event".to_string(), value: text(event) },
        Field { key: "impl".to_string(), value: ScriptValue::Callable(CallableRef(callable)) },
    ];
    if let Some(priority) = priority {
        fields.push(Field { key: "priority".to_string(), value: ScriptValue::Integer(priority) });
    }
    ScriptValue::Record(fields)
}

fn registry_of(entries: Vec<ScriptValue>) -> Registry {
    match load_plugins(&vec![Module { path: "lua/test.lua".to_string(), entries: Some(entries) }]) {
        Ok(registry) => registry,
        Err(error) => panic!("{:?}", error),
    }
}

/// What a script would do that appends `suffix` to the name it is given.
fn append(request: &ScriptValue, suffix: &str) -> Vec<ScriptValue> {
    let payload = match decode_payload(request) {
        Ok(payload) => payload,
        Err(error) => panic!("{:?}", error),
    };
    vec![encode_request(&EventPayload::new(format!("{}{}", payload.name, suffix), payload.filter))]
}

fn fail(message: &str) -> Vec<ScriptValue> {
    vec![ScriptValue::Nil, text(message)]
}

/// Runs a firing to its end; handler `n` is played by `script(n, request)`.
fn drive(firing: &mut Firing, script: &dyn Fn(u64, &ScriptValue) -> Vec<ScriptValue>) -> (EventPayload, Vec<u64>) {
    let mut invoked = Vec::new();
    loop {
        match firing.next() {
            Action::Invoke { callable, request } => {
                invoked.push(callable.0);
                let returned = script(callable.0, &request);
                assert!(!returned.is_empty());
                if let Err(error) = firing.resume(returned) {
                    panic!("{:?}", error);
                }
            }
            Action::Finish(payload) => return (payload, invoked),
        }
    }
}

#[test]
fn event_without_handlers_is_the_identity() {
    let registry = registry_of(vec![declare("on_other", 1, None)]);
    for (name, filter) in [("custom_uid", false), ("", true)] {
        let firing = registry.fire("on_get_user", EventPayload::new(name.to_string(), filter));
        assert_eq!(firing.next(), Action::Finish(EventPayload::new(name.to_string(), filter)));
        assert!(firing.failures().is_empty());
    }
    let empty = Registry::new();
    let firing = empty.fire("on_get_user", EventPayload::new("custom_uid".to_string(), false));
    assert_eq!(firing.next(), Action::Finish(EventPayload::new("custom_uid".to_string(), false)));
}

#[test]
fn two_handlers_run_by_priority() {
    let registry = registry_of(vec![declare("on_get_user", 2, Some(20)), declare("on_get_user", 1, Some(80))]);
    let mut firing = registry.fire("on_get_user", EventPayload::new("custom_uid".to_string(), false));
    let (payload, invoked) = drive(&mut firing, &|callable, request| {
        append(request, if callable == 1 { "_a" } else { "_b" })
    });
    assert_eq!(invoked, vec![1, 2]);
    assert_eq!(payload, EventPayload::new("custom_uid_a_b".to_string(), false));
    assert!(firing.failures().is_empty());
    assert_eq!(PluginHandler.get_user_impl(payload), Ok("custom_uid_a_b".to_string()));
}

#[test]
fn failed_handler_is_passed_over() {
    let registry = registry_of(vec![declare("on_get_user", 2, Some(20)), declare("on_get_user", 1, Some(80))]);
    let mut firing = registry.fire("on_get_user", EventPayload::new("custom_uid".to_string(), false));
    let (payload, invoked) = drive(&mut firing, &|callable, request| {
        if callable == 1 {
            fail("boom")
        } else {
            append(request, "_b")
        }
    });
    assert_eq!(invoked, vec![1, 2]);
    assert_eq!(payload, EventPayload::new("custom_uid_b".to_string(), false));
    assert_eq!(firing.failures(), &vec!["boom".to_string()]);
    assert_eq!(PluginHandler.get_user_impl(payload), Ok("custom_uid_b".to_string()));
}

#[test]
fn failure_leaves_the_request_as_it_was() {
    let registry = registry_of(vec![
        declare("on_get_user", 1, Some(90)),
        declare("on_get_user", 2, Some(80)),
        declare("on_get_user", 3, Some(70)),
    ]);
    let mut firing = registry.fire("on_get_user", EventPayload::new("uid".to_string(), true));

    let Action::Invoke { callable, request } = firing.next() else { panic!("a handler is due") };
    assert_eq!(callable, CallableRef(1));
    assert_eq!(request, encode_request(&EventPayload::new("uid".to_string(), true)));
    assert_eq!(firing.resume(append(&request, "_x")), Ok(None));

    let Action::Invoke { callable, request: given_to_failed } = firing.next() else { panic!("a handler is due") };
    assert_eq!(callable, CallableRef(2));
    assert_eq!(given_to_failed, encode_request(&EventPayload::new("uid_x".to_string(), true)));
    assert_eq!(firing.resume(fail("no luck")), Ok(Some("no luck".to_string())));
    assert_eq!(firing.failures(), &vec!["no luck".to_string()]);

    let Action::Invoke { callable, request: given_to_next } = firing.next() else { panic!("a handler is due") };
    assert_eq!(callable, CallableRef(3));
    assert_eq!(given_to_next, given_to_failed);
    assert_eq!(firing.resume(append(&given_to_next, "_z")), Ok(None));

    assert_eq!(firing.next(), Action::Finish(EventPayload::new("uid_x_z".to_string(), true)));
    assert_eq!(firing.failures(), &vec!["no luck".to_string()]);
}

#[test]
fn every_failure_is_reported_once_and_in_order() {
    let registry = registry_of(vec![
        declare("e", 1, Some(3)),
        declare("e", 2, Some(2)),
        declare("e", 3, Some(1)),
    ]);
    let mut firing = registry.fire("e", EventPayload::new("uid".to_string(), false));
    let (payload, invoked) = drive(&mut firing, &|callable, request| match callable {
        1 => fail("first"),
        2 => append(request, "_ok"),
        _ => fail("third"),
    });
    assert_eq!(invoked, vec![1, 2, 3]);
    assert_eq!(payload, EventPayload::new("uid_ok".to_string(), false));
    assert_eq!(firing.failures(), &vec!["first".to_string(), "third".to_string()]);
}

#[test]
fn all_handlers_failing_leaves_the_initial_payload() {
    let registry = registry_of(vec![declare("e", 1, None), declare("e", 2, None)]);
    let mut firing = registry.fire("e", EventPayload::new("uid".to_string(), true));
    let (payload, invoked) = drive(&mut firing, &|_, _| fail("down"));
    assert_eq!(invoked, vec![1, 2]);
    assert_eq!(payload, EventPayload::new("uid".to_string(), true));
    assert_eq!(firing.failures(), &vec!["down".to_string(), "down".to_string()]);
}

#[test]
fn success_replaces_the_whole_payload() {
    let registry = registry_of(vec![declare("e", 1, None)]);
    let mut firing = registry.fire("e", EventPayload::new("uid".to_string(), true));
    let Action::Invoke { .. } = firing.next() else { panic!("a handler is due") };
    let only_name = ScriptValue::Record(vec![Field { key: "name".to_string(), value: text("other") }]);
    assert_eq!(firing.resume(vec![only_name]), Ok(None));
    assert_eq!(firing.next(), Action::Finish(EventPayload::new("other".to_string(), false)));
}

#[test]
fn ties_run_in_discovery_order() {
    let registry = registry_of(vec![
        declare("e", 10, None),
        declare("e", 11, Some(50)),
        declare("e", 12, Some(60)),
        declare("e", 13, None),
    ]);
    let mut firing = registry.fire("e", EventPayload::new("".to_string(), false));
    let (payload, invoked) = drive(&mut firing, &|callable, request| append(request, &format!("/{}", callable)));
    assert_eq!(invoked, vec![12, 10, 11, 13]);
    assert_eq!(payload, EventPayload::new("/12/10/11/13".to_string(), false));
}

#[test]
fn broken_convention_is_an_error_and_changes_nothing() {
    let registry = registry_of(vec![declare("e", 1, None)]);
    let mut firing = registry.fire("e", EventPayload::new("uid".to_string(), false));
    let Action::Invoke { request, .. } = firing.next() else { panic!("a handler is due") };

    assert_eq!(firing.resume(vec![text("a"), text("b")]), Err(MarshalError::MultipleValues));
    assert_eq!(
        firing.resume(vec![ScriptValue::Nil, text("b"), text("c")]),
        Err(MarshalError::TooManyValues)
    );
    assert_eq!(firing.resume(vec![ScriptValue::Nil, ScriptValue::Nil]), Err(MarshalError::MessageNotText));
    assert_eq!(
        firing.resume(vec![ScriptValue::Integer(1)]),
        Err(MarshalError::Payload(PayloadError::NotARecord))
    );
    assert!(firing.failures().is_empty());

    let Action::Invoke { callable, request: again } = firing.next() else { panic!("the handler is still due") };
    assert_eq!(callable, CallableRef(1));
    assert_eq!(again, request);
    assert_eq!(firing.resume(append(&again, "_a")), Ok(None));
    assert_eq!(firing.next(), Action::Finish(EventPayload::new("uid_a".to_string(), false)));
}

#[test]
fn firing_does_not_change_the_registry() {
    let registry = registry_of(vec![declare("e", 1, None)]);
    let mut first = registry.fire("e", EventPayload::new("one".to_string(), false));
    let (payload, _) = drive(&mut first, &|_, request| append(request, "!"));
    assert_eq!(payload, EventPayload::new("one!".to_string(), false));
    let mut second = registry.fire("e", EventPayload::new("two".to_string(), false));
    let (payload, invoked) = drive(&mut second, &|_, request| append(request, "?"));
    assert_eq!(payload, EventPayload::new("two?".to_string(), false));
    assert_eq!(invoked, vec![1]);
}
