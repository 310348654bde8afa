use way_cooler::category::Category;
use way_cooler::command::{Command, CommandError, Operation};
use way_cooler::registry::Registry;
use way_cooler::session::{Action, Event, Fatal, Phase, Worker};
use way_cooler::value::Value;

fn insert(category: &str, key: &str, value: Value) -> Command {
    Command {
        category: category.to_string(),
        operation: Operation::Insert { key: key.to_string(), value },
    }
}

fn running_worker() -> Worker {
    let mut w = Worker::new();
    assert_eq!(w.step(Event::BusOpened), Action::RequestName);
    assert_eq!(w.step(Event::NameAcquired), Action::BuildTree);
    assert_eq!(w.phase(), Phase::Connected);
    assert_eq!(w.step(Event::Start), Action::Register);
    assert_eq!(w.step(Event::TreeRegistered), Action::Poll);
    assert_eq!(w.phase(), Phase::Registered);
    w
}

#[test]
fn new_category_is_empty() {
    let c = Category::new("screen".to_string());
    assert_eq!(c.name(), "screen");
    assert_eq!(c.len(), 0);
    assert!(c.get("x").is_none());
    assert!(c.keys().is_empty());
}

#[test]
fn equality_is_by_name_only() {
    let mut a = Category::new("a".to_string());
    a.insert("x".to_string(), Value::I64(1));
    let mut b = Category::new("a".to_string());
    b.insert("y".to_string(), Value::I64(2));
    assert!(a == b);
    let c = Category::new("b".to_string());
    assert!(a != c);
}

#[test]
fn insert_then_get_round_trips_every_kind() {
    let mut c = Category::new("kinds".to_string());
    c.insert("null".to_string(), Value::Null);
    c.insert("bool".to_string(), Value::Bool(true));
    c.insert("int".to_string(), Value::I64(-7));
    c.insert("uint".to_string(), Value::U64(u64::MAX));
    c.insert("float".to_string(), Value::FloatBits(2.5f64.to_bits()));
    c.insert("str".to_string(), Value::Str("hi".to_string()));
    c.insert("seq".to_string(), Value::Array(vec![Value::I64(1), Value::Null]));
    c.insert(
        "map".to_string(),
        Value::Object(vec![("k".to_string(), Value::Bool(false))]),
    );
    assert_eq!(c.len(), 8);
    assert!(matches!(c.get("null"), Some(Value::Null)));
    assert!(matches!(c.get("bool"), Some(Value::Bool(true))));
    assert!(matches!(c.get("int"), Some(Value::I64(-7))));
    assert!(matches!(c.get("uint"), Some(Value::U64(u64::MAX))));
    match c.get("float") {
        Some(Value::FloatBits(b)) => assert_eq!(f64::from_bits(*b), 2.5f64),
        other => panic!("unexpected {:?}", other),
    }
    assert!(matches!(c.get("str"), Some(Value::Str(s)) if s == "hi"));
    match c.get("seq") {
        Some(Value::Array(items)) => {
            assert_eq!(items.len(), 2);
            assert!(matches!(items[0], Value::I64(1)));
            assert!(matches!(items[1], Value::Null));
        }
        other => panic!("unexpected {:?}", other),
    }
    match c.get("map") {
        Some(Value::Object(members)) => {
            assert_eq!(members.len(), 1);
            assert_eq!(members[0].0, "k");
            assert!(matches!(members[0].1, Value::Bool(false)));
        }
        other => panic!("unexpected {:?}", other),
    }
}

#[test]
fn insert_replaces_and_returns_old_value() {
    let mut c = Category::new("c".to_string());
    assert!(c.insert("k".to_string(), Value::I64(1)).is_none());
    assert!(matches!(c.insert("k".to_string(), Value::I64(2)), Some(Value::I64(1))));
    assert_eq!(c.len(), 1);
    assert!(matches!(c.get("k"), Some(Value::I64(2))));
}

#[test]
fn remove_takes_key_out() {
    let mut c = Category::new("c".to_string());
    c.insert("a".to_string(), Value::I64(1));
    c.insert("b".to_string(), Value::I64(2));
    c.insert("c".to_string(), Value::I64(3));
    assert!(matches!(c.remove("a"), Some(Value::I64(1))));
    assert!(c.remove("a").is_none());
    assert!(!c.contains_key("a"));
    assert!(c.contains_key("b"));
    assert!(c.contains_key("c"));
    assert!(matches!(c.get("c"), Some(Value::I64(3))));
    assert_eq!(c.len(), 2);
    let mut keys = c.keys();
    keys.sort();
    assert_eq!(keys, vec!["b".to_string(), "c".to_string()]);
}

#[test]
fn serializable_is_single_key_object_named_after_category() {
    let mut c = Category::new("theme".to_string());
    c.insert("color".to_string(), Value::Str("red".to_string()));
    c.insert("width".to_string(), Value::U64(3));
    match c.to_serializable() {
        Value::Object(outer) => {
            assert_eq!(outer.len(), 1);
            assert_eq!(outer[0].0, "theme");
            match &outer[0].1 {
                Value::Object(inner) => {
                    assert_eq!(inner.len(), 2);
                    let color = inner.iter().find(|m| m.0 == "color").unwrap();
                    assert!(matches!(&color.1, Value::Str(s) if s == "red"));
                    let width = inner.iter().find(|m| m.0 == "width").unwrap();
                    assert!(matches!(width.1, Value::U64(3)));
                }
                other => panic!("unexpected {:?}", other),
            }
        }
        other => panic!("unexpected {:?}", other),
    }
}

#[test]
fn serializable_of_empty_category() {
    let c = Category::new("layout".to_string());
    match c.to_serializable() {
        Value::Object(outer) => {
            assert_eq!(outer.len(), 1);
            assert_eq!(outer[0].0, "layout");
            assert!(matches!(&outer[0].1, Value::Object(inner) if inner.is_empty()));
        }
        other => panic!("unexpected {:?}", other),
    }
}

#[test]
fn value_clone_copies_nested_parts() {
    let v = Value::Object(vec![(
        "list".to_string(),
        Value::Array(vec![Value::Str("a".to_string()), Value::U64(9)]),
    )]);
    match v.clone() {
        Value::Object(members) => {
            assert_eq!(members[0].0, "list");
            match &members[0].1 {
                Value::Array(items) => {
                    assert!(matches!(&items[0], Value::Str(s) if s == "a"));
                    assert!(matches!(items[1], Value::U64(9)));
                }
                other => panic!("unexpected {:?}", other),
            }
        }
        other => panic!("unexpected {:?}", other),
    }
}

#[test]
fn get_or_create_twice_gives_same_category() {
    let mut r = Registry::new();
    let h1 = r.get_or_create("screen");
    assert_eq!(r.len(), 1);
    let h2 = r.get_or_create("screen");
    assert_eq!(h1, h2);
    assert_eq!(r.len(), 1);
    let h3 = r.get_or_create("layout");
    assert_ne!(h1, h3);
    assert_eq!(r.len(), 2);
    assert_eq!(r.category(h1).name(), "screen");
}

#[test]
fn registry_values_and_lookup() {
    let mut r = Registry::new();
    let h = r.get_or_create("screen");
    assert!(r.insert_value(h, "count".to_string(), Value::I64(1)).is_none());
    assert!(matches!(r.insert_value(h, "count".to_string(), Value::I64(2)), Some(Value::I64(1))));
    assert!(matches!(r.get("screen").unwrap().get("count"), Some(Value::I64(2))));
    assert!(matches!(r.remove_value(h, "count"), Some(Value::I64(2))));
    assert!(r.get("screen").unwrap().get("count").is_none());
    assert!(r.get("theme").is_none());
    assert_eq!(r.find("screen"), Some(h));
    assert_eq!(r.find("theme"), None);
}

#[test]
fn registry_remove_keeps_order_and_names_is_a_snapshot() {
    let mut r = Registry::new();
    r.get_or_create("a");
    r.get_or_create("b");
    r.get_or_create("c");
    let names = r.names();
    assert_eq!(names, vec!["a".to_string(), "b".to_string(), "c".to_string()]);
    let removed = r.remove("b").unwrap();
    assert_eq!(removed.name(), "b");
    assert!(r.remove("b").is_none());
    assert_eq!(r.names(), vec!["a".to_string(), "c".to_string()]);
    assert_eq!(names.len(), 3);
}

#[test]
fn apply_commands() {
    let mut r = Registry::new();
    assert_eq!(r.apply(insert("screen", "count", Value::I64(3))), Ok(()));
    assert!(matches!(r.get("screen").unwrap().get("count"), Some(Value::I64(3))));
    let remove_key = Command {
        category: "screen".to_string(),
        operation: Operation::RemoveKey { key: "count".to_string() },
    };
    assert_eq!(r.apply(remove_key), Ok(()));
    assert!(r.get("screen").unwrap().get("count").is_none());
    let remove_missing = Command {
        category: "theme".to_string(),
        operation: Operation::RemoveKey { key: "count".to_string() },
    };
    assert_eq!(r.apply(remove_missing), Ok(()));
    assert!(r.get("theme").is_none());
    let drop_category = Command {
        category: "screen".to_string(),
        operation: Operation::RemoveCategory,
    };
    assert_eq!(r.apply(drop_category), Ok(()));
    assert!(r.get("screen").is_none());
    assert_eq!(r.len(), 0);
}

#[test]
fn apply_refuses_empty_category_name() {
    let mut r = Registry::new();
    assert_eq!(r.apply(insert("", "k", Value::Null)), Err(CommandError::EmptyCategoryName));
    assert_eq!(r.len(), 0);
}

#[test]
fn screen_count_scenario() {
    let mut w = running_worker();
    assert_eq!(w.step(Event::PollDone), Action::Receive);
    assert_eq!(w.step(Event::Received(insert("screen", "count", Value::I64(3)))), Action::Receive);
    assert_eq!(w.step(Event::ChannelEmpty), Action::Poll);
    let screen = w.registry().get("screen").unwrap();
    assert!(matches!(screen.get("count"), Some(Value::I64(3))));
}

#[test]
fn drain_applies_all_queued_commands_last_write_wins() {
    let mut w = running_worker();
    assert_eq!(w.step(Event::PollDone), Action::Receive);
    let cmds = vec![
        insert("screen", "count", Value::I64(1)),
        insert("theme", "color", Value::Str("red".to_string())),
        insert("screen", "count", Value::I64(2)),
        insert("screen", "count", Value::I64(5)),
    ];
    for c in cmds {
        assert_eq!(w.step(Event::Received(c)), Action::Receive);
    }
    assert_eq!(w.step(Event::ChannelEmpty), Action::Poll);
    let r = w.registry();
    assert_eq!(r.len(), 2);
    assert!(matches!(r.get("screen").unwrap().get("count"), Some(Value::I64(5))));
    assert!(matches!(r.get("theme").unwrap().get("color"), Some(Value::Str(s)) if s == "red"));
}

#[test]
fn bad_command_is_reported_and_loop_goes_on() {
    let mut w = running_worker();
    assert_eq!(
        w.step(Event::Received(insert("", "k", Value::Null))),
        Action::Report(CommandError::EmptyCategoryName)
    );
    assert_eq!(w.phase(), Phase::Registered);
    assert_eq!(w.step(Event::Received(insert("screen", "k", Value::Null))), Action::Receive);
    assert_eq!(w.registry().len(), 1);
}

#[test]
fn channel_closed_unregisters_and_stops() {
    let mut w = running_worker();
    assert_eq!(w.step(Event::ChannelClosed), Action::Unregister);
    assert_eq!(w.phase(), Phase::Stopped);
    assert_eq!(w.step(Event::PollDone), Action::Ignore);
    assert_eq!(w.step(Event::Received(insert("screen", "k", Value::Null))), Action::Ignore);
    assert_eq!(w.registry().len(), 0);
}

#[test]
fn stop_request_unregisters_and_stops() {
    let mut w = running_worker();
    assert_eq!(w.step(Event::StopRequested), Action::Unregister);
    assert_eq!(w.phase(), Phase::Stopped);
}

#[test]
fn registration_rejected_is_fatal_and_no_loop_runs() {
    let mut w = Worker::new();
    assert_eq!(w.step(Event::BusOpened), Action::RequestName);
    assert_eq!(w.step(Event::NameAcquired), Action::BuildTree);
    assert_eq!(w.step(Event::Start), Action::Register);
    assert_eq!(w.step(Event::TreeRejected), Action::Abort(Fatal::RegistrationRejected));
    assert_eq!(w.phase(), Phase::Failed);
    assert_eq!(w.step(Event::PollDone), Action::Ignore);
    assert_eq!(w.step(Event::ChannelEmpty), Action::Ignore);
}

#[test]
fn unreachable_bus_and_refused_name_are_fatal() {
    let mut w = Worker::new();
    assert_eq!(w.step(Event::BusFailed), Action::Abort(Fatal::BusUnreachable));
    assert_eq!(w.phase(), Phase::Failed);
    let mut w = Worker::new();
    w.step(Event::BusOpened);
    assert_eq!(w.step(Event::NameFailed), Action::Abort(Fatal::NameRejected));
    assert_eq!(w.phase(), Phase::Failed);
}

#[test]
fn events_out_of_phase_are_ignored() {
    let mut w = Worker::new();
    assert_eq!(w.step(Event::PollDone), Action::Ignore);
    assert_eq!(w.step(Event::Received(insert("screen", "k", Value::Null))), Action::Ignore);
    assert_eq!(w.phase(), Phase::Created);
    assert_eq!(w.registry().len(), 0);
}
