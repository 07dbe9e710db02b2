use starlark::flame_profile::{FlameProfile, Frame, Stacks};
use starlark::value::Value;

#[test]
fn disabled_profiler_records_nothing() {
    let mut p = FlameProfile::new();
    assert!(!p.is_enabled());
    p.record_call_enter(Value::Mutable(0), 1);
    p.record_call_exit(2);
    assert_eq!(p.profile_lines(&Vec::new()), None);
}

#[test]
fn record_call_enter_exit_and_render() {
    let mut p = FlameProfile::new();
    p.enable();
    let f = Value::Mutable(3);
    let g = Value::Frozen(1);
    p.record_call_enter(f, 0);
    p.record_call_enter(g, 10);
    p.record_call_exit(15);
    p.record_call_enter(g, 20);
    p.record_call_exit(30);
    p.record_call_exit(42);
    let names = vec!["f".to_string(), "g".to_string()];
    let lines = p.profile_lines(&names).unwrap();
    assert_eq!(lines, vec!["root;f 27".to_string(), "root;f;g 15".to_string()]);
}

#[test]
fn trace_rebuilds_identity_cache() {
    let mut p = FlameProfile::new();
    p.enable();
    p.record_call_enter(Value::Mutable(0), 0);
    p.record_call_exit(1);
    p.record_call_enter(Value::Mutable(2), 1);
    p.record_call_exit(5);
    // A collection moves cell 0 to 5 and cell 2 to 0.
    p.trace(&vec![5, 9, 0]);
    // The moved function is found again under its new identity.
    p.record_call_enter(Value::Mutable(5), 5);
    p.record_call_exit(8);
    // Its old identity now belongs to the other function.
    p.record_call_enter(Value::Mutable(0), 8);
    p.record_call_exit(10);
    let names = vec!["a".to_string(), "b".to_string()];
    let lines = p.profile_lines(&names).unwrap();
    assert_eq!(lines, vec!["root;a 4".to_string(), "root;b 6".to_string()]);
}

#[test]
fn stacks_from_frames() {
    let frames = vec![
        (Frame::Push(0), 100),
        (Frame::Push(1), 103),
        (Frame::Pop, 110),
        (Frame::Pop, 111),
    ];
    let s = Stacks::new(&frames);
    assert_eq!(s.name, None);
    assert_eq!(s.time, 0);
    assert_eq!(s.children.len(), 1);
    assert_eq!(s.children[0].1.time, 4);
    assert_eq!(s.children[0].1.children[0].1.time, 7);
    let names = vec!["main".to_string(), "helper".to_string()];
    assert_eq!(s.render(&names), vec!["root;main 4".to_string(), "root;main;helper 7".to_string()]);
}

#[test]
fn stacks_ignore_time_going_back() {
    let frames = vec![(Frame::Push(0), 50), (Frame::Pop, 40)];
    let s = Stacks::new(&frames);
    assert_eq!(s.children[0].1.time, 0);
    assert!(s.render(&vec!["x".to_string()]).is_empty());
}

#[test]
fn profiler_values_name_the_frames() {
    let mut p = FlameProfile::new();
    assert!(p.values().is_empty());
    p.enable();
    p.record_call_enter(Value::Frozen(4), 0);
    p.record_call_enter(Value::Mutable(1), 1);
    p.record_call_enter(Value::Frozen(4), 2);
    assert_eq!(p.values(), vec![Value::Frozen(4), Value::Mutable(1)]);
}
