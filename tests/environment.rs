use starlark::captured::{captured_new, captured_set, value_captured_get};
use starlark::modules::{EnvironmentError, FrozenModule, Module};
use starlark::names::{MutableNames, Visibility};
use starlark::slots::{MutableSlots, SlotError};
use starlark::value::{FrozenData, HeapData, Value};

fn frozen_int(f: &FrozenModule, k: usize) -> i64 {
    match f.frozen_heap().cell(k) {
        FrozenData::Int(x) => *x,
        _ => panic!("not an int"),
    }
}

fn assert_send_sync<T: Send + Sync>() {}

#[test]
fn test_send_sync() {
    assert_send_sync::<FrozenModule>();
}

#[test]
fn repeated_name_keeps_its_slot() {
    let mut names = MutableNames::new();
    let a = names.add_name("a");
    let b = names.add_name_visibility("b", Visibility::Private);
    assert_eq!(names.add_name("a"), a);
    assert_eq!(names.add_name_visibility("a", Visibility::Private), a);
    assert_eq!(names.add_name("b"), b);
    assert_ne!(a, b);
    assert_eq!(names.slot_count(), 2);
    assert_eq!(names.get_slot(b), Some("b".to_string()));
    assert_eq!(names.get_slot(7), None);
}

#[test]
fn visibility_only_upgrades() {
    let mut names = MutableNames::new();
    names.add_name_visibility("x", Visibility::Private);
    assert_eq!(names.get_name("x"), Some((0, Visibility::Private)));
    names.add_name("x");
    assert_eq!(names.get_name("x"), Some((0, Visibility::Public)));
    // A Private request on a Public name is silently ignored.
    names.add_name_visibility("x", Visibility::Private);
    assert_eq!(names.get_name("x"), Some((0, Visibility::Public)));
}

#[test]
fn hidden_name_keeps_slot_allocated() {
    let mut names = MutableNames::new();
    names.add_name("a");
    names.add_name("b");
    names.hide_name("a");
    assert_eq!(names.get_name("a"), None);
    assert_eq!(names.slot_count(), 2);
    assert_eq!(names.add_name("c"), 2);
    let all = names.all_names();
    assert_eq!(all, vec![("b".to_string(), 1), ("c".to_string(), 2)]);
    let vis = names.all_names_and_visibilities();
    assert_eq!(vis[0], ("b".to_string(), Visibility::Public));
    let frozen = names.freeze();
    assert_eq!(frozen.symbols(), vec![("b".to_string(), 1), ("c".to_string(), 2)]);
    assert_eq!(frozen.get_name("c"), Some((2, Visibility::Public)));
}

#[test]
fn absent_slot_differs_from_out_of_range() {
    let mut slots = MutableSlots::new();
    slots.ensure_slot(2);
    assert_eq!(slots.len(), 3);
    assert_eq!(slots.read_slot(1), Err(SlotError::Absent));
    assert_eq!(slots.read_slot(3), Err(SlotError::OutOfRange));
    slots.set_slot(1, Value::Frozen(0));
    assert_eq!(slots.read_slot(1), Ok(Value::Frozen(0)));
    assert_eq!(slots.get_slot(0), None);
}

#[test]
fn underscore_names_are_private() {
    assert_eq!(Module::default_visibility("_bar"), Visibility::Private);
    assert_eq!(Module::default_visibility("foo"), Visibility::Public);
    assert_eq!(Module::default_visibility(""), Visibility::Public);
    let mut m = Module::new();
    let v = m.alloc_value(HeapData::Int(1));
    m.set("_bar", v);
    assert_eq!(m.get("_bar"), None);
    assert_eq!(m.get_any_visibility("_bar"), Some((v, Visibility::Private)));
}

#[test]
fn freeze_keeps_values() {
    let mut m = Module::new();
    let one = m.alloc_value(HeapData::Int(1));
    let s = m.alloc_value(HeapData::Str("hi".to_string()));
    let l = m.alloc_value(HeapData::List(vec![one, s]));
    m.set("x", l);
    m.set("y", one);
    m.set_private("p", s);
    m.set_docstring("doc".to_string());
    let f = m.freeze();
    let kx = f.get("x").unwrap();
    let ky = f.get("y").unwrap();
    assert_eq!(frozen_int(&f, ky), 1);
    match f.frozen_heap().cell(kx) {
        FrozenData::List(items) => {
            assert_eq!(items.len(), 2);
            assert_eq!(items[0], ky);
            match f.frozen_heap().cell(items[1]) {
                FrozenData::Str(t) => assert_eq!(t, "hi"),
                _ => panic!("not a string"),
            }
        },
        _ => panic!("not a list"),
    }
    assert_eq!(f.get("p"), None);
    assert!(matches!(f.get_any_visibility("p"), Some((_, Visibility::Private))));
    assert_eq!(f.names(), vec!["x".to_string(), "y".to_string()]);
    assert_eq!(f.documentation(), Some("doc".to_string()));
    assert_eq!(f.get_slot_name(0), Some("x".to_string()));
    assert_eq!(f.get_slot_name(2), None);
}

#[test]
fn freeze_keeps_cycles() {
    let mut m = Module::new();
    let a = m.alloc_value(HeapData::Int(1));
    let b = m.alloc_value(HeapData::Int(3));
    // The list refers to itself at position 1.
    let l = m.alloc_value(HeapData::List(vec![a, Value::Mutable(2), b]));
    m.set("cyclic", l);
    let f = m.freeze();
    let k = f.get("cyclic").unwrap();
    match f.frozen_heap().cell(k) {
        FrozenData::List(items) => {
            assert_eq!(items.len(), 3);
            assert_eq!(items[1], k);
            match f.frozen_heap().cell(items[1]) {
                FrozenData::List(inner) => assert_eq!(inner.len(), 3),
                _ => panic!("not a list"),
            }
        },
        _ => panic!("not a list"),
    }
}

#[test]
fn freeze_keeps_sharing() {
    let mut m = Module::new();
    let one = m.alloc_value(HeapData::Int(1));
    let l = m.alloc_value(HeapData::List(vec![one]));
    let other = m.alloc_value(HeapData::List(vec![one]));
    m.set("a", l);
    m.set("b", l);
    m.set("c", other);
    let f = m.freeze();
    assert_eq!(f.get("a"), f.get("b"));
    assert_ne!(f.get("a"), f.get("c"));
    // Only what the slots reach is frozen: three cells.
    assert_eq!(f.frozen_heap().len(), 3);
}

#[test]
fn freeze_keeps_unassigned_slots_absent() {
    let mut m = Module::new();
    let v = m.alloc_value(HeapData::NoneValue);
    m.set("a", v);
    let f = m.freeze();
    assert_eq!(f.get("missing"), None);
    assert!(matches!(f.frozen_heap().cell(f.get("a").unwrap()), FrozenData::NoneValue));
}

fn exporter() -> FrozenModule {
    let mut m = Module::new();
    let v = m.alloc_value(HeapData::Int(42));
    let w = m.alloc_value(HeapData::Int(7));
    m.set("foo", v);
    m.set("_bar", w);
    m.freeze()
}

#[test]
fn load_symbol_outcomes() {
    let source = exporter();
    let mut m = Module::new();
    let foo = m.load_symbol(&source, "foo").unwrap();
    match foo {
        Value::Frozen(k) => assert!(matches!(m.frozen_heap().cell(k), FrozenData::Int(42))),
        Value::Mutable(_) => panic!("not frozen"),
    }
    assert_eq!(
        m.load_symbol(&source, "_bar"),
        Err(EnvironmentError::CannotImportPrivateSymbol("_bar".to_string()))
    );
    assert_eq!(
        m.load_symbol(&source, "foo2"),
        Err(EnvironmentError::ModuleHasNoSymbolDidYouMean("foo2".to_string(), "foo".to_string()))
    );
    assert_eq!(
        m.load_symbol(&source, "completely_different"),
        Err(EnvironmentError::ModuleHasNoSymbol("completely_different".to_string()))
    );
}

#[test]
fn load_symbol_not_exported() {
    let mut m = Module::new();
    let v = m.alloc_value(HeapData::Int(1));
    m.set_private("hidden", v);
    let source = m.freeze();
    let mut n = Module::new();
    assert_eq!(
        n.load_symbol(&source, "hidden"),
        Err(EnvironmentError::ModuleSymbolIsNotExported("hidden".to_string()))
    );
}

#[test]
fn import_binds_private_until_set() {
    let mut a = Module::new();
    let v = a.alloc_value(HeapData::Int(5));
    a.set("x", v);
    let a = a.freeze();
    let mut b = Module::new();
    b.import_public_symbols(&a);
    assert_eq!(b.get("x"), None);
    let (value, vis) = b.get_any_visibility("x").unwrap();
    assert_eq!(vis, Visibility::Private);
    match value {
        Value::Frozen(k) => assert!(matches!(b.frozen_heap().cell(k), FrozenData::Int(5))),
        Value::Mutable(_) => panic!("not frozen"),
    }
    b.set("x", value);
    assert_eq!(b.get("x"), Some(value));
    let b = b.freeze();
    let k = b.get("x").unwrap();
    assert_eq!(frozen_int(&b, k), 5);
}

#[test]
fn import_skips_private_names() {
    let source = exporter();
    let mut b = Module::new();
    b.import_public_symbols(&source);
    assert_eq!(b.get_any_visibility("_bar"), None);
    assert!(b.get_any_visibility("foo").is_some());
}

#[test]
fn capture_cell_round_trip() {
    let mut m = Module::new();
    let cell = captured_new(&mut m);
    assert_eq!(value_captured_get(&m, cell), None);
    let v = m.alloc_value(HeapData::Int(9));
    captured_set(&mut m, cell, v);
    assert_eq!(value_captured_get(&m, cell), Some(v));
    m.set("c", cell);
    let f = m.freeze();
    let k = f.get("c").unwrap();
    match f.frozen_heap().cell(k) {
        FrozenData::Captured(Some(j)) => assert_eq!(frozen_int(&f, *j), 9),
        _ => panic!("not a filled capture cell"),
    }
}

#[test]
fn module_slot_reads_tell_absent_from_out_of_range() {
    let mut m = Module::new();
    let v = m.alloc_value(HeapData::Int(3));
    m.set("a", v);
    assert_eq!(m.read_slot(0), Ok(v));
    assert_eq!(m.read_slot(1), Err(SlotError::OutOfRange));
    let f = m.freeze();
    assert!(f.read_slot(0).is_ok());
    assert_eq!(f.read_slot(5), Err(SlotError::OutOfRange));
}

#[test]
fn loaded_heap_is_placed_once() {
    let source = exporter();
    let n = source.frozen_heap().len();
    let mut m = Module::new();
    let first = m.load_symbol(&source, "foo").unwrap();
    assert_eq!(m.frozen_heap().len(), n);
    let second = m.load_symbol(&source, "foo").unwrap();
    assert_eq!(first, second);
    m.import_public_symbols(&source);
    assert_eq!(m.frozen_heap().len(), n);
    assert_eq!(m.get_any_visibility("foo").map(|x| x.0), Some(first));
}

#[test]
fn set_private_keeps_public_name_public() {
    let mut m = Module::new();
    let a = m.alloc_value(HeapData::Int(1));
    let b = m.alloc_value(HeapData::Int(2));
    m.set("x", a);
    let slot = m.read_slot(0);
    assert_eq!(slot, Ok(a));
    m.set_private("x", b);
    assert_eq!(m.get_any_visibility("x"), Some((b, Visibility::Public)));
    assert_eq!(m.get("x"), Some(b));
    assert_eq!(m.read_slot(0), Ok(b));
    assert_eq!(m.read_slot(1), Err(SlotError::OutOfRange));
}
