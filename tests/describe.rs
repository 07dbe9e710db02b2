use starlark::describe::value_repr;
use starlark::text::int64_string;
use starlark::modules::Module;
use starlark::value::{HeapData, Value};

#[test]
fn describe_lists_exported_values() {
    let mut m = Module::new();
    let one = m.alloc_value(HeapData::Int(1));
    let s = m.alloc_value(HeapData::Str("hi".to_string()));
    let none = m.alloc_value(HeapData::NoneValue);
    let l = m.alloc_value(HeapData::List(vec![one, s, none]));
    m.set("x", l);
    m.set("_hidden", one);
    m.set("y", one);
    let f = m.freeze();
    assert_eq!(f.describe(), "x = [1, \"hi\", None]\ny = 1");
}

#[test]
fn describe_writes_cycles_once() {
    let mut m = Module::new();
    let a = m.alloc_value(HeapData::Int(1));
    let b = m.alloc_value(HeapData::Int(3));
    let l = m.alloc_value(HeapData::List(vec![a, Value::Mutable(2), b]));
    m.set("cyclic", l);
    let f = m.freeze();
    assert_eq!(f.describe(), "cyclic = [1, [...], 3]");
    let k = f.get("cyclic").unwrap();
    assert_eq!(value_repr(f.frozen_heap(), k), "[1, [...], 3]");
}

#[test]
fn describe_of_empty_module() {
    let f = Module::new().freeze();
    assert_eq!(f.describe(), "");
}

#[test]
fn integers_written_in_decimal() {
    assert_eq!(int64_string(-9223372036854775808), "-9223372036854775808");
    assert_eq!(int64_string(0), "0");
    assert_eq!(int64_string(120), "120");
}

#[test]
fn module_documentation_lists_exported_names() {
    let mut m = Module::new();
    let one = m.alloc_value(HeapData::Int(1));
    m.set("b", one);
    m.set("_p", one);
    m.set("a", one);
    m.set_docstring("first".to_string());
    m.set_docstring("module doc".to_string());
    let f = m.freeze();
    let docs = f.module_documentation();
    assert_eq!(docs.module, Some("module doc".to_string()));
    assert_eq!(docs.members, vec![("b".to_string(), None), ("a".to_string(), None)]);
}
