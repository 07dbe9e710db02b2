use starlark::list::{
    list_append, list_clear, list_extend, list_get, list_index, list_insert, list_len, list_pop,
    list_remove, list_set, ListError,
};
use starlark::modules::Module;
use starlark::value::{HeapData, Value};

fn make_int(m: &mut Module, i: i64) -> Value {
    m.alloc_value(HeapData::Int(i))
}

fn list_of_ints(m: &mut Module, xs: &[i64]) -> Value {
    let mut items = Vec::new();
    for x in xs {
        items.push(make_int(m, *x));
    }
    m.alloc_value(HeapData::List(items))
}

fn ints(m: &Module, list: Value) -> Vec<i64> {
    let mut out = Vec::new();
    let n = list_len(m, list).unwrap();
    for k in 0..n {
        match list_get(m, list, k as i32).unwrap() {
            Value::Mutable(i) => match m.heap().cell(i) {
                HeapData::Int(x) => out.push(*x),
                _ => panic!("not an int"),
            },
            Value::Frozen(_) => panic!("frozen"),
        }
    }
    out
}

#[test]
fn test_error_codes() {
    let mut m = Module::new();
    let x = list_of_ints(&mut m, &[1, 2, 3, 2]);
    let two = make_int(&mut m, 2);
    assert!(list_remove(&mut m, x, two).is_ok());
    assert!(list_remove(&mut m, x, two).is_ok());
    let err = list_remove(&mut m, x, two).unwrap_err();
    assert_eq!(err, ListError::NotFound);
    assert!(err.message().contains("not found in list"));
    assert_eq!(ints(&m, x), vec![1, 3]);
}

#[test]
fn recursive_list() {
    let mut m = Module::new();
    let cyclic = list_of_ints(&mut m, &[1, 2, 3]);
    list_set(&mut m, cyclic, 1, cyclic).unwrap();
    assert_eq!(list_len(&m, cyclic), Ok(3));
    let inner = list_get(&m, cyclic, 1).unwrap();
    assert_eq!(inner, cyclic);
    assert_eq!(list_len(&m, inner), Ok(3));
}

#[test]
fn list_append_and_insert() {
    let mut m = Module::new();
    let l = list_of_ints(&mut m, &[1, 2]);
    let three = make_int(&mut m, 3);
    list_append(&mut m, l, three).unwrap();
    assert_eq!(ints(&m, l), vec![1, 2, 3]);
    let zero = make_int(&mut m, 0);
    list_insert(&mut m, l, -100, zero).unwrap();
    assert_eq!(ints(&m, l), vec![0, 1, 2, 3]);
    let nine = make_int(&mut m, 9);
    list_insert(&mut m, l, 100, nine).unwrap();
    assert_eq!(ints(&m, l), vec![0, 1, 2, 3, 9]);
    let five = make_int(&mut m, 5);
    list_insert(&mut m, l, -1, five).unwrap();
    assert_eq!(ints(&m, l), vec![0, 1, 2, 3, 5, 9]);
}

#[test]
fn list_pop_and_clear() {
    let mut m = Module::new();
    let l = list_of_ints(&mut m, &[4, 5, 6]);
    let last = list_pop(&mut m, l, None).unwrap();
    assert_eq!(ints(&m, l), vec![4, 5]);
    match last {
        Value::Mutable(i) => assert!(matches!(m.heap().cell(i), HeapData::Int(6))),
        Value::Frozen(_) => panic!("frozen"),
    }
    assert_eq!(list_pop(&mut m, l, Some(5)), Err(ListError::IndexOutOfBound(5)));
    assert_eq!(list_pop(&mut m, l, Some(-1)), Err(ListError::IndexOutOfBound(-1)));
    list_pop(&mut m, l, Some(0)).unwrap();
    assert_eq!(ints(&m, l), vec![5]);
    list_clear(&mut m, l).unwrap();
    assert_eq!(list_len(&m, l), Ok(0));
    assert!(matches!(list_pop(&mut m, l, None), Err(ListError::IndexOutOfBound(_))));
}

#[test]
fn list_extend_by_itself_doubles() {
    let mut m = Module::new();
    let l = list_of_ints(&mut m, &[1, 2]);
    list_extend(&mut m, l, l).unwrap();
    assert_eq!(ints(&m, l), vec![1, 2, 1, 2]);
    let o = list_of_ints(&mut m, &[7]);
    list_extend(&mut m, l, o).unwrap();
    assert_eq!(ints(&m, l), vec![1, 2, 1, 2, 7]);
}

#[test]
fn list_index_finds_first_equal() {
    let mut m = Module::new();
    let l = list_of_ints(&mut m, &[1, 2, 3, 2]);
    let two = make_int(&mut m, 2);
    assert_eq!(list_index(&m, l, two, None, None), Ok(1));
    assert_eq!(list_index(&m, l, two, Some(2), None), Ok(3));
    assert_eq!(list_index(&m, l, two, Some(-1), None), Ok(3));
    assert_eq!(list_index(&m, l, two, None, Some(1)), Err(ListError::NotFound));
    let eight = make_int(&mut m, 8);
    assert_eq!(list_index(&m, l, eight, None, None), Err(ListError::NotFound));
}

#[test]
fn list_methods_refuse_non_lists() {
    let mut m = Module::new();
    let one = make_int(&mut m, 1);
    assert_eq!(list_len(&m, one), Err(ListError::NotAList));
    assert_eq!(list_append(&mut m, one, one), Err(ListError::NotAList));
    assert_eq!(list_get(&m, Value::Mutable(99), 0), Err(ListError::NotAList));
    let l = list_of_ints(&mut m, &[1]);
    assert_eq!(list_get(&m, l, 1), Err(ListError::IndexOutOfBound(1)));
    assert_eq!(list_get(&m, l, -2), Err(ListError::IndexOutOfBound(-2)));
    assert_eq!(list_set(&mut m, l, 3, one), Err(ListError::IndexOutOfBound(3)));
}

#[test]
fn list_extend_by_frozen_list() {
    let mut src = Module::new();
    let a = make_int(&mut src, 1);
    let b = make_int(&mut src, 2);
    let xs = src.alloc_value(HeapData::List(vec![a, b]));
    src.set("xs", xs);
    let src = src.freeze();
    let mut m = Module::new();
    let loaded = m.load_symbol(&src, "xs").unwrap();
    let l = list_of_ints(&mut m, &[0]);
    list_extend(&mut m, l, loaded).unwrap();
    assert_eq!(list_len(&m, l), Ok(3));
    match list_get(&m, l, 2).unwrap() {
        Value::Frozen(k) => assert!(matches!(m.frozen_heap().cell(k), starlark::value::FrozenData::Int(2))),
        Value::Mutable(_) => panic!("not frozen"),
    }
    assert_eq!(list_extend(&mut m, l, a), Err(ListError::NotAList));
}

#[test]
fn list_pop_reports_index_used() {
    let mut m = Module::new();
    let l = list_of_ints(&mut m, &[1, 2, 3]);
    list_pop(&mut m, l, None).unwrap();
    list_pop(&mut m, l, None).unwrap();
    assert_eq!(ints(&m, l), vec![1]);
    list_clear(&mut m, l).unwrap();
    assert_eq!(list_pop(&mut m, l, None), Err(ListError::IndexOutOfBound(-1)));
    assert_eq!(list_pop(&mut m, l, Some(4)), Err(ListError::IndexOutOfBound(4)));
}

#[test]
fn list_remove_finds_none_values() {
    let mut m = Module::new();
    let n1 = m.alloc_value(HeapData::NoneValue);
    let n2 = m.alloc_value(HeapData::NoneValue);
    let one = make_int(&mut m, 1);
    let l = m.alloc_value(HeapData::List(vec![one, n1]));
    assert_eq!(list_index(&m, l, n2, None, None), Ok(1));
    list_remove(&mut m, l, n2).unwrap();
    assert_eq!(ints(&m, l), vec![1]);
}
