//! Methods of the `list` type, on lists of a module's mutable heap.
use vstd::prelude::*;
use vstd::string::StringExecFns;
use crate::modules::Module;
use crate::value::{shape_valid, value_valid, HeapData, Shape, Value};

verus! {

/// Why a list method failed.
#[derive(Clone, Copy, Debug, PartialEq, Eq, Structural)]
pub enum ListError {
    /// The receiver is not a list on the mutable heap.
    NotAList,
    /// The index is outside the list.
    IndexOutOfBound(i32),
    /// The element looked for is not in the list.
    NotFound,
}

impl ListError {
    /// A message for the error.
    pub fn message(&self) -> (r: String)
        ensures
            r@ == match self {
                ListError::NotAList => "not a mutable list"@,
                ListError::IndexOutOfBound(_) => "index out of bound"@,
                ListError::NotFound => "element not found in list"@,
            },
    {
        match self {
            ListError::NotAList => String::from_str("not a mutable list"),
            ListError::IndexOutOfBound(_) => String::from_str("index out of bound"),
            ListError::NotFound => String::from_str("element not found in list"),
        }
    }
}

/// The elements of `this`, where it is a list on the mutable heap.
pub open spec fn list_of(m: &Module, this: Value) -> Option<Seq<Value>> {
    match this {
        Value::Mutable(i) => if i < m.heap_view().len() && m.heap_view()[i as int] is List {
            Some(m.heap_view()[i as int]->List_0)
        } else {
            None
        },
        Value::Frozen(_) => None,
    }
}

/// Two values compare equal: the same reference, both None, or integers or
/// strings of equal contents. Lists and capture cells compare by reference.
pub open spec fn values_equal(h: Seq<Shape<Value>>, f: Seq<Shape<usize>>, a: Value, b: Value) -> bool {
    a == b || match (cell_of(h, f, a), cell_of(h, f, b)) {
        (Some(Shape::Int(x)), Some(Shape::Int(y))) => x == y,
        (Some(Shape::Str(x)), Some(Shape::Str(y))) => x == y,
        (Some(Shape::NoneValue), Some(Shape::NoneValue)) => true,
        _ => false,
    }
}

/// The scalar contents (None, integer or string) of the cell a value refers to.
pub open spec fn cell_of(h: Seq<Shape<Value>>, f: Seq<Shape<usize>>, v: Value) -> Option<Shape<usize>> {
    match v {
        Value::Mutable(i) => if i < h.len() {
            match h[i as int] {
                Shape::Int(x) => Some(Shape::Int(x)),
                Shape::Str(s) => Some(Shape::Str(s)),
                Shape::NoneValue => Some(Shape::NoneValue),
                _ => None,
            }
        } else {
            None
        },
        Value::Frozen(k) => if k < f.len() {
            match f[k as int] {
                Shape::Int(x) => Some(Shape::Int(x)),
                Shape::Str(s) => Some(Shape::Str(s)),
                Shape::NoneValue => Some(Shape::NoneValue),
                _ => None,
            }
        } else {
            None
        },
    }
}

/// A negative index counts from the end; the result is clamped to `0..=len`.
pub open spec fn convert_index(len: int, index: int) -> int {
    if index < 0 {
        if index + len < 0 { 0 } else { index + len }
    } else if index > len {
        len
    } else {
        index
    }
}

/// The first position in `lo..hi` of an element equal to `needle`.
pub open spec fn first_equal(m: &Module, l: Seq<Value>, needle: Value, lo: int, hi: int, p: int) -> bool {
    &&& lo <= p < hi
    &&& values_equal(m.heap_view(), m.frozen_view(), l[p], needle)
    &&& forall|q: int| lo <= q < p ==> !values_equal(m.heap_view(), m.frozen_view(), #[trigger] l[q], needle)
}

fn copy_values(l: &Vec<Value>) -> (r: Vec<Value>)
    ensures
        r@ == l@,
{
    let mut out: Vec<Value> = Vec::new();
    let mut k: usize = 0;
    while k < l.len()
        invariant
            k <= l@.len(),
            out@ == l@.take(k as int),
        decreases l@.len() - k,
    {
        out.push(l[k]);
        proof {
            assert(l@.take(k + 1) =~= l@.take(k as int).push(l@[k as int]));
        }
        k = k + 1;
    }
    proof {
        assert(l@.take(l@.len() as int) =~= l@);
    }
    out
}

/// The elements of `this`, or NotAList.
pub fn list_elements(m: &Module, this: Value) -> (r: Result<Vec<Value>, ListError>)
    ensures
        match list_of(m, this) {
            Some(l) => r matches Ok(v) && v@ == l,
            None => r == Err::<Vec<Value>, ListError>(ListError::NotAList),
        },
{
    match this {
        Value::Mutable(i) => {
            if i < m.heap().len() {
                match m.heap().cell(i) {
                    HeapData::List(l) => Ok(copy_values(l)),
                    _ => Err(ListError::NotAList),
                }
            } else {
                Err(ListError::NotAList)
            }
        },
        Value::Frozen(_) => Err(ListError::NotAList),
    }
}

/// Replaces the elements of the list `this`.
fn store(m: &mut Module, this: Value, items: Vec<Value>)
    requires
        old(m).wf(),
        list_of(old(m), this) is Some,
        forall|j: int| 0 <= j < items@.len() ==> value_valid(#[trigger] items@[j], old(m).heap_view().len(), old(m).frozen_view().len()),
    ensures
        final(m).wf(),
        list_of(final(m), this) == Some(items@),
        final(m).heap_view() == old(m).heap_view().update(this->Mutable_0 as int, Shape::List(items@)),
        final(m).frozen_view() == old(m).frozen_view(),
        final(m).names_view() == old(m).names_view(),
        final(m).slots_view() == old(m).slots_view(),
        final(m).slot_count() == old(m).slot_count(),
{
    let i = match this {
        Value::Mutable(i) => i,
        Value::Frozen(_) => 0,
    };
    let data = HeapData::List(items);
    proof {
        assert(shape_valid(data@, m.heap_view().len(), m.frozen_view().len()));
    }
    m.replace_value(i, data);
}

/// The number of elements of the list `this`.
pub fn list_len(m: &Module, this: Value) -> (r: Result<usize, ListError>)
    ensures
        match list_of(m, this) {
            Some(l) => r == Ok::<usize, ListError>(l.len() as usize),
            None => r == Err::<usize, ListError>(ListError::NotAList),
        },
{
    match list_elements(m, this) {
        Ok(v) => Ok(v.len()),
        Err(e) => Err(e),
    }
}

/// The element at `index` (negative counts from the end).
pub fn list_get(m: &Module, this: Value, index: i32) -> (r: Result<Value, ListError>)
    ensures
        match list_of(m, this) {
            Some(l) => {
                let k = if index < 0 { index + l.len() } else { index as int };
                if 0 <= k < l.len() {
                    r == Ok::<Value, ListError>(l[k])
                } else {
                    r == Err::<Value, ListError>(ListError::IndexOutOfBound(index))
                }
            },
            None => r == Err::<Value, ListError>(ListError::NotAList),
        },
{
    let v = match list_elements(m, this) {
        Ok(v) => v,
        Err(e) => return Err(e),
    };
    let len = v.len();
    if index < 0 {
        let back = (-(index as i64)) as usize;
        if back <= len {
            Ok(v[len - back])
        } else {
            Err(ListError::IndexOutOfBound(index))
        }
    } else if (index as usize) < len {
        Ok(v[index as usize])
    } else {
        Err(ListError::IndexOutOfBound(index))
    }
}

/// Assigns `el` at `index` (negative counts from the end): `this[index] = el`.
pub fn list_set(m: &mut Module, this: Value, index: i32, el: Value) -> (r: Result<(), ListError>)
    requires
        old(m).wf(),
        value_valid(el, old(m).heap_view().len(), old(m).frozen_view().len()),
    ensures
        final(m).wf(),
        final(m).frozen_view() == old(m).frozen_view(),
        final(m).names_view() == old(m).names_view(),
        final(m).slots_view() == old(m).slots_view(),
        match list_of(old(m), this) {
            Some(l) => {
                let k = if index < 0 { index + l.len() } else { index as int };
                if 0 <= k < l.len() {
                    r is Ok && final(m).heap_view() == old(m).heap_view().update(this->Mutable_0 as int, Shape::List(l.update(k, el)))
                } else {
                    r == Err::<(), ListError>(ListError::IndexOutOfBound(index)) && final(m).heap_view() == old(m).heap_view()
                }
            },
            None => r == Err::<(), ListError>(ListError::NotAList) && final(m).heap_view() == old(m).heap_view(),
        },
{
    let mut v = match list_elements(m, this) {
        Ok(v) => v,
        Err(e) => return Err(e),
    };
    let len = v.len();
    let k: usize = if index < 0 {
        let back = (-(index as i64)) as usize;
        if back <= len {
            len - back
        } else {
            return Err(ListError::IndexOutOfBound(index));
        }
    } else if (index as usize) < len {
        index as usize
    } else {
        return Err(ListError::IndexOutOfBound(index));
    };
    v.set(k, el);
    proof {
        let h = m.heap_view();
        let i = this->Mutable_0 as int;
        assert(shape_valid(h[i], h.len(), m.frozen_view().len()));
        assert forall|j: int| 0 <= j < v@.len() implies value_valid(#[trigger] v@[j], h.len(), m.frozen_view().len()) by {
            if j != k {
                assert(crate::value::refs_of(h[i])[j] == v@[j]);
            }
        }
    }
    store(m, this, v);
    Ok(())
}

proof fn lemma_elements_valid(m: &Module, this: Value)
    requires
        m.wf(),
        list_of(m, this) is Some,
    ensures
        forall|j: int|
            0 <= j < list_of(m, this).unwrap().len() ==> value_valid(
                #[trigger] list_of(m, this).unwrap()[j],
                m.heap_view().len(),
                m.frozen_view().len(),
            ),
{
    let h = m.heap_view();
    let i = this->Mutable_0 as int;
    assert(shape_valid(h[i], h.len(), m.frozen_view().len()));
    assert forall|j: int| 0 <= j < list_of(m, this).unwrap().len() implies value_valid(
        #[trigger] list_of(m, this).unwrap()[j],
        h.len(),
        m.frozen_view().len(),
    ) by {
        assert(crate::value::refs_of(h[i])[j] == list_of(m, this).unwrap()[j]);
    }
}

/// Whether `a` and `b` compare equal (see `values_equal`).
pub fn equals(m: &Module, a: Value, b: Value) -> (r: bool)
    ensures
        r == values_equal(m.heap_view(), m.frozen_view(), a, b),
{
    if a == b {
        return true;
    }
    match (scalar(m, a), scalar(m, b)) {
        (Some(Scalar::Int(x)), Some(Scalar::Int(y))) => x == y,
        (Some(Scalar::Str(x)), Some(Scalar::Str(y))) => x == y,
        (Some(Scalar::NoneValue), Some(Scalar::NoneValue)) => true,
        _ => false,
    }
}

enum Scalar {
    NoneValue,
    Int(i64),
    Str(String),
}

fn scalar(m: &Module, v: Value) -> (r: Option<Scalar>)
    ensures
        match cell_of(m.heap_view(), m.frozen_view(), v) {
            Some(Shape::Int(x)) => r matches Some(Scalar::Int(y)) && y == x,
            Some(Shape::Str(x)) => r matches Some(Scalar::Str(y)) && y@ == x,
            Some(Shape::NoneValue) => r matches Some(Scalar::NoneValue),
            _ => r is None,
        },
{
    match v {
        Value::Mutable(i) => {
            if i < m.heap().len() {
                match m.heap().cell(i) {
                    HeapData::Int(x) => Some(Scalar::Int(*x)),
                    HeapData::Str(t) => Some(Scalar::Str(t.clone())),
                    HeapData::NoneValue => Some(Scalar::NoneValue),
                    _ => None,
                }
            } else {
                None
            }
        },
        Value::Frozen(k) => {
            if k < m.frozen_heap().len() {
                match m.frozen_heap().cell(k) {
                    crate::value::FrozenData::Int(x) => Some(Scalar::Int(*x)),
                    crate::value::FrozenData::Str(t) => Some(Scalar::Str(t.clone())),
                    crate::value::FrozenData::NoneValue => Some(Scalar::NoneValue),
                    _ => None,
                }
            } else {
                None
            }
        },
    }
}

/// Appends `el` to the list `this`.
pub fn list_append(m: &mut Module, this: Value, el: Value) -> (r: Result<(), ListError>)
    requires
        old(m).wf(),
        value_valid(el, old(m).heap_view().len(), old(m).frozen_view().len()),
    ensures
        final(m).wf(),
        final(m).frozen_view() == old(m).frozen_view(),
        final(m).names_view() == old(m).names_view(),
        final(m).slots_view() == old(m).slots_view(),
        match list_of(old(m), this) {
            Some(l) => r is Ok && final(m).heap_view() == old(m).heap_view().update(this->Mutable_0 as int, Shape::List(l.push(el))),
            None => r == Err::<(), ListError>(ListError::NotAList) && final(m).heap_view() == old(m).heap_view(),
        },
{
    let mut v = match list_elements(m, this) {
        Ok(v) => v,
        Err(e) => return Err(e),
    };
    proof {
        lemma_elements_valid(m, this);
    }
    v.push(el);
    store(m, this, v);
    Ok(())
}

/// Removes every element of the list `this`.
pub fn list_clear(m: &mut Module, this: Value) -> (r: Result<(), ListError>)
    requires
        old(m).wf(),
    ensures
        final(m).wf(),
        final(m).frozen_view() == old(m).frozen_view(),
        final(m).names_view() == old(m).names_view(),
        final(m).slots_view() == old(m).slots_view(),
        match list_of(old(m), this) {
            Some(l) => r is Ok && final(m).heap_view() == old(m).heap_view().update(this->Mutable_0 as int, Shape::List(Seq::<Value>::empty())),
            None => r == Err::<(), ListError>(ListError::NotAList) && final(m).heap_view() == old(m).heap_view(),
        },
{
    match list_elements(m, this) {
        Ok(_) => {},
        Err(e) => return Err(e),
    }
    let v: Vec<Value> = Vec::new();
    store(m, this, v);
    Ok(())
}

/// The items of a list on either heap; an item of a frozen list is a frozen
/// reference.
pub open spec fn iterable_items(m: &Module, v: Value) -> Option<Seq<Value>> {
    match v {
        Value::Mutable(_) => list_of(m, v),
        Value::Frozen(k) => if k < m.frozen_view().len() && m.frozen_view()[k as int] is List {
            Some(m.frozen_view()[k as int]->List_0.map_values(|j: usize| Value::Frozen(j)))
        } else {
            None
        },
    }
}

/// The items of the list `v`, mutable or frozen, or NotAList. Each item is
/// valid in `m`.
pub fn iter_elements(m: &Module, v: Value) -> (r: Result<Vec<Value>, ListError>)
    requires
        m.wf(),
    ensures
        match iterable_items(m, v) {
            Some(o) => r matches Ok(x) && x@ == o && forall|j: int|
                0 <= j < o.len() ==> value_valid(#[trigger] o[j], m.heap_view().len(), m.frozen_view().len()),
            None => r == Err::<Vec<Value>, ListError>(ListError::NotAList),
        },
{
    match v {
        Value::Mutable(_) => {
            proof {
                if list_of(m, v) is Some {
                    lemma_elements_valid(m, v);
                }
            }
            list_elements(m, v)
        },
        Value::Frozen(k) => {
            if k < m.frozen_heap().len() {
                match m.frozen_heap().cell(k) {
                    crate::value::FrozenData::List(items) => {
                        let ghost f = m.frozen_view();
                        proof {
                            assert(crate::value::frozen_shape_valid(f[k as int], f.len()));
                        }
                        let mut out: Vec<Value> = Vec::new();
                        let mut j: usize = 0;
                        while j < items.len()
                            invariant
                                j <= items@.len(),
                                f == m.frozen_view(),
                                f[k as int] == Shape::<usize>::List(items@),
                                crate::value::frozen_shape_valid(f[k as int], f.len()),
                                out@ == items@.take(j as int).map_values(|t: usize| Value::Frozen(t)),
                            decreases items@.len() - j,
                        {
                            proof {
                                assert(crate::value::refs_of(f[k as int])[j as int] == items@[j as int]);
                            }
                            out.push(Value::Frozen(items[j]));
                            proof {
                                assert(items@.take(j + 1).map_values(|t: usize| Value::Frozen(t)) =~= items@.take(
                                    j as int,
                                ).map_values(|t: usize| Value::Frozen(t)).push(Value::Frozen(items@[j as int])));
                            }
                            j = j + 1;
                        }
                        proof {
                            assert(items@.take(items@.len() as int) =~= items@);
                            assert forall|t: int| 0 <= t < out@.len() implies value_valid(
                                #[trigger] out@[t], m.heap_view().len(), m.frozen_view().len()) by {
                                assert(crate::value::refs_of(f[k as int])[t] == items@[t]);
                            }
                        }
                        Ok(out)
                    },
                    _ => Err(ListError::NotAList),
                }
            } else {
                Err(ListError::NotAList)
            }
        },
    }
}

/// Appends the items of the list `other` (mutable or frozen) to the list
/// `this`; a list extended by itself doubles.
pub fn list_extend(m: &mut Module, this: Value, other: Value) -> (r: Result<(), ListError>)
    requires
        old(m).wf(),
    ensures
        final(m).wf(),
        final(m).frozen_view() == old(m).frozen_view(),
        final(m).names_view() == old(m).names_view(),
        final(m).slots_view() == old(m).slots_view(),
        match (list_of(old(m), this), iterable_items(old(m), other)) {
            (Some(l), Some(o)) => r is Ok && final(m).heap_view() == old(m).heap_view().update(this->Mutable_0 as int, Shape::List(l + o)),
            _ => r == Err::<(), ListError>(ListError::NotAList) && final(m).heap_view() == old(m).heap_view(),
        },
{
    let mut v = match list_elements(m, this) {
        Ok(v) => v,
        Err(e) => return Err(e),
    };
    let o = match iter_elements(m, other) {
        Ok(o) => o,
        Err(e) => return Err(e),
    };
    proof {
        lemma_elements_valid(m, this);
    }
    let ghost v0 = v@;
    let mut k: usize = 0;
    while k < o.len()
        invariant
            k <= o@.len(),
            v@ == v0 + o@.take(k as int),
        decreases o@.len() - k,
    {
        v.push(o[k]);
        proof {
            assert(o@.take(k + 1) =~= o@.take(k as int).push(o@[k as int]));
            assert(v0 + o@.take(k + 1) =~= (v0 + o@.take(k as int)).push(o@[k as int]));
        }
        k = k + 1;
    }
    proof {
        assert(o@.take(o@.len() as int) =~= o@);
        assert forall|j: int| 0 <= j < v@.len() implies value_valid(#[trigger] v@[j], m.heap_view().len(), m.frozen_view().len()) by {
            if j < v0.len() {
                assert(v@[j] == v0[j]);
            } else {
                assert(v@[j] == o@[j - v0.len()]);
            }
        }
    }
    store(m, this, v);
    Ok(())
}

/// Inserts `el` before position `index`, which is first clamped to the list
/// (a negative one counting from the end).
pub fn list_insert(m: &mut Module, this: Value, index: i32, el: Value) -> (r: Result<(), ListError>)
    requires
        old(m).wf(),
        value_valid(el, old(m).heap_view().len(), old(m).frozen_view().len()),
    ensures
        final(m).wf(),
        final(m).frozen_view() == old(m).frozen_view(),
        final(m).names_view() == old(m).names_view(),
        final(m).slots_view() == old(m).slots_view(),
        match list_of(old(m), this) {
            Some(l) => r is Ok && final(m).heap_view() == old(m).heap_view().update(this->Mutable_0 as int, Shape::List(l.insert(convert_index(l.len() as int, index as int), el))),
            None => r == Err::<(), ListError>(ListError::NotAList) && final(m).heap_view() == old(m).heap_view(),
        },
{
    let mut v = match list_elements(m, this) {
        Ok(v) => v,
        Err(e) => return Err(e),
    };
    proof {
        lemma_elements_valid(m, this);
    }
    let len = v.len();
    let at: usize = if index < 0 {
        let back = (-(index as i64)) as usize;
        if back <= len { len - back } else { 0 }
    } else if (index as usize) > len {
        len
    } else {
        index as usize
    };
    let ghost v0 = v@;
    v.insert(at, el);
    proof {
        assert(at as int == convert_index(len as int, index as int));
        assert forall|j: int| 0 <= j < v@.len() implies value_valid(#[trigger] v@[j], m.heap_view().len(), m.frozen_view().len()) by {
            if j < at {
                assert(v@[j] == v0[j]);
            } else if j > at {
                assert(v@[j] == v0[j - 1]);
            }
        }
    }
    store(m, this, v);
    Ok(())
}

/// Removes and returns the element at `index`, the last one by default.
/// Negative indices are refused.
pub fn list_pop(m: &mut Module, this: Value, index: Option<i32>) -> (r: Result<Value, ListError>)
    requires
        old(m).wf(),
    ensures
        final(m).wf(),
        final(m).frozen_view() == old(m).frozen_view(),
        final(m).names_view() == old(m).names_view(),
        final(m).slots_view() == old(m).slots_view(),
        match list_of(old(m), this) {
            Some(l) => {
                let k: int = match index {
                    Some(i) => i as int,
                    None => l.len() - 1,
                };
                if 0 <= k < l.len() {
                    r == Ok::<Value, ListError>(l[k]) && final(m).heap_view() == old(m).heap_view().update(this->Mutable_0 as int, Shape::List(l.remove(k)))
                } else {
                    r == Err::<Value, ListError>(ListError::IndexOutOfBound(match index {
                        Some(i) => i,
                        None => -1i32,
                    })) && final(m).heap_view() == old(m).heap_view()
                }
            },
            None => r == Err::<Value, ListError>(ListError::NotAList) && final(m).heap_view() == old(m).heap_view(),
        },
{
    let mut v = match list_elements(m, this) {
        Ok(v) => v,
        Err(e) => return Err(e),
    };
    proof {
        lemma_elements_valid(m, this);
    }
    let len = v.len();
    let k: usize = match index {
        Some(i) => {
            if i < 0 || (i as usize) >= len {
                return Err(ListError::IndexOutOfBound(i));
            }
            i as usize
        },
        None => {
            if len == 0 {
                return Err(ListError::IndexOutOfBound(-1));
            }
            len - 1
        },
    };
    let ghost v0 = v@;
    let out = v.remove(k);
    proof {
        assert forall|j: int| 0 <= j < v@.len() implies value_valid(#[trigger] v@[j], m.heap_view().len(), m.frozen_view().len()) by {
            if j < k {
                assert(v@[j] == v0[j]);
            } else {
                assert(v@[j] == v0[j + 1]);
            }
        }
    }
    store(m, this, v);
    Ok(out)
}

/// The position of the first element equal to `needle` within the range
/// `start..end` (each clamped as `insert` does; by default the whole list).
pub fn list_index(m: &Module, this: Value, needle: Value, start: Option<i32>, end: Option<i32>) -> (r: Result<usize, ListError>)
    ensures
        match list_of(m, this) {
            Some(l) => {
                let lo = match start { Some(s) => convert_index(l.len() as int, s as int), None => 0 };
                let hi = match end { Some(e) => convert_index(l.len() as int, e as int), None => l.len() as int };
                match r {
                    Ok(p) => first_equal(m, l, needle, lo, hi, p as int),
                    Err(e) => e == ListError::NotFound && forall|q: int|
                        lo <= q < hi ==> !values_equal(m.heap_view(), m.frozen_view(), #[trigger] l[q], needle),
                }
            },
            None => r == Err::<usize, ListError>(ListError::NotAList),
        },
{
    let v = match list_elements(m, this) {
        Ok(v) => v,
        Err(e) => return Err(e),
    };
    let len = v.len();
    let lo: usize = match start {
        Some(s) => clamp(len, s),
        None => 0,
    };
    let hi: usize = match end {
        Some(e) => clamp(len, e),
        None => len,
    };
    let mut k: usize = lo;
    while k < hi
        invariant
            lo <= k,
            lo <= hi ==> k <= hi,
            hi <= v@.len(),
            list_of(m, this) == Some(v@),
            match start { Some(s) => lo as int == convert_index(v@.len() as int, s as int), None => lo == 0 },
            match end { Some(e) => hi as int == convert_index(v@.len() as int, e as int), None => hi == v@.len() },
            forall|q: int| lo <= q < k ==> !values_equal(m.heap_view(), m.frozen_view(), #[trigger] v@[q], needle),
        decreases hi - k,
    {
        if equals(m, v[k], needle) {
            return Ok(k);
        }
        k = k + 1;
    }
    Err(ListError::NotFound)
}

fn clamp(len: usize, index: i32) -> (r: usize)
    ensures
        r as int == convert_index(len as int, index as int),
{
    if index < 0 {
        let back = (-(index as i64)) as usize;
        if back <= len { len - back } else { 0 }
    } else if (index as usize) > len {
        len
    } else {
        index as usize
    }
}

/// Removes the first element equal to `needle`.
pub fn list_remove(m: &mut Module, this: Value, needle: Value) -> (r: Result<(), ListError>)
    requires
        old(m).wf(),
    ensures
        final(m).wf(),
        final(m).frozen_view() == old(m).frozen_view(),
        final(m).names_view() == old(m).names_view(),
        final(m).slots_view() == old(m).slots_view(),
        match list_of(old(m), this) {
            Some(l) => match r {
                Ok(_) => exists|p: int| first_equal(old(m), l, needle, 0, l.len() as int, p)
                    && final(m).heap_view() == old(m).heap_view().update(this->Mutable_0 as int, Shape::List(l.remove(p))),
                Err(e) => e == ListError::NotFound && final(m).heap_view() == old(m).heap_view()
                    && forall|q: int| 0 <= q < l.len() ==> !values_equal(old(m).heap_view(), old(m).frozen_view(), #[trigger] l[q], needle),
            },
            None => r == Err::<(), ListError>(ListError::NotAList) && final(m).heap_view() == old(m).heap_view(),
        },
{
    let p = match list_index(m, this, needle, None, None) {
        Ok(p) => p,
        Err(e) => return Err(e),
    };
    let mut v = match list_elements(m, this) {
        Ok(v) => v,
        Err(e) => return Err(e),
    };
    proof {
        lemma_elements_valid(m, this);
    }
    let ghost v0 = v@;
    v.remove(p);
    proof {
        assert forall|j: int| 0 <= j < v@.len() implies value_valid(#[trigger] v@[j], m.heap_view().len(), m.frozen_view().len()) by {
            if j < p {
                assert(v@[j] == v0[j]);
            } else {
                assert(v@[j] == v0[j + 1]);
            }
        }
    }
    store(m, this, v);
    Ok(())
}

} // verus!
