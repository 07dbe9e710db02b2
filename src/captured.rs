//! Capture cells: the storage that a nested function shares with the scope
//! that encloses it.
use vstd::prelude::*;
use crate::modules::Module;
use crate::value::{value_valid, FrozenData, HeapData, Shape, Value};

verus! {

/// The cell a value refers to is a capture cell, on either heap.
pub open spec fn is_captured(m: &Module, v: Value) -> bool {
    match v {
        Value::Mutable(i) => i < m.heap_view().len() && m.heap_view()[i as int] is Captured,
        Value::Frozen(k) => k < m.frozen_view().len() && m.frozen_view()[k as int] is Captured,
    }
}

/// Creates an empty capture cell.
pub fn captured_new(m: &mut Module) -> (r: Value)
    requires
        old(m).wf(),
    ensures
        final(m).wf(),
        r == Value::Mutable(old(m).heap_view().len() as usize),
        final(m).heap_view() == old(m).heap_view().push(Shape::Captured(None)),
        final(m).frozen_view() == old(m).frozen_view(),
        final(m).names_view() == old(m).names_view(),
        final(m).slots_view() == old(m).slots_view(),
{
    m.alloc_value(HeapData::Captured(None))
}

/// Stores `value` in the capture cell `cell`. A capture cell never holds
/// another capture cell.
pub fn captured_set(m: &mut Module, cell: Value, value: Value)
    requires
        old(m).wf(),
        cell matches Value::Mutable(i) && i < old(m).heap_view().len() && old(m).heap_view()[i as int] is Captured,
        value_valid(value, old(m).heap_view().len(), old(m).frozen_view().len()),
        !is_captured(old(m), value),
    ensures
        final(m).wf(),
        final(m).heap_view() == old(m).heap_view().update(cell->Mutable_0 as int, Shape::Captured(Some(value))),
        final(m).frozen_view() == old(m).frozen_view(),
        final(m).names_view() == old(m).names_view(),
        final(m).slots_view() == old(m).slots_view(),
{
    let i = match cell {
        Value::Mutable(i) => i,
        Value::Frozen(_) => 0,
    };
    let data = HeapData::Captured(Some(value));
    proof {
        assert(crate::value::refs_of(data@) =~= seq![value]);
    }
    m.replace_value(i, data);
}

/// The value held by the capture cell `cell`, mutable or frozen.
pub fn value_captured_get(m: &Module, cell: Value) -> (r: Option<Value>)
    requires
        is_captured(m, cell),
    ensures
        match cell {
            Value::Mutable(i) => r == m.heap_view()[i as int]->Captured_0,
            Value::Frozen(k) => r == match m.frozen_view()[k as int]->Captured_0 {
                Some(j) => Some(Value::Frozen(j)),
                None => None,
            },
        },
{
    match cell {
        Value::Mutable(i) => match m.heap().cell(i) {
            HeapData::Captured(c) => *c,
            _ => None,
        },
        Value::Frozen(k) => match m.frozen_heap().cell(k) {
            FrozenData::Captured(c) => match c {
                Some(j) => Some(Value::Frozen(*j)),
                None => None,
            },
            _ => None,
        },
    }
}

} // verus!
