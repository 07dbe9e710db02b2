//! The module environment: a mutable `Module` used while a program runs, and
//! the immutable `FrozenModule` that freezing turns it into.
//!
//! No value kind here refers back to the module that owns it (there are no
//! function values), so a frozen module needs no handle to itself.
use vstd::prelude::*;
use crate::names::{
    add_slot, add_spec, lemma_add_wf, lookup, EntryModel, FrozenNames, MutableNames, Visibility,
};
use crate::slots::{read_spec, FrozenSlots, MutableSlots};
use crate::did_you_mean::{did_you_mean, edit_distance, is_best, MAX_EDIT_DISTANCE};
use crate::names::{index_of, lemma_index_of_unique, names_unique, upgrade};
use crate::value::{refs_of, 
    freeze_relation, frozen_closed, frozen_shape_valid, heap_valid, shape_valid, value_valid,
    FrozenData, FrozenHeap, Heap, HeapData, Shape, Value,
};

verus! {

/// The visibility a name gets by default: Private when it starts with an
/// underscore, Public otherwise.
pub open spec fn default_vis(name: Seq<char>) -> Visibility {
    if name.len() > 0 && name[0] == '_' {
        Visibility::Private
    } else {
        Visibility::Public
    }
}

/// The value and visibility bound to `name`, where the name is bound and its
/// slot is assigned.
pub open spec fn binding<T>(names: Seq<EntryModel>, slots: Seq<Option<T>>, name: Seq<char>) -> Option<
    (T, Visibility),
> {
    match lookup(names, name) {
        Some((s, vis)) => match read_spec(slots, s) {
            Ok(v) => Some((v, vis)),
            Err(_) => None,
        },
        None => None,
    }
}

/// The value bound to `name` where the binding is Public.
pub open spec fn exported<T>(names: Seq<EntryModel>, slots: Seq<Option<T>>, name: Seq<char>) -> Option<T> {
    match binding(names, slots, name) {
        Some((v, Visibility::Public)) => Some(v),
        _ => None,
    }
}

/// The documentation of a module: its own, and that of each top-level
/// exported symbol, in order.
pub struct ModuleDocs {
    /// The module's docstring.
    pub module: Option<String>,
    /// Each exported symbol whose name is Public by default, with its
    /// documentation; the values held here carry none.
    pub members: Vec<(String, Option<String>)>,
}

/// A capture cell holds no other capture cell: `sh`, if it is a filled
/// capture cell, refers to a cell of `h` or `f` that is not one.
pub open spec fn holds_no_capture(h: Seq<Shape<Value>>, f: Seq<Shape<usize>>, sh: Shape<Value>) -> bool {
    match sh {
        Shape::Captured(Some(Value::Mutable(i))) => !(i < h.len() && h[i as int] is Captured),
        Shape::Captured(Some(Value::Frozen(k))) => !(k < f.len() && f[k as int] is Captured),
        _ => true,
    }
}

/// A container for user values, used during execution.
pub struct Module {
    heap: Heap,
    frozen_heap: FrozenHeap,
    names: MutableNames,
    slots: MutableSlots,
    docstring: Option<String>,
    /// Where the heaps of loaded modules were placed on `frozen_heap`, as
    /// (offset, length); consulted before placing a heap again.
    adopted: Vec<(usize, usize)>,
}

/// The result of freezing a `Module`: its bindings, with every value on an
/// immutable heap.
pub struct FrozenModule {
    heap: FrozenHeap,
    names: FrozenNames,
    slots: FrozenSlots,
    docstring: Option<String>,
}

impl Module {
    pub closed spec fn names_view(&self) -> Seq<EntryModel> {
        self.names@
    }

    pub closed spec fn slot_count(&self) -> nat {
        self.names.spec_slot_count()
    }

    pub closed spec fn slots_view(&self) -> Seq<Option<Value>> {
        self.slots@
    }

    pub closed spec fn heap_view(&self) -> Seq<Shape<Value>> {
        self.heap@
    }

    pub closed spec fn frozen_view(&self) -> Seq<Shape<usize>> {
        self.frozen_heap@
    }

    pub closed spec fn docstring_view(&self) -> Option<Seq<char>> {
        match self.docstring {
            Some(d) => Some(d@),
            None => None,
        }
    }

    /// The symbol table and the slot array agree on the number of slots, and
    /// every reference is valid.
    pub open spec fn wf(&self) -> bool {
        &&& crate::names::table_wf(self.names_view(), self.slot_count())
        &&& self.slots_view().len() == self.slot_count()
        &&& heap_valid(self.heap_view(), self.frozen_view().len())
        &&& frozen_closed(self.frozen_view())
        &&& forall|s: int|
            0 <= s < self.slots_view().len() && (#[trigger] self.slots_view()[s]) is Some
                ==> value_valid(
                self.slots_view()[s].unwrap(),
                self.heap_view().len(),
                self.frozen_view().len(),
            )
    }

    /// The value and visibility bound to `name`.
    pub open spec fn binding_of(&self, name: Seq<char>) -> Option<(Value, Visibility)> {
        binding(self.names_view(), self.slots_view(), name)
    }

    /// Creates a module with no bindings and empty heaps.
    pub fn new() -> (r: Self)
        ensures
            r.wf(),
            r.names_view() == Seq::<EntryModel>::empty(),
            r.slots_view() == Seq::<Option<Value>>::empty(),
            r.heap_view() == Seq::<Shape<Value>>::empty(),
            r.frozen_view() == Seq::<Shape<usize>>::empty(),
            r.docstring_view() is None,
    {
        Module {
            heap: Heap::new(),
            frozen_heap: FrozenHeap::new(),
            names: MutableNames::new(),
            slots: MutableSlots::new(),
            docstring: None,
            adopted: Vec::new(),
        }
    }

    /// The heap on which this module allocates values.
    pub fn heap(&self) -> (r: &Heap)
        ensures
            r@ == self.heap_view(),
    {
        &self.heap
    }

    /// The frozen heap that holds this module's constants and imported values.
    pub fn frozen_heap(&self) -> (r: &FrozenHeap)
        ensures
            r@ == self.frozen_view(),
    {
        &self.frozen_heap
    }

    /// Allocates `data` on the mutable heap.
    pub fn alloc_value(&mut self, data: HeapData) -> (r: Value)
        requires
            old(self).wf(),
            shape_valid(data@, old(self).heap_view().len() + 1, old(self).frozen_view().len()),
            holds_no_capture(old(self).heap_view().push(data@), old(self).frozen_view(), data@),
        ensures
            final(self).wf(),
            r == Value::Mutable(old(self).heap_view().len() as usize),
            final(self).heap_view() == old(self).heap_view().push(data@),
            final(self).frozen_view() == old(self).frozen_view(),
            final(self).names_view() == old(self).names_view(),
            final(self).slot_count() == old(self).slot_count(),
            final(self).slots_view() == old(self).slots_view(),
    {
        let r = self.heap.allocate(data);
        proof {
            let h = self.heap@;
            assert forall|i: int| 0 <= i < h.len() implies shape_valid(
                #[trigger] h[i],
                h.len(),
                self.frozen_heap@.len(),
            ) by {
                if i < h.len() - 1 {
                    assert(shape_valid(old(self).heap@[i], (h.len() - 1) as nat, self.frozen_heap@.len()));
                    lemma_shape_valid_grow(h[i], (h.len() - 1) as nat, self.frozen_heap@.len(), h.len(), self.frozen_heap@.len());
                }
            }
        }
        r
    }

    /// Replaces the contents of the mutable cell `i`.
    pub fn replace_value(&mut self, i: usize, data: HeapData)
        requires
            old(self).wf(),
            i < old(self).heap_view().len(),
            shape_valid(data@, old(self).heap_view().len(), old(self).frozen_view().len()),
            holds_no_capture(old(self).heap_view().update(i as int, data@), old(self).frozen_view(), data@),
        ensures
            final(self).wf(),
            final(self).heap_view() == old(self).heap_view().update(i as int, data@),
            final(self).frozen_view() == old(self).frozen_view(),
            final(self).names_view() == old(self).names_view(),
            final(self).slot_count() == old(self).slot_count(),
            final(self).slots_view() == old(self).slots_view(),
    {
        self.heap.replace(i, data);
    }

    /// Allocates an already frozen constant on the module's frozen heap.
    pub fn alloc_frozen(&mut self, data: FrozenData) -> (r: Value)
        requires
            old(self).wf(),
            frozen_shape_valid(data@, old(self).frozen_view().len()),
        ensures
            final(self).wf(),
            r == Value::Frozen(old(self).frozen_view().len() as usize),
            final(self).frozen_view() == old(self).frozen_view().push(data@),
            final(self).heap_view() == old(self).heap_view(),
            final(self).names_view() == old(self).names_view(),
            final(self).slot_count() == old(self).slot_count(),
            final(self).slots_view() == old(self).slots_view(),
    {
        let k = self.frozen_heap.allocate(data);
        proof {
            let f = self.frozen_heap@;
            assert forall|j: int| 0 <= j < f.len() implies frozen_shape_valid(#[trigger] f[j], f.len()) by {
                if j < f.len() - 1 {
                    assert(frozen_shape_valid(old(self).frozen_heap@[j], (f.len() - 1) as nat));
                }
            }
            lemma_heap_valid_grow(self.heap@, (f.len() - 1) as nat, f.len());
        }
        Value::Frozen(k)
    }

    /// The value in slot `slot`, telling an unassigned slot from one never
    /// allocated.
    pub fn read_slot(&self, slot: usize) -> (r: Result<Value, crate::slots::SlotError>)
        ensures
            r == read_spec(self.slots_view(), slot),
    {
        self.slots.read_slot(slot)
    }

    /// The value and visibility bound to `name`, exported or not.
    pub fn get_any_visibility(&self, name: &str) -> (r: Option<(Value, Visibility)>)
        requires
            self.wf(),
        ensures
            r == self.binding_of(name@),
    {
        match self.names.get_name(name) {
            Some((slot, vis)) => match self.slots.get_slot(slot) {
                Some(v) => Some((v, vis)),
                None => None,
            },
            None => None,
        }
    }

    /// The value of the exported variable `name`; None if it is not bound,
    /// not assigned, or Private.
    pub fn get(&self, name: &str) -> (r: Option<Value>)
        requires
            self.wf(),
        ensures
            r == exported(self.names_view(), self.slots_view(), name@),
    {
        match self.get_any_visibility(name) {
            Some((v, Visibility::Public)) => Some(v),
            _ => None,
        }
    }

    /// The default visibility of `symbol`: names starting with an underscore
    /// are Private.
    pub fn default_visibility(symbol: &str) -> (r: Visibility)
        ensures
            r == default_vis(symbol@),
    {
        if symbol.unicode_len() > 0 && symbol.get_char(0) == '_' {
            Visibility::Private
        } else {
            Visibility::Public
        }
    }

    /// Binds `name` to `value` with visibility `vis` (upgraded only, as the
    /// symbol table does).
    fn set_visibility(&mut self, name: &str, value: Value, vis: Visibility)
        requires
            old(self).wf(),
            value_valid(value, old(self).heap_view().len(), old(self).frozen_view().len()),
            old(self).slot_count() + 1 < usize::MAX,
        ensures
            final(self).wf(),
            final(self).names_view() == add_spec(old(self).names_view(), old(self).slot_count(), name@, vis).0,
            final(self).slot_count() == add_spec(old(self).names_view(), old(self).slot_count(), name@, vis).1,
            final(self).slots_view() == slots_after_set(
                old(self).slots_view(),
                add_slot(old(self).names_view(), old(self).slot_count(), name@),
                value,
            ),
            final(self).heap_view() == old(self).heap_view(),
            final(self).frozen_view() == old(self).frozen_view(),
            final(self).docstring_view() == old(self).docstring_view(),
            final(self).binding_of(name@) == Some((value, vis_after(old(self).names_view(), name@, vis))),
            lookup(old(self).names_view(), name@) matches Some((s, v)) ==> lookup(final(self).names_view(), name@)
                == Some((s, upgrade(v, vis))),
    {
        proof {
            lemma_add_wf(self.names@, self.names.spec_slot_count(), name@, vis);
            lemma_set_binds(self.names@, self.names.spec_slot_count(), self.slots@, name@, vis, value);
        }
        let slot = self.names.add_name_visibility(name, vis);
        self.slots.ensure_slot(slot);
        self.slots.set_slot(slot, value);
        proof {
            assert(self.slots@ =~= slots_after_set(old(self).slots@, slot, value));
        }
    }

    /// Sets a variable; it is Public unless its name starts with an underscore.
    pub fn set(&mut self, name: &str, value: Value)
        requires
            old(self).wf(),
            value_valid(value, old(self).heap_view().len(), old(self).frozen_view().len()),
            old(self).slot_count() + 1 < usize::MAX,
        ensures
            final(self).wf(),
            final(self).names_view() == add_spec(
                old(self).names_view(),
                old(self).slot_count(),
                name@,
                default_vis(name@),
            ).0,
            final(self).slot_count() == add_spec(
                old(self).names_view(),
                old(self).slot_count(),
                name@,
                default_vis(name@),
            ).1,
            final(self).slots_view() == slots_after_set(
                old(self).slots_view(),
                add_slot(old(self).names_view(), old(self).slot_count(), name@),
                value,
            ),
            final(self).heap_view() == old(self).heap_view(),
            final(self).frozen_view() == old(self).frozen_view(),
            final(self).docstring_view() == old(self).docstring_view(),
            final(self).binding_of(name@) == Some((value, vis_after(old(self).names_view(), name@, default_vis(name@)))),
            lookup(old(self).names_view(), name@) matches Some((s, v)) ==> lookup(final(self).names_view(), name@)
                == Some((s, upgrade(v, default_vis(name@)))),
    {
        let vis = Self::default_visibility(name);
        self.set_visibility(name, value, vis);
    }

    /// Sets a variable as Private, so that it is not re-exported (an existing
    /// Public binding stays Public).
    pub fn set_private(&mut self, name: &str, value: Value)
        requires
            old(self).wf(),
            value_valid(value, old(self).heap_view().len(), old(self).frozen_view().len()),
            old(self).slot_count() + 1 < usize::MAX,
        ensures
            final(self).wf(),
            final(self).names_view() == add_spec(
                old(self).names_view(),
                old(self).slot_count(),
                name@,
                Visibility::Private,
            ).0,
            final(self).slot_count() == add_spec(
                old(self).names_view(),
                old(self).slot_count(),
                name@,
                Visibility::Private,
            ).1,
            final(self).slots_view() == slots_after_set(
                old(self).slots_view(),
                add_slot(old(self).names_view(), old(self).slot_count(), name@),
                value,
            ),
            final(self).heap_view() == old(self).heap_view(),
            final(self).frozen_view() == old(self).frozen_view(),
            final(self).docstring_view() == old(self).docstring_view(),
            final(self).binding_of(name@) == Some((value, vis_after(old(self).names_view(), name@, Visibility::Private))),
            lookup(old(self).names_view(), name@) matches Some((s, v)) ==> lookup(final(self).names_view(), name@)
                == Some((s, upgrade(v, Visibility::Private))),
    {
        self.set_visibility(name, value, Visibility::Private);
    }

    /// Sets the module's docstring, replacing any earlier one.
    pub fn set_docstring(&mut self, docstring: String)
        ensures
            final(self).docstring_view() == Some(docstring@),
            final(self).names_view() == old(self).names_view(),
            final(self).slot_count() == old(self).slot_count(),
            final(self).slots_view() == old(self).slots_view(),
            final(self).heap_view() == old(self).heap_view(),
            final(self).frozen_view() == old(self).frozen_view(),
    {
        self.docstring = Some(docstring);
    }
}

/// The slot array after assigning `value` to `slot`, growing it as needed.
pub open spec fn slots_after_set(s: Seq<Option<Value>>, slot: usize, value: Value) -> Seq<Option<Value>> {
    let grown = if slot < s.len() {
        s
    } else {
        s + Seq::new((slot + 1 - s.len()) as nat, |i: int| None::<Value>)
    };
    grown.update(slot as int, Some(value))
}

proof fn lemma_shape_valid_grow(sh: Shape<Value>, h1: nat, f1: nat, h2: nat, f2: nat)
    requires
        shape_valid(sh, h1, f1),
        h1 <= h2,
        f1 <= f2,
    ensures
        shape_valid(sh, h2, f2),
{
    assert forall|j: int| 0 <= j < crate::value::refs_of(sh).len() implies value_valid(
        #[trigger] crate::value::refs_of(sh)[j],
        h2,
        f2,
    ) by {
        assert(value_valid(crate::value::refs_of(sh)[j], h1, f1));
    }
}

proof fn lemma_heap_valid_grow(h: Seq<Shape<Value>>, f1: nat, f2: nat)
    requires
        heap_valid(h, f1),
        f1 <= f2,
    ensures
        heap_valid(h, f2),
{
    assert forall|i: int| 0 <= i < h.len() implies shape_valid(#[trigger] h[i], h.len(), f2) by {
        lemma_shape_valid_grow(h[i], h.len(), f1, h.len(), f2);
    }
}

/// The exported names that documentation lists: those Public by default
/// whose slot is assigned.
pub open spec fn documented_names(f: &FrozenModule, syms: Seq<(Seq<char>, usize)>) -> Seq<Seq<char>>
    decreases syms.len(),
{
    if syms.len() == 0 {
        Seq::empty()
    } else {
        let rest = documented_names(f, syms.drop_last());
        if default_vis(syms.last().0) == Visibility::Public && read_spec(f.slots_view(), syms.last().1) is Ok {
            rest.push(syms.last().0)
        } else {
            rest
        }
    }
}

/// What freezing `m` into `f` keeps: the bindings, the docstring, and every
/// slot's value, moved to the frozen heap by one freezer run.
pub open spec fn frozen_from(m: &Module, f: &FrozenModule) -> bool {
    &&& f.names_view() == m.names_view()
    &&& f.slots_view().len() == m.slots_view().len()
    &&& f.docstring_view() == m.docstring_view()
    &&& exists|memo: Seq<Option<usize>>|
        freeze_relation(m.heap_view(), m.frozen_view(), m.slots_view(), f.heap_view(), f.slots_view(), memo)
}

impl Module {
    /// Freezes the environment: every value in a slot, and all it reaches,
    /// moves to the frozen heap, slot by slot; the mutable heap is dropped.
    pub fn freeze(self) -> (r: FrozenModule)
        requires
            self.wf(),
            self.frozen_view().len() + self.heap_view().len() < usize::MAX,
        ensures
            r.wf(),
            frozen_from(&self, &r),
            r.heap_view().len() <= self.frozen_view().len() + self.heap_view().len(),
    {
        let ghost before = self;
        let Module { heap, frozen_heap, names, slots, docstring, adopted: _ } = self;
        let (fh, frozen_slots) = slots.freeze(&heap, frozen_heap);
        let r = FrozenModule { heap: fh, names: names.freeze(), slots: frozen_slots, docstring };
        proof {
            let memo = choose|memo: Seq<Option<usize>>|
                freeze_relation(heap@, frozen_heap@, slots@, fh@, frozen_slots@, memo);
            assert(freeze_relation(before.heap_view(), before.frozen_view(), before.slots_view(), r.heap_view(), r.slots_view(), memo));
            assert forall|s: int| 0 <= s < r.slots_view().len() && (#[trigger] r.slots_view()[s]) is Some
                implies r.slots_view()[s].unwrap() < r.heap_view().len() by {
                match slots@[s] {
                    Some(v) => {
                        assert(crate::value::mapped(memo, v));
                        if let Value::Mutable(i) = v {
                            assert(memo[i as int] is Some);
                        } else {
                            assert(r.heap_view().take(before.frozen_view().len() as int) == before.frozen_view());
                        }
                    },
                    None => {},
                }
            }
        }
        r
    }
}

impl FrozenModule {
    pub closed spec fn names_view(&self) -> Seq<EntryModel> {
        self.names@
    }

    pub closed spec fn slot_count(&self) -> nat {
        self.names.spec_slot_count()
    }

    pub closed spec fn slots_view(&self) -> Seq<Option<usize>> {
        self.slots@
    }

    pub closed spec fn heap_view(&self) -> Seq<Shape<usize>> {
        self.heap@
    }

    pub closed spec fn docstring_view(&self) -> Option<Seq<char>> {
        match self.docstring {
            Some(d) => Some(d@),
            None => None,
        }
    }

    /// The symbol table and slots agree, and every value lives on the heap.
    pub open spec fn wf(&self) -> bool {
        &&& crate::names::table_wf(self.names_view(), self.slot_count())
        &&& self.slots_view().len() == self.slot_count()
        &&& frozen_closed(self.heap_view())
        &&& forall|s: int|
            0 <= s < self.slots_view().len() && (#[trigger] self.slots_view()[s]) is Some
                ==> self.slots_view()[s].unwrap() < self.heap_view().len()
    }

    /// The frozen value (a cell of the heap) and visibility bound to `name`.
    pub open spec fn binding_of(&self, name: Seq<char>) -> Option<(usize, Visibility)> {
        binding(self.names_view(), self.slots_view(), name)
    }

    /// The value in slot `slot`, telling an unassigned slot from one never
    /// allocated.
    pub fn read_slot(&self, slot: usize) -> (r: Result<usize, crate::slots::SlotError>)
        ensures
            r == read_spec(self.slots_view(), slot),
    {
        self.slots.read_slot(slot)
    }

    /// The value and visibility bound to `name`, exported or not.
    pub fn get_any_visibility(&self, name: &str) -> (r: Option<(usize, Visibility)>)
        requires
            self.wf(),
        ensures
            r == self.binding_of(name@),
    {
        match self.names.get_name(name) {
            Some((slot, vis)) => match self.slots.get_slot(slot) {
                Some(v) => Some((v, vis)),
                None => None,
            },
            None => None,
        }
    }

    /// The value of the exported variable `name`; None if it is not bound,
    /// not assigned, or Private.
    pub fn get(&self, name: &str) -> (r: Option<usize>)
        requires
            self.wf(),
        ensures
            r == exported(self.names_view(), self.slots_view(), name@),
    {
        match self.get_any_visibility(name) {
            Some((v, Visibility::Public)) => Some(v),
            _ => None,
        }
    }

    /// The exported names, in order of definition.
    pub fn names(&self) -> (r: Vec<String>)
        ensures
            r@.len() == crate::names::public_symbols(self.names_view()).len(),
            forall|i: int|
                0 <= i < r@.len() ==> (#[trigger] r@[i])@ == crate::names::public_symbols(
                    self.names_view(),
                )[i].0,
    {
        let symbols = self.names.symbols();
        let mut out: Vec<String> = Vec::new();
        let mut k: usize = 0;
        while k < symbols.len()
            invariant
                k <= symbols@.len(),
                out@.len() == k,
                symbols@.len() == crate::names::public_symbols(self.names_view()).len(),
                forall|i: int|
                    0 <= i < symbols@.len() ==> ((#[trigger] symbols@[i]).0@, symbols@[i].1)
                        == crate::names::public_symbols(self.names_view())[i],
                forall|i: int| 0 <= i < k ==> (#[trigger] out@[i])@ == symbols@[i].0@,
            decreases symbols@.len() - k,
        {
            out.push(symbols[k].0.clone());
            k = k + 1;
        }
        proof {
            assert forall|i: int| 0 <= i < out@.len() implies (#[trigger] out@[i])@
                == crate::names::public_symbols(self.names_view())[i].0 by {
                assert(out@[i]@ == symbols@[i].0@);
            }
        }
        out
    }

    /// The documentation for the module and its top-level exported symbols.
    pub fn module_documentation(&self) -> (r: ModuleDocs)
        requires
            self.wf(),
        ensures
            match r.module {
                Some(d) => self.docstring_view() == Some(d@),
                None => self.docstring_view() is None,
            },
            r.members@.map_values(|m: (String, Option<String>)| m.0@) == documented_names(
                self,
                crate::names::public_symbols(self.names_view()),
            ),
            forall|i: int| 0 <= i < r.members@.len() ==> (#[trigger] r.members@[i]).1 is None,
    {
        let syms = self.exported_symbols();
        let ghost ps = crate::names::public_symbols(self.names_view());
        let mut members: Vec<(String, Option<String>)> = Vec::new();
        let mut j: usize = 0;
        while j < syms.len()
            invariant
                syms@.len() == ps.len(),
                forall|i: int| 0 <= i < syms@.len() ==> ((#[trigger] syms@[i]).0@, syms@[i].1) == ps[i],
                j <= syms@.len(),
                members@.map_values(|m: (String, Option<String>)| m.0@) == documented_names(self, ps.take(j as int)),
                forall|i: int| 0 <= i < members@.len() ==> (#[trigger] members@[i]).1 is None,
            decreases syms@.len() - j,
        {
            let ghost pre = ps.take(j + 1);
            proof {
                assert(pre.drop_last() =~= ps.take(j as int));
                assert(pre.last() == ps[j as int]);
            }
            let ghost m0 = members@;
            if Module::default_visibility(syms[j].0.as_str()) == Visibility::Public {
                match self.slot_value(syms[j].1) {
                    Some(_) => {
                        members.push((syms[j].0.clone(), None));
                        proof {
                            assert(members@.map_values(|m: (String, Option<String>)| m.0@) =~= m0.map_values(
                                |m: (String, Option<String>)| m.0@,
                            ).push(ps[j as int].0));
                        }
                    },
                    None => {},
                }
            }
            j = j + 1;
        }
        proof {
            assert(ps.take(syms@.len() as int) =~= ps);
        }
        ModuleDocs { module: self.documentation(), members }
    }

    /// The exported bindings as (name, slot), in order of definition.
    pub fn exported_symbols(&self) -> (r: Vec<(String, usize)>)
        ensures
            r@.len() == crate::names::public_symbols(self.names_view()).len(),
            forall|i: int|
                0 <= i < r@.len() ==> ((#[trigger] r@[i]).0@, r@[i].1) == crate::names::public_symbols(
                    self.names_view(),
                )[i],
    {
        self.names.symbols()
    }

    /// The value in `slot`, if it is in range and assigned.
    pub fn slot_value(&self, slot: usize) -> (r: Option<usize>)
        ensures
            r == match read_spec(self.slots_view(), slot) {
                Ok(k) => Some(k),
                Err(_) => None::<usize>,
            },
    {
        self.slots.get_slot(slot)
    }

    /// The heap that holds this module's values.
    pub fn frozen_heap(&self) -> (r: &FrozenHeap)
        ensures
            r@ == self.heap_view(),
    {
        &self.heap
    }

    /// The module's docstring, if it was given one.
    pub fn documentation(&self) -> (r: Option<String>)
        ensures
            match r {
                Some(d) => self.docstring_view() == Some(d@),
                None => self.docstring_view() is None,
            },
    {
        match &self.docstring {
            Some(d) => Some(d.clone()),
            None => None,
        }
    }

    /// The exported name bound to `slot`, if any. A linear scan: meant for
    /// error paths.
    pub fn get_slot_name(&self, slot: usize) -> (r: Option<String>)
        requires
            self.wf(),
        ensures
            r is None <==> forall|i: int|
                0 <= i < self.names_view().len() ==> !(self.names_view()[i].1 == slot
                    && self.names_view()[i].2 == Visibility::Public),
            r matches Some(n) ==> exists|i: int|
                0 <= i < self.names_view().len() && self.names_view()[i].1 == slot
                    && self.names_view()[i].2 == Visibility::Public && self.names_view()[i].0 == n@,
    {
        self.names.get_slot_name(slot)
    }
}

/// After freezing, every name reads back the value it had before, equal at
/// every depth, with the same visibility.
pub proof fn lemma_freeze_preserves_get(m: &Module, f: &FrozenModule, name: Seq<char>, fuel: nat)
    requires
        m.wf(),
        frozen_from(m, f),
    ensures
        m.binding_of(name) is Some <==> f.binding_of(name) is Some,
        m.binding_of(name) matches Some((v, vis)) ==> f.binding_of(name).unwrap().1 == vis
            && crate::value::deep_eq(m.heap_view(), f.heap_view(), v, f.binding_of(name).unwrap().0, fuel),
        exported(m.names_view(), m.slots_view(), name) is Some <==> exported(f.names_view(), f.slots_view(), name) is Some,
{
    let memo = choose|memo: Seq<Option<usize>>|
        freeze_relation(m.heap_view(), m.frozen_view(), m.slots_view(), f.heap_view(), f.slots_view(), memo);
    match lookup(m.names_view(), name) {
        Some((s, vis)) => {
            if s < m.slots_view().len() {
                let sv = m.slots_view()[s as int];
                assert(match sv {
                    None => f.slots_view()[s as int] is None,
                    Some(v) => crate::value::mapped(memo, v) && f.slots_view()[s as int] == Some(crate::value::conv(memo, v)),
                });
                if let Some(v) = sv {
                    crate::value::lemma_freeze_deep_eq(
                        m.heap_view(), m.frozen_view(), m.slots_view(), f.heap_view(), f.slots_view(), memo, v, fuel);
                }
            }
        },
        None => {},
    }
}

/// A self-referencing list bound to `name` stays self-referencing, with the
/// same length, after freezing.
pub proof fn lemma_freeze_keeps_self_reference(m: &Module, f: &FrozenModule, name: Seq<char>, j: int)
    requires
        m.wf(),
        frozen_from(m, f),
        m.binding_of(name) matches Some((Value::Mutable(i), _)) && m.heap_view()[i as int] is List
            && 0 <= j < m.heap_view()[i as int]->List_0.len()
            && m.heap_view()[i as int]->List_0[j] == Value::Mutable(i),
    ensures
        f.binding_of(name) matches Some((k, _)) && f.heap_view()[k as int] is List
            && f.heap_view()[k as int]->List_0.len() == m.heap_view()[m.binding_of(name).unwrap().0->Mutable_0 as int]->List_0.len()
            && f.heap_view()[k as int]->List_0[j] == k,
{
    let memo = choose|memo: Seq<Option<usize>>|
        freeze_relation(m.heap_view(), m.frozen_view(), m.slots_view(), f.heap_view(), f.slots_view(), memo);
    let s = lookup(m.names_view(), name).unwrap().0;
    let i = m.binding_of(name).unwrap().0->Mutable_0;
    assert(m.slots_view()[s as int] == Some(Value::Mutable(i)));
    assert(crate::value::mapped(memo, Value::Mutable(i)));
    crate::value::lemma_freeze_keeps_cycle(
        m.heap_view(), m.frozen_view(), m.slots_view(), f.heap_view(), f.slots_view(), memo, i, j);
}

/// Two names bound to the same mutable value are bound to the same frozen
/// value after freezing; names bound to different mutable values are not.
pub proof fn lemma_freeze_keeps_sharing(m: &Module, f: &FrozenModule, a: Seq<char>, b: Seq<char>)
    requires
        m.wf(),
        frozen_from(m, f),
        m.binding_of(a) matches Some((Value::Mutable(_), _)),
        m.binding_of(b) matches Some((Value::Mutable(_), _)),
    ensures
        f.binding_of(a) is Some,
        f.binding_of(b) is Some,
        (f.binding_of(a).unwrap().0 == f.binding_of(b).unwrap().0) <==> (m.binding_of(a).unwrap().0
            == m.binding_of(b).unwrap().0),
{
    let memo = choose|memo: Seq<Option<usize>>|
        freeze_relation(m.heap_view(), m.frozen_view(), m.slots_view(), f.heap_view(), f.slots_view(), memo);
    let sa = lookup(m.names_view(), a).unwrap().0;
    let sb = lookup(m.names_view(), b).unwrap().0;
    crate::value::lemma_freeze_sharing(
        m.heap_view(), m.frozen_view(), m.slots_view(), f.heap_view(), f.slots_view(), memo, sa as int, sb as int);
}

/// Why a symbol could not be loaded from another module.
#[derive(Debug, PartialEq, Eq)]
pub enum EnvironmentError {
    /// The name starts with an underscore, so it cannot be loaded.
    CannotImportPrivateSymbol(String),
    /// The module has no such symbol, and nothing close to it.
    ModuleHasNoSymbol(String),
    /// The module has no such symbol; the second name is a close one that it has.
    ModuleHasNoSymbolDidYouMean(String, String),
    /// The module has the symbol, but does not export it.
    ModuleSymbolIsNotExported(String),
}

/// A frozen cell with every reference moved up by `off`.
pub open spec fn shift_shape(sh: Shape<usize>, off: nat) -> Shape<usize> {
    match sh {
        Shape::List(l) => Shape::List(l.map_values(|k: usize| (k + off) as usize)),
        Shape::Captured(Some(k)) => Shape::Captured(Some((k + off) as usize)),
        _ => sh,
    }
}

/// The cells of a frozen heap placed after `off` other cells.
pub open spec fn shift_heap(f: Seq<Shape<usize>>, off: nat) -> Seq<Shape<usize>> {
    Seq::new(f.len(), |i: int| shift_shape(f[i], off))
}

/// The frozen value that importing takes from `f` for `name`: a Public
/// binding whose name is Public by default, with its slot assigned.
pub open spec fn importable(f: &FrozenModule, name: Seq<char>) -> Option<usize> {
    if default_vis(name) == Visibility::Public {
        exported(f.names_view(), f.slots_view(), name)
    } else {
        None
    }
}

/// The frozen heap `f` holds the cells of `src` from `off` on, references
/// moved up by `off`.
pub open spec fn hosts(f: Seq<Shape<usize>>, src: Seq<Shape<usize>>, off: nat) -> bool {
    &&& off + src.len() <= f.len()
    &&& forall|t: int| 0 <= t < src.len() ==> f[off + t] == shift_shape(#[trigger] src[t], off)
}

/// What importing the exported symbols of `source` does to a module: the
/// frozen heap keeps its cells and hosts those of `source` at `off`, each
/// importable name is bound to its value there, and every other binding is
/// kept.
pub open spec fn import_result(before: &Module, after: &Module, source: &FrozenModule, off: nat) -> bool {
    &&& hosts(after.frozen_view(), source.heap_view(), off)
    &&& before.frozen_view().len() <= after.frozen_view().len()
    &&& after.frozen_view().take(before.frozen_view().len() as int) == before.frozen_view()
    &&& after.heap_view() == before.heap_view()
    &&& forall|name: Seq<char>|
        #[trigger] importable(source, name) matches Some(k) ==> after.binding_of(name) == Some(
            (Value::Frozen((k + off) as usize), vis_after_private(before.names_view(), name)),
        )
    &&& forall|name: Seq<char>|
        #[trigger] importable(source, name) is None ==> after.binding_of(name) == before.binding_of(name)
            && lookup(after.names_view(), name) == lookup(before.names_view(), name)
}

/// `name` is importable from `f`, and is bound among its first `i` entries.
pub open spec fn imported_before(f: &FrozenModule, name: Seq<char>, i: int) -> bool {
    &&& importable(f, name) is Some
    &&& index_of(f.names_view(), name) matches Some(p) && p < i
}

/// The visibility a name has after being set with `vis`, given its binding
/// before.
pub open spec fn vis_after(names: Seq<EntryModel>, name: Seq<char>, vis: Visibility) -> Visibility {
    match lookup(names, name) {
        Some((_, old_vis)) => upgrade(old_vis, vis),
        None => vis,
    }
}

/// The visibility a name has after `set_private`, given its binding before.
pub open spec fn vis_after_private(names: Seq<EntryModel>, name: Seq<char>) -> Visibility {
    match lookup(names, name) {
        Some((_, vis)) => upgrade(vis, Visibility::Private),
        None => Visibility::Private,
    }
}

/// Whether `f` holds the cells of `src` from `off` on, references moved up
/// by `off`.
fn hosts_at(f: &FrozenHeap, src: &FrozenHeap, off: usize) -> (r: bool)
    requires
        off + src@.len() <= f@.len(),
        frozen_closed(src@),
        off + src@.len() <= usize::MAX,
    ensures
        r == hosts(f@, src@, off as nat),
{
    let n = src.len();
    let mut t: usize = 0;
    while t < n
        invariant
            n == src@.len(),
            off + n <= f@.len(),
            off + n <= usize::MAX,
            frozen_closed(src@),
            t <= n,
            forall|q: int| 0 <= q < t ==> f@[off + q] == shift_shape(#[trigger] src@[q], off as nat),
        decreases n - t,
    {
        proof {
            assert(frozen_shape_valid(src@[t as int], n as nat));
        }
        if !cell_matches(f.cell(off + t), src.cell(t), off, n) {
            return false;
        }
        t = t + 1;
    }
    true
}

/// Whether `a` is `b` with its references moved up by `off`.
fn cell_matches(a: &FrozenData, b: &FrozenData, off: usize, n: usize) -> (r: bool)
    requires
        frozen_shape_valid(b@, n as nat),
        off + n <= usize::MAX,
    ensures
        r == (a@ == shift_shape(b@, off as nat)),
{
    match (a, b) {
        (FrozenData::NoneValue, FrozenData::NoneValue) => true,
        (FrozenData::Int(x), FrozenData::Int(y)) => *x == *y,
        (FrozenData::Str(x), FrozenData::Str(y)) => *x == *y,
        (FrozenData::List(x), FrozenData::List(y)) => {
            if x.len() != y.len() {
                proof {
                    assert(y@.map_values(|k: usize| (k + off) as usize).len() == y@.len());
                }
                return false;
            }
            let mut j: usize = 0;
            while j < x.len()
                invariant
                    x@.len() == y@.len(),
                    j <= x@.len(),
                    b@ == Shape::<usize>::List(y@),
                    a@ == Shape::<usize>::List(x@),
                    frozen_shape_valid(b@, n as nat),
                    off + n <= usize::MAX,
                    forall|q: int| 0 <= q < j ==> x@[q] == (#[trigger] y@[q] + off) as usize,
                decreases x@.len() - j,
            {
                proof {
                    assert(refs_of(b@)[j as int] < n);
                }
                if x[j] != y[j] + off {
                    proof {
                        let ms = y@.map_values(|k: usize| (k + off) as usize);
                        assert(ms[j as int] == (y@[j as int] + off) as usize);
                        assert(ms[j as int] != x@[j as int]);
                        assert(x@ != ms);
                        assert(shift_shape(b@, off as nat) == Shape::<usize>::List(ms));
                    }
                    return false;
                }
                j = j + 1;
            }
            proof {
                assert(x@ =~= y@.map_values(|k: usize| (k + off) as usize));
            }
            true
        },
        (FrozenData::Captured(x), FrozenData::Captured(y)) => match (x, y) {
            (None, None) => true,
            (Some(p), Some(q)) => {
                proof {
                    assert(refs_of(b@)[0] == *q);
                }
                *p == *q + off
            },
            _ => false,
        },
        _ => false,
    }
}

/// Setting one name leaves every other name's binding as it was.
proof fn lemma_set_keeps_others(
    names: Seq<EntryModel>,
    next: nat,
    slots: Seq<Option<Value>>,
    added: Seq<char>,
    vis: Visibility,
    value: Value,
    name: Seq<char>,
)
    requires
        crate::names::table_wf(names, next),
        slots.len() == next,
        next < usize::MAX,
        added != name,
    ensures
        lookup(add_spec(names, next, added, vis).0, name) == lookup(names, name),
        binding(
            add_spec(names, next, added, vis).0,
            slots_after_set(slots, add_slot(names, next, added), value),
            name,
        ) == binding(names, slots, name),
{
    let t = add_spec(names, next, added, vis).0;
    crate::names::lemma_add_wf(names, next, added, vis);
    let ns = slots_after_set(slots, add_slot(names, next, added), value);
    match index_of(names, name) {
        Some(i) => {
            assert(t[i].0 == name);
            lemma_index_of_unique(t, name, i);
            let sa = add_slot(names, next, added);
            match index_of(names, added) {
                Some(ia) => {
                    assert(ia != i);
                    assert(names[ia].1 != names[i].1);
                },
                None => {
                    assert(names[i].1 < next);
                },
            }
            assert(names[i].1 != sa);
            if names[i].1 < slots.len() {
                assert(ns[names[i].1 as int] == slots[names[i].1 as int]);
            }
        },
        None => {
            if exists|i: int| 0 <= i < t.len() && #[trigger] t[i].0 == name {
                let i = choose|i: int| 0 <= i < t.len() && #[trigger] t[i].0 == name;
                if i < names.len() {
                    assert(names[i].0 == name);
                } else {
                    assert(t[i].0 == added);
                }
            }
        },
    }
}

/// Setting a name binds it to the value.
proof fn lemma_set_binds(
    names: Seq<EntryModel>,
    next: nat,
    slots: Seq<Option<Value>>,
    added: Seq<char>,
    vis: Visibility,
    value: Value,
)
    requires
        crate::names::table_wf(names, next),
        slots.len() == next,
        next < usize::MAX,
    ensures
        binding(
            add_spec(names, next, added, vis).0,
            slots_after_set(slots, add_slot(names, next, added), value),
            added,
        ) == Some((value, match lookup(names, added) {
            Some((_, old_vis)) => upgrade(old_vis, vis),
            None => vis,
        })),
{
    let t = add_spec(names, next, added, vis).0;
    crate::names::lemma_add_wf(names, next, added, vis);
    match index_of(names, added) {
        Some(i) => {
            lemma_index_of_unique(t, added, i);
        },
        None => {
            lemma_index_of_unique(t, added, names.len() as int);
        },
    }
}

impl Module {
    /// Makes the values of `other` valid here: where an earlier load placed
    /// the same cells on this module's frozen heap, they are reused; else they
    /// are copied onto its end. Returns where they start.
    fn adopt_heap(&mut self, other: &FrozenHeap) -> (r: usize)
        requires
            old(self).wf(),
            frozen_closed(other@),
            old(self).frozen_view().len() + other@.len() <= usize::MAX,
        ensures
            final(self).wf(),
            hosts(final(self).frozen_view(), other@, r as nat),
            r <= old(self).frozen_view().len(),
            old(self).frozen_view().len() <= final(self).frozen_view().len(),
            final(self).frozen_view().take(old(self).frozen_view().len() as int) == old(self).frozen_view(),
            final(self).frozen_view() == old(self).frozen_view() || final(self).frozen_view()
                == old(self).frozen_view() + shift_heap(other@, r as nat),
            final(self).heap_view() == old(self).heap_view(),
            final(self).names_view() == old(self).names_view(),
            final(self).slot_count() == old(self).slot_count(),
            final(self).slots_view() == old(self).slots_view(),
            final(self).docstring_view() == old(self).docstring_view(),
    {
        let n = other.len();
        let mut a: usize = 0;
        while a < self.adopted.len()
            invariant
                n == other@.len(),
                frozen_closed(other@),
                old(self).frozen_view().len() + other@.len() <= usize::MAX,
                *self == *old(self),
                self.wf(),
            decreases self.adopted@.len() - a,
        {
            let (off, len) = self.adopted[a];
            if len == n && off <= self.frozen_heap.len() && n <= self.frozen_heap.len() - off {
                if hosts_at(&self.frozen_heap, other, off) {
                    proof {
                        assert(self.frozen_view().take(old(self).frozen_view().len() as int) =~= old(self).frozen_view());
                    }
                    return off;
                }
            }
            a = a + 1;
        }
        let off = self.append_heap(other);
        self.adopted.push((off, n));
        proof {
            let f = self.frozen_view();
            assert(f.take(old(self).frozen_view().len() as int) =~= old(self).frozen_view());
            assert forall|t: int| 0 <= t < other@.len() implies f[off + t] == shift_shape(#[trigger] other@[t], off as nat) by {
                assert(f[off + t] == shift_heap(other@, off as nat)[t]);
            }
        }
        off
    }

    /// Copies the cells of `other` onto the end of this module's frozen heap;
    /// returns where they start.
    fn append_heap(&mut self, other: &FrozenHeap) -> (r: usize)
        requires
            old(self).wf(),
            frozen_closed(other@),
            old(self).frozen_view().len() + other@.len() <= usize::MAX,
        ensures
            final(self).wf(),
            r == old(self).frozen_view().len(),
            final(self).frozen_view() == old(self).frozen_view() + shift_heap(other@, r as nat),
            final(self).heap_view() == old(self).heap_view(),
            final(self).names_view() == old(self).names_view(),
            final(self).slot_count() == old(self).slot_count(),
            final(self).slots_view() == old(self).slots_view(),
            final(self).docstring_view() == old(self).docstring_view(),
    {
        let off = self.frozen_heap.len();
        let n = other.len();
        let mut t: usize = 0;
        while t < n
            invariant
                n == other@.len(),
                off == old(self).frozen_view().len(),
                off + n <= usize::MAX,
                frozen_closed(other@),
                t <= n,
                self.frozen_heap@ == old(self).frozen_view() + shift_heap(other@.take(t as int), off as nat),
                self.heap@ == old(self).heap_view(),
                self.names == old(self).names,
                self.slots == old(self).slots,
                self.docstring == old(self).docstring,
            decreases n - t,
        {
            let ghost src = other@[t as int];
            proof {
                assert(frozen_shape_valid(src, n as nat));
            }
            let data = match other.cell(t) {
                FrozenData::NoneValue => FrozenData::NoneValue,
                FrozenData::Int(x) => FrozenData::Int(*x),
                FrozenData::Str(s) => FrozenData::Str(s.clone()),
                FrozenData::List(l) => {
                    let mut items: Vec<usize> = Vec::new();
                    let mut j: usize = 0;
                    while j < l.len()
                        invariant
                            src == Shape::List(l@),
                            frozen_shape_valid(src, n as nat),
                            off + n <= usize::MAX,
                            j <= l@.len(),
                            items@ == l@.take(j as int).map_values(|k: usize| (k + off) as usize),
                        decreases l@.len() - j,
                    {
                        proof {
                            assert(refs_of(src)[j as int] < n);
                        }
                        items.push(l[j] + off);
                        proof {
                            assert(l@.take(j + 1).map_values(|k: usize| (k + off) as usize) =~= l@.take(
                                j as int,
                            ).map_values(|k: usize| (k + off) as usize).push((l@[j as int] + off) as usize));
                        }
                        j = j + 1;
                    }
                    proof {
                        assert(l@.take(l@.len() as int) =~= l@);
                    }
                    FrozenData::List(items)
                },
                FrozenData::Captured(c) => match c {
                    None => FrozenData::Captured(None),
                    Some(k) => {
                        proof {
                            assert(refs_of(src)[0] == *k);
                        }
                        FrozenData::Captured(Some(*k + off))
                    },
                },
            };
            proof {
                assert(data@ == shift_shape(src, off as nat));
            }
            self.frozen_heap.allocate(data);
            proof {
                assert(other@.take(t + 1) =~= other@.take(t as int).push(src));
                assert(shift_heap(other@.take(t + 1), off as nat) =~= shift_heap(other@.take(t as int), off as nat).push(shift_shape(src, off as nat)));
            }
            t = t + 1;
        }
        proof {
            assert(other@.take(n as int) =~= other@);
            let f = self.frozen_heap@;
            assert forall|k: int| 0 <= k < f.len() implies frozen_shape_valid(#[trigger] f[k], f.len()) by {
                if k < off {
                    assert(frozen_shape_valid(old(self).frozen_view()[k], off as nat));
                } else {
                    let sh = other@[k - off];
                    assert(frozen_shape_valid(sh, n as nat));
                    assert(f[k] == shift_shape(sh, off as nat));
                    assert forall|j: int| 0 <= j < refs_of(f[k]).len() implies #[trigger] refs_of(f[k])[j] < f.len() by {
                        assert(refs_of(sh)[j] < n);
                    }
                }
            }
            lemma_heap_valid_grow(self.heap@, off as nat, f.len());
        }
        off
    }

    /// Imports every exported symbol of `module` whose name is Public by
    /// default, binding it here as Private (a name already Public here stays
    /// Public). Other bindings are kept.
    pub fn import_public_symbols(&mut self, module: &FrozenModule)
        requires
            old(self).wf(),
            module.wf(),
            old(self).frozen_view().len() + module.heap_view().len() <= usize::MAX,
            old(self).slot_count() + module.names_view().len() + 1 < usize::MAX,
        ensures
            final(self).wf(),
            exists|off: nat| import_result(old(self), final(self), module, off),
    {
        let off = self.adopt_heap(&module.heap);
        let ghost mid = *self;
        let n = module.names.len();
        let mut i: usize = 0;
        while i < n
            invariant
                n == module.names_view().len(),
                module.wf(),
                i <= n,
                self.wf(),
                hosts(mid.frozen_view(), module.heap_view(), off as nat),
                old(self).frozen_view().len() <= mid.frozen_view().len(),
                mid.frozen_view().take(old(self).frozen_view().len() as int) == old(self).frozen_view(),
                self.frozen_view() == mid.frozen_view(),
                self.heap_view() == mid.heap_view(),
                mid.names_view() == old(self).names_view(),
                mid.slots_view() == old(self).slots_view(),
                mid.slot_count() == old(self).slot_count(),
                self.slot_count() <= old(self).slot_count() + i,
                old(self).slot_count() + n + 1 < usize::MAX,
                off + module.heap_view().len() <= usize::MAX,
                forall|j: int| 0 <= j < module.slots_view().len() && (#[trigger] module.slots_view()[j]) is Some
                    ==> module.slots_view()[j].unwrap() + off < self.frozen_view().len(),
                forall|name: Seq<char>|
                    #[trigger] imported_before(module, name, i as int) ==> self.binding_of(name) == Some(
                        (Value::Frozen((importable(module, name).unwrap() + off) as usize), vis_after_private(old(self).names_view(), name)),
                    ),
                forall|name: Seq<char>|
                    !#[trigger] imported_before(module, name, i as int) ==> self.binding_of(name) == old(self).binding_of(name) && lookup(self.names_view(), name) == lookup(old(self).names_view(), name),
            decreases n - i,
        {
            let (name, slot, vis) = module.names.entry(i);
            let ghost before = *self;
            proof {
                lemma_index_of_unique(module.names_view(), name@, i as int);
            }
            if vis == Visibility::Public && Self::default_visibility(name.as_str()) == Visibility::Public {
                match module.slots.get_slot(slot) {
                    Some(k) => {
                        proof {
                            assert(module.slots_view()[slot as int] == Some(k));
                        }
                        let value = Value::Frozen(off + k);
                        self.set_private(name.as_str(), value);
                        proof {
                            assert(importable(module, name@) == Some(k));
                            assert(!imported_before(module, name@, i as int));
                            assert(lookup(before.names_view(), name@) == lookup(old(self).names_view(), name@));
                            lemma_set_binds(before.names_view(), before.slot_count(), before.slots_view(), name@, Visibility::Private, value);
                            assert forall|nm: Seq<char>| nm != name@ implies #[trigger] self.binding_of(nm) == before.binding_of(nm)
                                && lookup(self.names_view(), nm) == lookup(before.names_view(), nm) by {
                                lemma_set_keeps_others(before.names_view(), before.slot_count(), before.slots_view(), name@, Visibility::Private, value, nm);
                            }
                        }
                    },
                    None => {
                        proof {
                            assert(importable(module, name@) is None);
                        }
                    },
                }
            } else {
                proof {
                    assert(importable(module, name@) is None);
                }
            }
            proof {
                assert(!imported_before(module, name@, i as int));
                assert forall|nm: Seq<char>| #[trigger] imported_before(module, nm, i + 1) implies self.binding_of(nm)
                    == Some((Value::Frozen((importable(module, nm).unwrap() + off) as usize), vis_after_private(old(self).names_view(), nm))) by {
                    if nm != name@ {
                        assert(index_of(module.names_view(), nm) != Some(i as int));
                        assert(imported_before(module, nm, i as int));
                    }
                }
                assert forall|nm: Seq<char>| !#[trigger] imported_before(module, nm, i + 1) implies self.binding_of(nm)
                    == old(self).binding_of(nm) && lookup(self.names_view(), nm) == lookup(old(self).names_view(), nm) by {
                    if nm != name@ {
                        assert(index_of(module.names_view(), nm) != Some(i as int));
                        assert(!imported_before(module, nm, i as int));
                    }
                }
            }
            i = i + 1;
        }
        proof {
            assert forall|name: Seq<char>| #[trigger] importable(module, name) is Some implies imported_before(module, name, n as int) by {
                assert(lookup(module.names_view(), name) is Some);
            }
            assert forall|name: Seq<char>| #[trigger] importable(module, name) is None implies self.binding_of(name)
                == old(self).binding_of(name) && lookup(self.names_view(), name) == lookup(old(self).names_view(), name) by {
                assert(!imported_before(module, name, n as int));
            }
            assert(import_result(old(self), self, module, off as nat));
        }
    }
}

/// The names that `f` exports, in order.
pub open spec fn exported_names(f: &FrozenModule) -> Seq<Seq<char>> {
    crate::names::public_symbols(f.names_view()).map_values(|e: (Seq<char>, usize)| e.0)
}

impl Module {
    /// Loads `symbol` from `module`, as `load()` does. A name that starts with
    /// an underscore is refused before `module` is consulted; a missing name
    /// comes with the closest exported name, where one is close enough.
    pub fn load_symbol(&mut self, module: &FrozenModule, symbol: &str) -> (r: Result<Value, EnvironmentError>)
        requires
            old(self).wf(),
            module.wf(),
            old(self).frozen_view().len() + module.heap_view().len() <= usize::MAX,
        ensures
            final(self).wf(),
            final(self).heap_view() == old(self).heap_view(),
            final(self).names_view() == old(self).names_view(),
            final(self).slot_count() == old(self).slot_count(),
            final(self).slots_view() == old(self).slots_view(),
            default_vis(symbol@) == Visibility::Private ==> (r matches Err(
                EnvironmentError::CannotImportPrivateSymbol(s),
            ) && s@ == symbol@),
            default_vis(symbol@) == Visibility::Public ==> match module.binding_of(symbol@) {
                Some((k, Visibility::Public)) => exists|off: nat|
                    r == Ok::<Value, EnvironmentError>(Value::Frozen((k + off) as usize)) && hosts(
                        final(self).frozen_view(),
                        module.heap_view(),
                        off,
                    ) && old(self).frozen_view().len() <= final(self).frozen_view().len()
                        && final(self).frozen_view().take(old(self).frozen_view().len() as int)
                        == old(self).frozen_view(),
                Some((_, Visibility::Private)) => r matches Err(
                    EnvironmentError::ModuleSymbolIsNotExported(s),
                ) && s@ == symbol@,
                None => {
                    &&& (forall|j: int|
                        0 <= j < exported_names(module).len() ==> edit_distance(
                            symbol@,
                            #[trigger] exported_names(module)[j],
                        ) >= MAX_EDIT_DISTANCE) ==> (r matches Err(EnvironmentError::ModuleHasNoSymbol(s))
                        && s@ == symbol@)
                    &&& (exists|j: int|
                        0 <= j < exported_names(module).len() && edit_distance(
                            symbol@,
                            #[trigger] exported_names(module)[j],
                        ) < MAX_EDIT_DISTANCE) ==> (r matches Err(
                        EnvironmentError::ModuleHasNoSymbolDidYouMean(s, b),
                    ) && s@ == symbol@ && exists|i: int|
                        is_best(symbol@, exported_names(module), i) && b@ == exported_names(module)[i])
                },
            },
            !(r is Ok) ==> final(self).frozen_view() == old(self).frozen_view(),
    {
        if Self::default_visibility(symbol) != Visibility::Public {
            return Err(EnvironmentError::CannotImportPrivateSymbol(symbol.to_owned()));
        }
        match module.get_any_visibility(symbol) {
            None => {
                let names = module.names();
                proof {
                    assert(names@.map_values(|c: String| c@) =~= exported_names(module));
                }
                match did_you_mean(symbol, &names) {
                    Some(better) => Err(
                        EnvironmentError::ModuleHasNoSymbolDidYouMean(symbol.to_owned(), better),
                    ),
                    None => Err(EnvironmentError::ModuleHasNoSymbol(symbol.to_owned())),
                }
            },
            Some((k, Visibility::Public)) => {
                proof {
                    let s = lookup(module.names_view(), symbol@).unwrap().0;
                    assert(module.slots_view()[s as int] == Some(k));
                }
                let off = self.adopt_heap(&module.heap);
                proof {
                    assert(k < module.heap_view().len());
                }
                let r = Ok(Value::Frozen(off + k));
                proof {
                    assert(r == Ok::<Value, EnvironmentError>(Value::Frozen((k + off as nat) as usize)));
                }
                r
            },
            Some((_, Visibility::Private)) => Err(
                EnvironmentError::ModuleSymbolIsNotExported(symbol.to_owned()),
            ),
        }
    }
}

/// Right after `import_public_symbols`, a name that the source exports and
/// that this module did not bind is bound here as Private, so `get` does not
/// return it; a later `set` makes it Public.
pub proof fn lemma_import_binds_private(before: &Module, after: &Module, source: &FrozenModule, off: nat, name: Seq<char>)
    requires
        import_result(before, after, source, off),
        importable(source, name) is Some,
        lookup(before.names_view(), name) is None,
    ensures
        after.binding_of(name) matches Some((_, Visibility::Private)),
        exported(after.names_view(), after.slots_view(), name) is None,
{
}

/// Setting a Private binding again with a Public name makes it Public, on
/// the same slot.
pub proof fn lemma_set_upgrades(names: Seq<EntryModel>, next: nat, name: Seq<char>)
    requires
        crate::names::names_unique(names),
        lookup(names, name) matches Some((_, Visibility::Private)),
        default_vis(name) == Visibility::Public,
    ensures
        lookup(add_spec(names, next, name, default_vis(name)).0, name) == Some(
            (lookup(names, name).unwrap().0, Visibility::Public),
        ),
{
    let i = index_of(names, name).unwrap();
    crate::names::lemma_add_names_unique(names, next, name, Visibility::Public);
    lemma_index_of_unique(add_spec(names, next, name, Visibility::Public).0, name, i);
}

} // verus!
