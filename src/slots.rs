//! Slot arrays: the storage of a module's variables, addressed by index.
use vstd::prelude::*;
use crate::value::{freeze_relation, freeze_values, frozen_closed, heap_valid, value_valid, FrozenHeap, Heap, Value};

verus! {

/// Why a slot could not be read.
#[derive(Clone, Copy, Debug, PartialEq, Eq, Structural)]
pub enum SlotError {
    /// The slot was never allocated.
    OutOfRange,
    /// The slot is allocated but was never assigned.
    Absent,
}

/// The result of reading slot `slot` of `s`.
pub open spec fn read_spec<T>(s: Seq<Option<T>>, slot: usize) -> Result<T, SlotError> {
    if slot >= s.len() {
        Err(SlotError::OutOfRange)
    } else {
        match s[slot as int] {
            Some(v) => Ok(v),
            None => Err(SlotError::Absent),
        }
    }
}

/// The slots of a module under construction.
pub struct MutableSlots {
    slots: Vec<Option<Value>>,
}

/// The slots of a frozen module; each holds an index into its frozen heap.
pub struct FrozenSlots {
    slots: Vec<Option<usize>>,
}

impl View for MutableSlots {
    type V = Seq<Option<Value>>;

    closed spec fn view(&self) -> Seq<Option<Value>> {
        self.slots@
    }
}

impl View for FrozenSlots {
    type V = Seq<Option<usize>>;

    closed spec fn view(&self) -> Seq<Option<usize>> {
        self.slots@
    }
}

impl MutableSlots {
    pub fn new() -> (r: Self)
        ensures
            r@ == Seq::<Option<Value>>::empty(),
    {
        MutableSlots { slots: Vec::new() }
    }

    pub fn len(&self) -> (r: usize)
        ensures
            r == self@.len(),
    {
        self.slots.len()
    }

    /// Grows the array so that `slot` is addressable; new slots are absent.
    pub fn ensure_slot(&mut self, slot: usize)
        requires
            slot < usize::MAX,
        ensures
            final(self)@.len() == if slot < old(self)@.len() { old(self)@.len() as int } else { slot + 1 },
            forall|i: int| 0 <= i < old(self)@.len() ==> final(self)@[i] == old(self)@[i],
            forall|i: int| old(self)@.len() <= i < final(self)@.len() ==> final(self)@[i] is None,
    {
        while self.slots.len() <= slot
            invariant
                slot < usize::MAX,
                old(self)@.len() <= self@.len() <= if slot < old(self)@.len() {
                    old(self)@.len() as int
                } else {
                    slot + 1
                },
                forall|i: int| 0 <= i < old(self)@.len() ==> self@[i] == old(self)@[i],
                forall|i: int| old(self)@.len() <= i < self@.len() ==> self@[i] is None,
            decreases slot + 1 - self@.len(),
        {
            self.slots.push(None);
        }
    }

    /// Stores `value` in `slot`.
    pub fn set_slot(&mut self, slot: usize, value: Value)
        requires
            slot < old(self)@.len(),
        ensures
            final(self)@ == old(self)@.update(slot as int, Some(value)),
    {
        self.slots.set(slot, Some(value));
    }

    /// The value in `slot`, or None if it is absent or out of range.
    pub fn get_slot(&self, slot: usize) -> (r: Option<Value>)
        ensures
            r == match read_spec(self@, slot) {
                Ok(v) => Some(v),
                Err(_) => None::<Value>,
            },
    {
        if slot < self.slots.len() {
            self.slots[slot]
        } else {
            None
        }
    }

    /// The value in `slot`, telling an unassigned slot from one never allocated.
    pub fn read_slot(&self, slot: usize) -> (r: Result<Value, SlotError>)
        ensures
            r == read_spec(self@, slot),
    {
        if slot >= self.slots.len() {
            Err(SlotError::OutOfRange)
        } else {
            match self.slots[slot] {
                Some(v) => Ok(v),
                None => Err(SlotError::Absent),
            }
        }
    }

    /// Freezes every present slot through one freezer, keeping slot indices:
    /// slot `i` of the result is the frozen form of slot `i`.
    pub fn freeze(self, heap: &Heap, frozen: FrozenHeap) -> (r: (FrozenHeap, FrozenSlots))
        requires
            heap_valid(heap@, frozen@.len()),
            frozen_closed(frozen@),
            forall|s: int|
                0 <= s < self@.len() && (#[trigger] self@[s]) is Some ==> value_valid(
                    self@[s].unwrap(),
                    heap@.len(),
                    frozen@.len(),
                ),
            frozen@.len() + heap@.len() < usize::MAX,
        ensures
            exists|m: Seq<Option<usize>>| freeze_relation(heap@, frozen@, self@, r.0@, r.1@, m),
            r.0@.len() <= frozen@.len() + heap@.len(),
    {
        let ghost f0 = frozen@;
        assert(self@ == self.slots@);
        let (fh, out) = freeze_values(heap, frozen, &self.slots);
        let r = (fh, FrozenSlots { slots: out });
        proof {
            let m = choose|m: Seq<Option<usize>>| freeze_relation(heap@, f0, self.slots@, fh@, out@, m);
            assert(r.1@ == out@);
            assert(freeze_relation(heap@, f0, self@, r.0@, r.1@, m));
        }
        r
    }
}

impl FrozenSlots {
    pub fn len(&self) -> (r: usize)
        ensures
            r == self@.len(),
    {
        self.slots.len()
    }

    /// The value in `slot`, or None if it is absent or out of range.
    pub fn get_slot(&self, slot: usize) -> (r: Option<usize>)
        ensures
            r == match read_spec(self@, slot) {
                Ok(v) => Some(v),
                Err(_) => None::<usize>,
            },
    {
        if slot < self.slots.len() {
            self.slots[slot]
        } else {
            None
        }
    }

    /// The value in `slot`, telling an unassigned slot from one never allocated.
    pub fn read_slot(&self, slot: usize) -> (r: Result<usize, SlotError>)
        ensures
            r == read_spec(self@, slot),
    {
        if slot >= self.slots.len() {
            Err(SlotError::OutOfRange)
        } else {
            match self.slots[slot] {
                Some(v) => Ok(v),
                None => Err(SlotError::Absent),
            }
        }
    }
}

/// After `ensure_slot(slot)` grows an array, the new slot reads as absent,
/// while the first index past the array reads as out of range.
pub proof fn lemma_absent_differs_from_out_of_range(before: Seq<Option<Value>>, after: Seq<Option<Value>>, slot: usize)
    requires
        slot < usize::MAX,
        before.len() <= slot,
        after.len() == slot + 1,
        forall|i: int| 0 <= i < before.len() ==> after[i] == before[i],
        forall|i: int| before.len() <= i < after.len() ==> after[i] is None,
    ensures
        read_spec(after, slot) == Err::<Value, SlotError>(SlotError::Absent),
        read_spec(after, (slot + 1) as usize) == Err::<Value, SlotError>(SlotError::OutOfRange),
{
}

} // verus!
