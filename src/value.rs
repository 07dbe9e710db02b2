//! Values of the mutable and frozen heaps, and the freezer that moves a
//! reachable value graph from the first to the second.
use vstd::prelude::*;
use vstd::set_lib::{lemma_int_range, lemma_len_subset, set_int_range};

verus! {

/// A reference to a value: either on the module's frozen heap, or on its
/// mutable heap. Each is an index into that heap.
#[derive(Clone, Copy, Debug, PartialEq, Eq, Structural)]
pub enum Value {
    Frozen(usize),
    Mutable(usize),
}

/// What a heap cell holds, with references of type `R`.
pub enum Shape<R> {
    NoneValue,
    Int(int),
    Str(Seq<char>),
    List(Seq<R>),
    Captured(Option<R>),
}

/// A cell of the mutable heap.
pub enum HeapData {
    NoneValue,
    Int(i64),
    Str(String),
    List(Vec<Value>),
    /// The storage a nested function closes over.
    Captured(Option<Value>),
}

/// A cell of a frozen heap; references are indices into the same heap.
pub enum FrozenData {
    NoneValue,
    Int(i64),
    Str(String),
    List(Vec<usize>),
    Captured(Option<usize>),
}

impl View for HeapData {
    type V = Shape<Value>;

    open spec fn view(&self) -> Shape<Value> {
        match self {
            HeapData::NoneValue => Shape::NoneValue,
            HeapData::Int(i) => Shape::Int(*i as int),
            HeapData::Str(s) => Shape::Str(s@),
            HeapData::List(l) => Shape::List(l@),
            HeapData::Captured(c) => Shape::Captured(*c),
        }
    }
}

impl View for FrozenData {
    type V = Shape<usize>;

    open spec fn view(&self) -> Shape<usize> {
        match self {
            FrozenData::NoneValue => Shape::NoneValue,
            FrozenData::Int(i) => Shape::Int(*i as int),
            FrozenData::Str(s) => Shape::Str(s@),
            FrozenData::List(l) => Shape::List(l@),
            FrozenData::Captured(c) => Shape::Captured(*c),
        }
    }
}

/// The references a cell holds, in order.
pub open spec fn refs_of<R>(sh: Shape<R>) -> Seq<R> {
    match sh {
        Shape::List(l) => l,
        Shape::Captured(Some(r)) => seq![r],
        _ => Seq::empty(),
    }
}

/// A reference that points into a heap of `hlen` mutable and `flen` frozen cells.
pub open spec fn value_valid(v: Value, hlen: nat, flen: nat) -> bool {
    match v {
        Value::Frozen(j) => j < flen,
        Value::Mutable(i) => i < hlen,
    }
}

/// Every reference held by `sh` is valid.
pub open spec fn shape_valid(sh: Shape<Value>, hlen: nat, flen: nat) -> bool {
    forall|j: int| 0 <= j < refs_of(sh).len() ==> value_valid(#[trigger] refs_of(sh)[j], hlen, flen)
}

/// Every reference held by a frozen cell is below `flen`.
pub open spec fn frozen_shape_valid(sh: Shape<usize>, flen: nat) -> bool {
    forall|j: int| 0 <= j < refs_of(sh).len() ==> #[trigger] refs_of(sh)[j] < flen
}

/// A frozen heap whose cells only refer to its own cells.
pub open spec fn frozen_closed(f: Seq<Shape<usize>>) -> bool {
    forall|k: int| 0 <= k < f.len() ==> frozen_shape_valid(#[trigger] f[k], f.len())
}

/// A mutable heap whose cells only refer to valid cells.
pub open spec fn heap_valid(h: Seq<Shape<Value>>, flen: nat) -> bool {
    forall|i: int| 0 <= i < h.len() ==> shape_valid(#[trigger] h[i], h.len(), flen)
}

/// The mutable heap.
pub struct Heap {
    cells: Vec<HeapData>,
}

/// A frozen heap.
pub struct FrozenHeap {
    cells: Vec<FrozenData>,
}

impl View for Heap {
    type V = Seq<Shape<Value>>;

    closed spec fn view(&self) -> Seq<Shape<Value>> {
        Seq::new(self.cells@.len(), |i: int| self.cells@[i]@)
    }
}

impl View for FrozenHeap {
    type V = Seq<Shape<usize>>;

    closed spec fn view(&self) -> Seq<Shape<usize>> {
        Seq::new(self.cells@.len(), |i: int| self.cells@[i]@)
    }
}

impl Heap {
    pub fn new() -> (r: Self)
        ensures
            r@ == Seq::<Shape<Value>>::empty(),
    {
        Heap { cells: Vec::new() }
    }

    pub fn len(&self) -> (r: usize)
        ensures
            r == self@.len(),
    {
        self.cells.len()
    }

    /// Stores `data` in a new cell and returns its reference.
    pub fn allocate(&mut self, data: HeapData) -> (r: Value)
        ensures
            r == Value::Mutable(old(self)@.len() as usize),
            final(self)@ == old(self)@.push(data@),
    {
        let i = self.cells.len();
        self.cells.push(data);
        proof {
            assert(self@ =~= old(self)@.push(data@));
        }
        Value::Mutable(i)
    }

    /// The cell at `i`.
    pub fn cell(&self, i: usize) -> (r: &HeapData)
        requires
            i < self@.len(),
        ensures
            r@ == self@[i as int],
    {
        &self.cells[i]
    }

    /// Replaces the cell at `i`.
    pub fn replace(&mut self, i: usize, data: HeapData)
        requires
            i < old(self)@.len(),
        ensures
            final(self)@ == old(self)@.update(i as int, data@),
    {
        self.cells.set(i, data);
        proof {
            assert(self@ =~= old(self)@.update(i as int, data@));
        }
    }
}

impl FrozenHeap {
    pub fn new() -> (r: Self)
        ensures
            r@ == Seq::<Shape<usize>>::empty(),
    {
        FrozenHeap { cells: Vec::new() }
    }

    pub fn len(&self) -> (r: usize)
        ensures
            r == self@.len(),
    {
        self.cells.len()
    }

    /// The cell at `k`.
    pub fn cell(&self, k: usize) -> (r: &FrozenData)
        requires
            k < self@.len(),
        ensures
            r@ == self@[k as int],
    {
        &self.cells[k]
    }

    /// Stores `data` in a new cell, as a constant, and returns its index.
    pub fn allocate(&mut self, data: FrozenData) -> (r: usize)
        ensures
            r == old(self)@.len(),
            final(self)@ == old(self)@.push(data@),
    {
        let k = self.cells.len();
        self.cells.push(data);
        proof {
            assert(self@ =~= old(self)@.push(data@));
        }
        k
    }
}

/// Where the freezer sent a reference: a frozen reference stays, a mutable one
/// goes where the memo says.
pub open spec fn conv(m: Seq<Option<usize>>, v: Value) -> usize {
    match v {
        Value::Frozen(j) => j,
        Value::Mutable(i) => m[i as int].unwrap(),
    }
}

/// A reference that the memo can translate.
pub open spec fn mapped(m: Seq<Option<usize>>, v: Value) -> bool {
    match v {
        Value::Frozen(_) => true,
        Value::Mutable(i) => i < m.len() && m[i as int] is Some,
    }
}

/// The frozen counterpart of a cell, given the memo.
pub open spec fn conv_shape(m: Seq<Option<usize>>, sh: Shape<Value>) -> Shape<usize> {
    match sh {
        Shape::NoneValue => Shape::NoneValue,
        Shape::Int(i) => Shape::Int(i),
        Shape::Str(s) => Shape::Str(s),
        Shape::List(l) => Shape::List(l.map_values(|v: Value| conv(m, v))),
        Shape::Captured(c) => Shape::Captured(
            match c {
                Some(v) => Some(conv(m, v)),
                None => None,
            },
        ),
    }
}

/// Every reference held by `sh` is translated by the memo.
pub open spec fn shape_mapped(m: Seq<Option<usize>>, sh: Shape<Value>) -> bool {
    forall|j: int| 0 <= j < refs_of(sh).len() ==> mapped(m, #[trigger] refs_of(sh)[j])
}

/// The outcome of freezing the mutable heap `h` onto the frozen heap `f0`, with
/// roots `roots`: the new frozen heap `f` keeps `f0` as its prefix, and the memo
/// `m` sends each frozen mutable cell to a distinct new cell of `f` holding the
/// same data with translated references. Each root slot is translated, and
/// absent slots stay absent.
pub open spec fn freeze_relation(
    h: Seq<Shape<Value>>,
    f0: Seq<Shape<usize>>,
    roots: Seq<Option<Value>>,
    f: Seq<Shape<usize>>,
    out: Seq<Option<usize>>,
    m: Seq<Option<usize>>,
) -> bool {
    &&& m.len() == h.len()
    &&& f0.len() <= f.len()
    &&& f.take(f0.len() as int) == f0
    &&& frozen_closed(f)
    &&& forall|i: int|
        0 <= i < m.len() && (#[trigger] m[i]) is Some ==> {
            &&& f0.len() <= m[i].unwrap() < f.len()
            &&& shape_mapped(m, h[i])
            &&& f[m[i].unwrap() as int] == conv_shape(m, h[i])
        }
    &&& forall|i: int, j: int|
        0 <= i < m.len() && 0 <= j < m.len() && (#[trigger] m[i]) is Some && m[i] == #[trigger] m[j]
            ==> i == j
    &&& out.len() == roots.len()
    &&& forall|s: int|
        0 <= s < roots.len() ==> match #[trigger] roots[s] {
            None => out[s] is None,
            Some(v) => mapped(m, v) && out[s] == Some(conv(m, v)),
        }
}

/// A distinct sequence of indices below `n` has at most `n` elements.
proof fn lemma_distinct_bounded(s: Seq<usize>, n: nat)
    requires
        forall|a: int, b: int| 0 <= a < b < s.len() ==> s[a] != s[b],
        forall|a: int| 0 <= a < s.len() ==> #[trigger] s[a] < n,
    ensures
        s.len() <= n,
{
    let t = s.map_values(|x: usize| x as int);
    assert(t.no_duplicates()) by {
        assert forall|a: int, b: int| 0 <= a < t.len() && 0 <= b < t.len() && a != b implies t[a]
            != t[b] by {
            if a < b {
                assert(s[a] != s[b]);
            } else {
                assert(s[b] != s[a]);
            }
        }
    }
    t.unique_seq_to_set();
    lemma_int_range(0, n as int);
    assert(t.to_set().subset_of(set_int_range(0, n as int))) by {
        assert forall|x: int| t.to_set().contains(x) implies set_int_range(0, n as int).contains(x) by {
            let a = choose|a: int| 0 <= a < t.len() && t[a] == x;
            assert(s[a] < n);
        }
    }
    lemma_len_subset(t.to_set(), set_int_range(0, n as int));
}

/// Translating a cell gives the same result under a memo that only grew.
proof fn lemma_conv_shape_grow(m: Seq<Option<usize>>, m2: Seq<Option<usize>>, sh: Shape<Value>)
    requires
        m.len() == m2.len(),
        forall|i: int| 0 <= i < m.len() && (#[trigger] m[i]) is Some ==> m2[i] == m[i],
        shape_mapped(m, sh),
    ensures
        shape_mapped(m2, sh),
        conv_shape(m2, sh) == conv_shape(m, sh),
{
    assert forall|j: int| 0 <= j < refs_of(sh).len() implies mapped(m2, #[trigger] refs_of(sh)[j]) by {
        assert(mapped(m, refs_of(sh)[j]));
    }
    match sh {
        Shape::List(l) => {
            assert forall|j: int| 0 <= j < l.len() implies conv(m2, l[j]) == conv(m, l[j]) by {
                assert(mapped(m, refs_of(sh)[j]));
            }
            assert(l.map_values(|v: Value| conv(m2, v)) =~= l.map_values(|v: Value| conv(m, v)));
        },
        Shape::Captured(Some(v)) => {
            assert(mapped(m, refs_of(sh)[0]));
        },
        _ => {},
    }
}


/// The state of the freezer between steps. `order` lists the mutable cells in
/// the order they were reached; the cell `order[q]` goes to frozen cell
/// `f0.len() + q`. The first `next` of them have been filled in; the others
/// hold a placeholder, registered before their contents are frozen, so that a
/// cycle reaches the placeholder instead of recursing.
pub open spec fn freezer_inv(
    h: Seq<Shape<Value>>,
    f0: Seq<Shape<usize>>,
    fh: Seq<Shape<usize>>,
    m: Seq<Option<usize>>,
    order: Seq<usize>,
    next: int,
) -> bool {
    &&& heap_valid(h, f0.len())
    &&& m.len() == h.len()
    &&& fh.len() == f0.len() + order.len()
    &&& fh.len() <= usize::MAX
    &&& fh.take(f0.len() as int) == f0
    &&& frozen_closed(fh)
    &&& 0 <= next <= order.len()
    &&& forall|q: int|
        0 <= q < order.len() ==> (#[trigger] order[q]) < h.len() && m[order[q] as int] == Some(
            (f0.len() + q) as usize,
        )
    &&& forall|i: int|
        0 <= i < m.len() && (#[trigger] m[i]) is Some ==> f0.len() <= m[i].unwrap() < fh.len()
            && order[m[i].unwrap() - f0.len()] == i
    &&& forall|q: int|
        0 <= q < next ==> shape_mapped(m, h[(#[trigger] order[q]) as int]) && fh[f0.len() + q]
            == conv_shape(m, h[order[q] as int])
}

proof fn lemma_order_bounded(
    h: Seq<Shape<Value>>,
    f0: Seq<Shape<usize>>,
    fh: Seq<Shape<usize>>,
    m: Seq<Option<usize>>,
    order: Seq<usize>,
    next: int,
)
    requires
        freezer_inv(h, f0, fh, m, order, next),
    ensures
        order.len() <= h.len(),
{
    assert forall|a: int, b: int| 0 <= a < b < order.len() implies order[a] != order[b] by {
        assert(m[order[a] as int] == Some((f0.len() + a) as usize));
        assert(m[order[b] as int] == Some((f0.len() + b) as usize));
    }
    lemma_distinct_bounded(order, h.len());
}

/// Translates one reference, registering a placeholder for a mutable cell
/// that has not been reached yet.
fn translate(
    heap: &Heap,
    f0: Ghost<Seq<Shape<usize>>>,
    fh: &mut FrozenHeap,
    memo: &mut Vec<Option<usize>>,
    order: &mut Vec<usize>,
    next: Ghost<int>,
    v: Value,
) -> (r: usize)
    requires
        freezer_inv(heap@, f0@, old(fh)@, old(memo)@, old(order)@, next@),
        value_valid(v, heap@.len(), f0@.len()),
        f0@.len() + heap@.len() < usize::MAX,
    ensures
        freezer_inv(heap@, f0@, final(fh)@, final(memo)@, final(order)@, next@),
        mapped(final(memo)@, v),
        r == conv(final(memo)@, v),
        r < final(fh)@.len(),
        final(fh)@.len() >= old(fh)@.len(),
        final(order)@.len() >= old(order)@.len(),
        forall|i: int|
            0 <= i < old(memo)@.len() && (#[trigger] old(memo)@[i]) is Some ==> final(memo)@[i]
                == old(memo)@[i],
{
    match v {
        Value::Frozen(j) => j,
        Value::Mutable(i) => {
            match memo[i] {
                Some(k) => k,
                None => {
                    proof {
                        lemma_order_bounded(heap@, f0@, fh@, memo@, order@, next@);
                    }
                    let k = fh.cells.len();
                    let ghost fh_old = fh@;
                    let ghost m_old = memo@;
                    fh.cells.push(FrozenData::NoneValue);
                    memo.set(i, Some(k));
                    order.push(i);
                    proof {
                        assert(fh@ =~= fh_old.push(Shape::NoneValue));
                        assert(fh@.take(f0@.len() as int) =~= fh_old.take(f0@.len() as int));
                        assert forall|kk: int| 0 <= kk < fh@.len() implies frozen_shape_valid(
                            #[trigger] fh@[kk],
                            fh@.len(),
                        ) by {
                            if kk < fh_old.len() {
                                assert(frozen_shape_valid(fh_old[kk], fh_old.len()));
                            }
                        }
                        assert forall|q: int| 0 <= q < order@.len() implies (#[trigger] order@[q])
                            < heap@.len() && memo@[order@[q] as int] == Some(
                            (f0@.len() + q) as usize,
                        ) by {
                            if q < order@.len() - 1 {
                                assert(m_old[order@[q] as int] == Some((f0@.len() + q) as usize));
                            }
                        }
                        assert forall|q: int| 0 <= q < next@ implies shape_mapped(
                            memo@,
                            heap@[(#[trigger] order@[q]) as int],
                        ) && fh@[f0@.len() + q] == conv_shape(memo@, heap@[order@[q] as int]) by {
                            lemma_conv_shape_grow(m_old, memo@, heap@[order@[q] as int]);
                        }
                    }
                    k
                },
            }
        },
    }
}

/// Builds the frozen form of the cell `order[next]`, translating its references.
fn freeze_cell(
    heap: &Heap,
    f0: Ghost<Seq<Shape<usize>>>,
    fh: &mut FrozenHeap,
    memo: &mut Vec<Option<usize>>,
    order: &mut Vec<usize>,
    next: usize,
)
    requires
        freezer_inv(heap@, f0@, old(fh)@, old(memo)@, old(order)@, next as int),
        next < old(order)@.len(),
        f0@.len() + heap@.len() < usize::MAX,
    ensures
        freezer_inv(heap@, f0@, final(fh)@, final(memo)@, final(order)@, next + 1),
        final(order)@.len() >= old(order)@.len(),
        forall|i: int|
            0 <= i < old(memo)@.len() && (#[trigger] old(memo)@[i]) is Some ==> final(memo)@[i]
                == old(memo)@[i],
{
    let i = order[next];
    let base = fh.cells.len() - order.len();
    let ghost src = heap@[i as int];
    let data = match heap.cell(i) {
        HeapData::NoneValue => FrozenData::NoneValue,
        HeapData::Int(x) => FrozenData::Int(*x),
        HeapData::Str(t) => FrozenData::Str(t.clone()),
        HeapData::List(l) => {
            let mut items: Vec<usize> = Vec::new();
            let mut j: usize = 0;
            while j < l.len()
                invariant
                    src == Shape::List(l@),
                    heap@[i as int] == src,
                    i < heap@.len(),
                    f0@.len() + heap@.len() < usize::MAX,
                    freezer_inv(heap@, f0@, fh@, memo@, order@, next as int),
                    next < order@.len(),
                    order@[next as int] == i,
                    old(order)@.len() <= order@.len(),
                    old(memo)@.len() == heap@.len(),
                    forall|ii: int|
                        0 <= ii < old(memo)@.len() && (#[trigger] old(memo)@[ii]) is Some ==> memo@[ii]
                            == old(memo)@[ii],
                    j <= l@.len(),
                    items@.len() == j,
                    forall|t: int| 0 <= t < j ==> mapped(memo@, #[trigger] l@[t]),
                    forall|t: int| 0 <= t < j ==> #[trigger] items@[t] == conv(memo@, l@[t]),
                    forall|t: int| 0 <= t < j ==> #[trigger] items@[t] < fh@.len(),
                decreases l@.len() - j,
            {
                proof {
                    assert(shape_valid(heap@[i as int], heap@.len(), f0@.len()));
                    assert(value_valid(refs_of(src)[j as int], heap@.len(), f0@.len()));
                }
                let ghost m_before = memo@;
                let ghost items_before = items@;
                let ghost fh_before = fh@;
                let k = translate(heap, f0, fh, memo, order, Ghost(next as int), l[j]);
                items.push(k);
                proof {
                    assert(items@ == items_before.push(k));
                    assert forall|t: int| 0 <= t <= j implies mapped(memo@, #[trigger] l@[t]) by {
                        if t < j {
                            assert(mapped(m_before, l@[t]));
                        }
                    }
                    assert forall|t: int| 0 <= t <= j implies #[trigger] items@[t] == conv(memo@, l@[t]) by {
                        if t < j {
                            assert(items_before[t] == conv(m_before, l@[t]));
                            assert(mapped(m_before, l@[t]));
                        }
                    }
                    assert forall|t: int| 0 <= t <= j implies #[trigger] items@[t] < fh@.len() by {
                        if t < j {
                            assert(items_before[t] < fh_before.len());
                        }
                    }
                    assert forall|ii: int|
                        0 <= ii < old(memo)@.len() && (#[trigger] old(memo)@[ii]) is Some implies memo@[ii]
                            == old(memo)@[ii] by {
                        assert(m_before[ii] == old(memo)@[ii]);
                    }
                }
                j = j + 1;
            }
            proof {
                assert(items@ =~= l@.map_values(|v: Value| conv(memo@, v)));
                assert forall|t: int| 0 <= t < refs_of(src).len() implies mapped(
                    memo@,
                    #[trigger] refs_of(src)[t],
                ) by {
                    assert(mapped(memo@, l@[t]));
                }
            }
            FrozenData::List(items)
        },
        HeapData::Captured(c) => {
            match c {
                None => FrozenData::Captured(None),
                Some(v) => {
                    proof {
                        assert(shape_valid(heap@[i as int], heap@.len(), f0@.len()));
                        assert(value_valid(refs_of(src)[0], heap@.len(), f0@.len()));
                    }
                    let k = translate(heap, f0, fh, memo, order, Ghost(next as int), *v);
                    proof {
                        assert(refs_of(src) =~= seq![*v]);
                    }
                    FrozenData::Captured(Some(k))
                },
            }
        },
    };
    proof {
        assert(data@ == conv_shape(memo@, src));
        assert(shape_mapped(memo@, src));
        assert(frozen_shape_valid(data@, fh@.len()));
        assert(f0@.len() + next < fh@.len());
    }
    let ghost fh_old = fh@;
    fh.cells.set(base + next, data);
    proof {
        let pos = f0@.len() + next;
        assert(fh@ =~= fh_old.update(pos, data@));
        assert(fh@.take(f0@.len() as int) =~= fh_old.take(f0@.len() as int));
        assert forall|kk: int| 0 <= kk < fh@.len() implies frozen_shape_valid(
            #[trigger] fh@[kk],
            fh@.len(),
        ) by {
            if kk != pos {
                assert(frozen_shape_valid(fh_old[kk], fh_old.len()));
            }
        }
    }
}

/// Freezes everything reachable from `roots` onto `frozen`. Each mutable cell
/// reached is frozen once, however many references reach it, and cycles are
/// kept. Root `s` of the result is the frozen form of root `s`.
pub fn freeze_values(heap: &Heap, frozen: FrozenHeap, roots: &Vec<Option<Value>>) -> (r: (
    FrozenHeap,
    Vec<Option<usize>>,
))
    requires
        heap_valid(heap@, frozen@.len()),
        frozen_closed(frozen@),
        forall|s: int|
            0 <= s < roots@.len() && (#[trigger] roots@[s]) is Some ==> value_valid(
                roots@[s].unwrap(),
                heap@.len(),
                frozen@.len(),
            ),
        frozen@.len() + heap@.len() < usize::MAX,
    ensures
        exists|m: Seq<Option<usize>>| freeze_relation(heap@, frozen@, roots@, r.0@, r.1@, m),
        r.0@.len() <= frozen@.len() + heap@.len(),
{
    let ghost f0 = frozen@;
    let mut fh = frozen;
    let mut memo: Vec<Option<usize>> = Vec::new();
    let n = heap.len();
    while memo.len() < n
        invariant
            memo@.len() <= n,
            n == heap@.len(),
            forall|i: int| 0 <= i < memo@.len() ==> #[trigger] memo@[i] is None,
        decreases n - memo@.len(),
    {
        memo.push(None);
    }
    let mut order: Vec<usize> = Vec::new();
    proof {
        assert(fh@.take(f0.len() as int) =~= f0);
    }
    let mut out: Vec<Option<usize>> = Vec::new();
    let mut s: usize = 0;
    while s < roots.len()
        invariant
            freezer_inv(heap@, f0, fh@, memo@, order@, 0),
            f0.len() + heap@.len() < usize::MAX,
            forall|t: int|
                0 <= t < roots@.len() && (#[trigger] roots@[t]) is Some ==> value_valid(
                    roots@[t].unwrap(),
                    heap@.len(),
                    f0.len(),
                ),
            s <= roots@.len(),
            out@.len() == s,
            forall|t: int|
                0 <= t < s ==> match #[trigger] roots@[t] {
                    None => out@[t] is None,
                    Some(v) => mapped(memo@, v) && out@[t] == Some(conv(memo@, v)),
                },
        decreases roots@.len() - s,
    {
        let ghost m_before = memo@;
        match roots[s] {
            None => out.push(None),
            Some(v) => {
                let k = translate(heap, Ghost(f0), &mut fh, &mut memo, &mut order, Ghost(0), v);
                out.push(Some(k));
            },
        }
        proof {
            assert forall|t: int| 0 <= t < s + 1 implies match #[trigger] roots@[t] {
                None => out@[t] is None,
                Some(v) => mapped(memo@, v) && out@[t] == Some(conv(memo@, v)),
            } by {
                if t < s {
                    match roots@[t] {
                        Some(v) => { assert(mapped(m_before, v)); },
                        None => {},
                    }
                }
            }
        }
        s = s + 1;
    }
    let mut next: usize = 0;
    while next < order.len()
        invariant
            freezer_inv(heap@, f0, fh@, memo@, order@, next as int),
            f0.len() + heap@.len() < usize::MAX,
            out@.len() == roots@.len(),
            forall|t: int|
                0 <= t < roots@.len() ==> match #[trigger] roots@[t] {
                    None => out@[t] is None,
                    Some(v) => mapped(memo@, v) && out@[t] == Some(conv(memo@, v)),
                },
        decreases 2 * heap@.len() - order@.len() - next,
    {
        let ghost m_before = memo@;
        freeze_cell(heap, Ghost(f0), &mut fh, &mut memo, &mut order, next);
        proof {
            lemma_order_bounded(heap@, f0, fh@, memo@, order@, next + 1);
            assert forall|t: int| 0 <= t < roots@.len() implies match #[trigger] roots@[t] {
                None => out@[t] is None,
                Some(v) => mapped(memo@, v) && out@[t] == Some(conv(memo@, v)),
            } by {
                match roots@[t] {
                    Some(v) => { assert(mapped(m_before, v)); },
                    None => {},
                }
            }
        }
        next = next + 1;
    }
    proof {
        let m = memo@;
        assert forall|i: int, j: int|
            0 <= i < m.len() && 0 <= j < m.len() && (#[trigger] m[i]) is Some && m[i] == #[trigger] m[j]
                implies i == j by {
        }
        assert forall|i: int| 0 <= i < m.len() && (#[trigger] m[i]) is Some implies {
            &&& f0.len() <= m[i].unwrap() < fh@.len()
            &&& shape_mapped(m, heap@[i])
            &&& fh@[m[i].unwrap() as int] == conv_shape(m, heap@[i])
        } by {
            let q = m[i].unwrap() - f0.len();
            assert(order@[q] == i);
        }
        assert(m.len() == heap@.len());
        assert(f0.len() <= fh@.len());
        assert(fh@.take(f0.len() as int) == f0);
        assert(frozen_closed(fh@));
        assert(out@.len() == roots@.len());
        assert(freeze_relation(heap@, f0, roots@, fh@, out@, m));
    }
    proof {
        lemma_order_bounded(heap@, f0, fh@, memo@, order@, next as int);
    }
    let r = (fh, out);
    proof {
        assert(freeze_relation(heap@, f0, roots@, r.0@, r.1@, memo@));
    }
    r
}

/// Structural equality of a mutable reference and a frozen cell, looked at to
/// depth `fuel`. A frozen reference equals only its own cell.
pub open spec fn deep_eq(h: Seq<Shape<Value>>, f: Seq<Shape<usize>>, v: Value, k: usize, fuel: nat) -> bool
    decreases fuel,
{
    if fuel == 0 {
        true
    } else {
        match v {
            Value::Frozen(j) => j == k,
            Value::Mutable(i) => i < h.len() && k < f.len() && match (h[i as int], f[k as int]) {
                (Shape::NoneValue, Shape::NoneValue) => true,
                (Shape::Int(a), Shape::Int(b)) => a == b,
                (Shape::Str(a), Shape::Str(b)) => a == b,
                (Shape::List(a), Shape::List(b)) => a.len() == b.len() && forall|j: int|
                    0 <= j < a.len() ==> deep_eq(h, f, #[trigger] a[j], b[j], (fuel - 1) as nat),
                (Shape::Captured(a), Shape::Captured(b)) => match (a, b) {
                    (None, None) => true,
                    (Some(x), Some(y)) => deep_eq(h, f, x, y, (fuel - 1) as nat),
                    _ => false,
                },
                _ => false,
            },
        }
    }
}

/// A frozen value equals, at every depth, the mutable value it was made from.
pub proof fn lemma_freeze_deep_eq(
    h: Seq<Shape<Value>>,
    f0: Seq<Shape<usize>>,
    roots: Seq<Option<Value>>,
    f: Seq<Shape<usize>>,
    out: Seq<Option<usize>>,
    m: Seq<Option<usize>>,
    v: Value,
    fuel: nat,
)
    requires
        freeze_relation(h, f0, roots, f, out, m),
        mapped(m, v),
    ensures
        deep_eq(h, f, v, conv(m, v), fuel),
    decreases fuel,
{
    if fuel > 0 {
        match v {
            Value::Frozen(j) => {},
            Value::Mutable(i) => {
                assert(m[i as int] is Some);
                let sh = h[i as int];
                match sh {
                    Shape::List(a) => {
                        assert forall|j: int| 0 <= j < a.len() implies deep_eq(
                            h,
                            f,
                            #[trigger] a[j],
                            conv_shape(m, sh)->List_0[j],
                            (fuel - 1) as nat,
                        ) by {
                            assert(refs_of(sh)[j] == a[j]);
                            lemma_freeze_deep_eq(h, f0, roots, f, out, m, a[j], (fuel - 1) as nat);
                        }
                    },
                    Shape::Captured(Some(x)) => {
                        assert(refs_of(sh)[0] == x);
                        lemma_freeze_deep_eq(h, f0, roots, f, out, m, x, (fuel - 1) as nat);
                    },
                    _ => {},
                }
            },
        }
    }
}

/// A list that holds itself at position `j` is frozen to a list of the same
/// length that holds itself at position `j`: the cycle is kept, not unrolled.
pub proof fn lemma_freeze_keeps_cycle(
    h: Seq<Shape<Value>>,
    f0: Seq<Shape<usize>>,
    roots: Seq<Option<Value>>,
    f: Seq<Shape<usize>>,
    out: Seq<Option<usize>>,
    m: Seq<Option<usize>>,
    i: usize,
    j: int,
)
    requires
        freeze_relation(h, f0, roots, f, out, m),
        i < m.len(),
        m[i as int] is Some,
        h[i as int] is List,
        0 <= j < h[i as int]->List_0.len(),
        h[i as int]->List_0[j] == Value::Mutable(i),
    ensures
        f[m[i as int].unwrap() as int] is List,
        f[m[i as int].unwrap() as int]->List_0.len() == h[i as int]->List_0.len(),
        f[m[i as int].unwrap() as int]->List_0[j] == m[i as int].unwrap(),
{
}

/// References to one mutable cell are frozen to one frozen cell, and distinct
/// mutable cells to distinct frozen cells.
pub proof fn lemma_freeze_sharing(
    h: Seq<Shape<Value>>,
    f0: Seq<Shape<usize>>,
    roots: Seq<Option<Value>>,
    f: Seq<Shape<usize>>,
    out: Seq<Option<usize>>,
    m: Seq<Option<usize>>,
    s1: int,
    s2: int,
)
    requires
        freeze_relation(h, f0, roots, f, out, m),
        0 <= s1 < roots.len(),
        0 <= s2 < roots.len(),
        roots[s1] matches Some(Value::Mutable(_)),
        roots[s2] matches Some(Value::Mutable(_)),
    ensures
        (out[s1] == out[s2]) <==> (roots[s1] == roots[s2]),
{
    let a = roots[s1].unwrap()->Mutable_0;
    let b = roots[s2].unwrap()->Mutable_0;
    assert(mapped(m, roots[s1].unwrap()));
    assert(mapped(m, roots[s2].unwrap()));
    if out[s1] == out[s2] {
        assert(m[a as int] == m[b as int]);
    }
}

} // verus!
