//! A profiler that records call entries and exits. It keeps each function
//! value once, with a cache from the value's current identity to its index;
//! after a collection moves values, the cache is rebuilt from the values.
use std::collections::HashMap;
use vstd::prelude::*;
use vstd::string::StringExecFns;
use crate::value::Value;

verus! {

broadcast use vstd::std_specs::hash::group_hash_axioms;

/// One recorded event: entering the function at an index of the value list,
/// or leaving the current function.
#[derive(Clone, Copy, Debug, PartialEq, Eq, Structural)]
pub enum Frame {
    Push(usize),
    Pop,
}

/// What an enabled profiler holds.
pub struct FlameData {
    frames: Vec<(Frame, u64)>,
    values: Vec<Value>,
    mutable_index: HashMap<usize, usize>,
    frozen_index: HashMap<usize, usize>,
}

/// A profiler, disabled until `enable` is called.
pub struct FlameProfile {
    data: Option<FlameData>,
}

/// The values are distinct, and the caches map each value's identity to its
/// position and nothing else.
pub open spec fn cache_wf(
    values: Seq<Value>,
    mutable_index: Map<usize, usize>,
    frozen_index: Map<usize, usize>,
) -> bool {
    &&& forall|a: int, b: int| 0 <= a < b < values.len() ==> values[a] != values[b]
    &&& forall|p: int| 0 <= p < values.len() ==> match #[trigger] values[p] {
        Value::Mutable(i) => mutable_index.contains_key(i) && mutable_index[i] == p,
        Value::Frozen(k) => frozen_index.contains_key(k) && frozen_index[k] == p,
    }
    &&& forall|i: usize| #[trigger] mutable_index.contains_key(i) ==> mutable_index[i] < values.len()
        && values[mutable_index[i] as int] == Value::Mutable(i)
    &&& forall|k: usize| #[trigger] frozen_index.contains_key(k) ==> frozen_index[k] < values.len()
        && values[frozen_index[k] as int] == Value::Frozen(k)
}

/// The value list after entering `f`: unchanged if `f` is in it, else `f`
/// goes last.
pub open spec fn values_after_enter(vs: Seq<Value>, f: Value) -> Seq<Value> {
    if vs.contains(f) {
        vs
    } else {
        vs.push(f)
    }
}

impl FlameProfile {
    pub closed spec fn enabled(&self) -> bool {
        self.data is Some
    }

    /// The recorded events, with their times.
    pub closed spec fn frames_view(&self) -> Seq<(Frame, u64)> {
        match self.data {
            Some(d) => d.frames@,
            None => Seq::empty(),
        }
    }

    /// The distinct function values seen, in order of first entry.
    pub closed spec fn values_view(&self) -> Seq<Value> {
        match self.data {
            Some(d) => d.values@,
            None => Seq::empty(),
        }
    }

    pub closed spec fn wf(&self) -> bool {
        match self.data {
            Some(d) => cache_wf(d.values@, d.mutable_index@, d.frozen_index@) && forall|j: int|
                0 <= j < d.frames@.len() ==> ((#[trigger] d.frames@[j]).0 matches Frame::Push(p) ==> p
                    < d.values@.len()),
            None => true,
        }
    }

    /// A disabled profiler.
    pub fn new() -> (r: Self)
        ensures
            r.wf(),
            !r.enabled(),
            r.frames_view() == Seq::<(Frame, u64)>::empty(),
            r.values_view() == Seq::<Value>::empty(),
    {
        FlameProfile { data: None }
    }

    /// Starts recording, with nothing recorded yet.
    pub fn enable(&mut self)
        ensures
            final(self).wf(),
            final(self).enabled(),
            final(self).frames_view() == Seq::<(Frame, u64)>::empty(),
            final(self).values_view() == Seq::<Value>::empty(),
    {
        let d = FlameData {
            frames: Vec::new(),
            values: Vec::new(),
            mutable_index: HashMap::new(),
            frozen_index: HashMap::new(),
        };
        self.data = Some(d);
    }

    /// The distinct function values recorded, in order of first entry; the
    /// function at index `i` of a frame is `values()[i]`.
    pub fn values(&self) -> (r: Vec<Value>)
        ensures
            r@ == self.values_view(),
    {
        match &self.data {
            Some(x) => {
                let mut out: Vec<Value> = Vec::new();
                let mut k: usize = 0;
                while k < x.values.len()
                    invariant
                        k <= x.values@.len(),
                        out@ == x.values@.take(k as int),
                    decreases x.values@.len() - k,
                {
                    out.push(x.values[k]);
                    proof {
                        assert(x.values@.take(k + 1) =~= x.values@.take(k as int).push(x.values@[k as int]));
                    }
                    k = k + 1;
                }
                proof {
                    assert(x.values@.take(x.values@.len() as int) =~= x.values@);
                }
                out
            },
            None => Vec::new(),
        }
    }

    /// Whether the profiler records.
    pub fn is_enabled(&self) -> (r: bool)
        ensures
            r == self.enabled(),
    {
        self.data.is_some()
    }

    /// Records entering `function` at time `now`. A function seen before
    /// keeps its index; a new one is added last. Nothing is recorded when the
    /// profiler is disabled.
    pub fn record_call_enter(&mut self, function: Value, now: u64)
        requires
            old(self).wf(),
        ensures
            final(self).wf(),
            final(self).enabled() == old(self).enabled(),
            !old(self).enabled() ==> final(self).frames_view() == old(self).frames_view()
                && final(self).values_view() == old(self).values_view(),
            old(self).enabled() ==> {
                &&& final(self).values_view() == values_after_enter(old(self).values_view(), function)
                &&& exists|p: usize|
                    p < final(self).values_view().len() && final(self).values_view()[p as int] == function
                        && #[trigger] final(self).frames_view() == old(self).frames_view().push(
                        (Frame::Push(p), now),
                    )
            },
    {
        match self.data.take() {
            Some(mut x) => {
                let ghost v0 = x.values@;
                let found = match function {
                    Value::Mutable(i) => match x.mutable_index.get(&i) {
                        Some(p) => Some(*p),
                        None => None,
                    },
                    Value::Frozen(k) => match x.frozen_index.get(&k) {
                        Some(p) => Some(*p),
                        None => None,
                    },
                };
                let ind = match found {
                    Some(p) => {
                        proof {
                            assert(x.values@[p as int] == function);
                            assert(v0.contains(function));
                        }
                        p
                    },
                    None => {
                        proof {
                            assert(!v0.contains(function)) by {
                                if v0.contains(function) {
                                    let p = choose|p: int| 0 <= p < v0.len() && v0[p] == function;
                                    assert(cache_wf(v0, x.mutable_index@, x.frozen_index@));
                                    match v0[p] { _ => {} }
                                }
                            }
                        }
                        let res = x.values.len();
                        x.values.push(function);
                        match function {
                            Value::Mutable(i) => {
                                x.mutable_index.insert(i, res);
                            },
                            Value::Frozen(k) => {
                                x.frozen_index.insert(k, res);
                            },
                        }
                        proof {
                            let vs = x.values@;
                            assert forall|a: int, b: int| 0 <= a < b < vs.len() implies vs[a] != vs[b] by {
                                if b == vs.len() - 1 {
                                    assert(v0.contains(vs[a]) || a >= v0.len());
                                }
                            }
                        }
                        res
                    },
                };
                let ghost f0 = x.frames@;
                x.frames.push((Frame::Push(ind), now));
                proof {
                    let vs = if v0.contains(function) { v0 } else { v0.push(function) };
                    assert(x.values@ == vs);
                    assert(0 <= ind < vs.len() && vs[ind as int] == function);
                    assert(x.frames@ == f0.push((Frame::Push(ind), now)));
                }
                self.data = Some(x);
                proof {
                    let vs = if v0.contains(function) { v0 } else { v0.push(function) };
                    let pi = ind as int;
                    assert(old(self).values_view() == v0);
                    assert(self.values_view() == vs);
                    assert(self.enabled());
                    assert(self.frames_view() == old(self).frames_view().push((Frame::Push(ind), now)));
                    assert(0 <= pi < vs.len() && vs[pi] == function);
                }
            },
            None => {},
        }
    }

    /// Records leaving the current function at time `now`, when enabled.
    pub fn record_call_exit(&mut self, now: u64)
        requires
            old(self).wf(),
        ensures
            final(self).wf(),
            final(self).enabled() == old(self).enabled(),
            final(self).values_view() == old(self).values_view(),
            final(self).frames_view() == if old(self).enabled() {
                old(self).frames_view().push((Frame::Pop, now))
            } else {
                old(self).frames_view()
            },
    {
        match self.data.take() {
            Some(mut x) => {
                x.frames.push((Frame::Pop, now));
                self.data = Some(x);
            },
            None => {},
        }
    }
}

/// Where a relocation sends a value: mutable values move to `relocate[i]`,
/// frozen ones stay.
pub open spec fn relocated(relocate: Seq<usize>, v: Value) -> Value {
    match v {
        Value::Mutable(i) => Value::Mutable(relocate[i as int]),
        Value::Frozen(k) => Value::Frozen(k),
    }
}

/// A relocation that can move each of `values`, and never moves two of them
/// to one place.
pub open spec fn relocation_ok(relocate: Seq<usize>, values: Seq<Value>) -> bool {
    &&& forall|p: int| 0 <= p < values.len() ==> (#[trigger] values[p] matches Value::Mutable(i) ==> i
        < relocate.len())
    &&& forall|a: usize, b: usize|
        a < relocate.len() && b < relocate.len() && #[trigger] relocate[a as int] == #[trigger] relocate[b as int]
            ==> a == b
}

impl FlameProfile {
    /// The lines of the flame graph of what was recorded, with `names[i]`
    /// naming the function at index `i` of the value list; None when the
    /// profiler is disabled.
    pub fn profile_lines(&self, names: &Vec<String>) -> (r: Option<Vec<String>>)
        ensures
            r is Some <==> self.enabled(),
            r matches Some(lines) ==> lines@.map_values(|l: String| l@) == render_lines(
                tree_of(self.frames_view()),
                names@.map_values(|n: String| n@),
                Seq::empty(),
            ),
    {
        match &self.data {
            Some(x) => {
                let stacks = Stacks::new(&x.frames);
                Some(stacks.render(names))
            },
            None => None,
        }
    }

    /// Follows a collection that moved values: each recorded value is
    /// replaced by its new location, and the identity caches are rebuilt from
    /// the value list, since the old identities are stale.
    pub fn trace(&mut self, relocate: &Vec<usize>)
        requires
            old(self).wf(),
            relocation_ok(relocate@, old(self).values_view()),
        ensures
            final(self).wf(),
            final(self).enabled() == old(self).enabled(),
            final(self).frames_view() == old(self).frames_view(),
            final(self).values_view() == old(self).values_view().map_values(
                |v: Value| relocated(relocate@, v),
            ),
    {
        match self.data.take() {
            Some(mut x) => {
                let ghost v0 = x.values@;
                let ghost f0 = x.frames@;
                let n = x.values.len();
                let mut p: usize = 0;
                while p < n
                    invariant
                        n == v0.len(),
                        x.values@.len() == n,
                        x.frames@ == f0,
                        p <= n,
                        relocation_ok(relocate@, v0),
                        forall|q: int| 0 <= q < p ==> x.values@[q] == relocated(relocate@, #[trigger] v0[q]),
                        forall|q: int| p <= q < n ==> x.values@[q] == v0[q],
                    decreases n - p,
                {
                    let moved = match x.values[p] {
                        Value::Mutable(i) => {
                            proof {
                                assert(v0[p as int] matches Value::Mutable(_));
                            }
                            Value::Mutable(relocate[i])
                        },
                        Value::Frozen(k) => Value::Frozen(k),
                    };
                    x.values.set(p, moved);
                    p = p + 1;
                }
                let ghost vs = x.values@;
                proof {
                    assert(vs =~= v0.map_values(|v: Value| relocated(relocate@, v)));
                    assert forall|a: int, b: int| 0 <= a < b < vs.len() implies vs[a] != vs[b] by {
                        assert(v0[a] != v0[b]);
                        assert(vs[a] == relocated(relocate@, v0[a]));
                        assert(vs[b] == relocated(relocate@, v0[b]));
                        match (v0[a], v0[b]) {
                            (Value::Mutable(i), Value::Mutable(j)) => {
                                assert(relocate@[i as int] == relocate@[j as int] ==> i == j);
                            },
                            _ => {},
                        }
                    }
                }
                x.mutable_index.clear();
                x.frozen_index.clear();
                let mut q: usize = 0;
                while q < n
                    invariant
                        n == vs.len(),
                        x.values@ == vs,
                        x.frames@ == f0,
                        q <= n,
                        forall|a: int, b: int| 0 <= a < b < vs.len() ==> vs[a] != vs[b],
                        forall|r: int| 0 <= r < q ==> match #[trigger] vs[r] {
                            Value::Mutable(i) => x.mutable_index@.contains_key(i) && x.mutable_index@[i] == r,
                            Value::Frozen(k) => x.frozen_index@.contains_key(k) && x.frozen_index@[k] == r,
                        },
                        forall|i: usize| #[trigger] x.mutable_index@.contains_key(i) ==> x.mutable_index@[i] < q
                            && vs[x.mutable_index@[i] as int] == Value::Mutable(i),
                        forall|k: usize| #[trigger] x.frozen_index@.contains_key(k) ==> x.frozen_index@[k] < q
                            && vs[x.frozen_index@[k] as int] == Value::Frozen(k),
                    decreases n - q,
                {
                    match x.values[q] {
                        Value::Mutable(i) => {
                            x.mutable_index.insert(i, q);
                        },
                        Value::Frozen(k) => {
                            x.frozen_index.insert(k, q);
                        },
                    }
                    proof {
                        assert forall|r: int| 0 <= r < q + 1 implies match #[trigger] vs[r] {
                            Value::Mutable(i) => x.mutable_index@.contains_key(i) && x.mutable_index@[i] == r,
                            Value::Frozen(k) => x.frozen_index@.contains_key(k) && x.frozen_index@[k] == r,
                        } by {
                            if r < q {
                                assert(vs[r] != vs[q as int]);
                            }
                        }
                    }
                    q = q + 1;
                }
                self.data = Some(x);
            },
            None => {},
        }
    }
}

/// Time spent per call stack: a node per function on a stack, with the time
/// spent in it outside its callees.
pub struct Stacks {
    /// The index of the function in the value list; None for the root.
    pub name: Option<usize>,
    pub time: u64,
    pub children: Vec<(usize, Stacks)>,
}

/// The time held by a tree: its own and all its descendants'.
pub open spec fn total_time(s: Stacks) -> int
    decreases s, 1nat, 0nat,
{
    s.time + children_time(s, 0)
}

/// The time held by the children of `s` from `k` on.
pub open spec fn children_time(s: Stacks, k: nat) -> int
    decreases s, 0nat, s.children@.len() - k,
{
    if k < s.children@.len() {
        total_time(s.children@[k as int].1) + children_time(s, k + 1)
    } else {
        0
    }
}

/// The times of `frames` from `pos` on never go back, nor before `last`.
pub open spec fn times_ordered(frames: Seq<(Frame, u64)>, pos: int, last: u64) -> bool {
    &&& forall|j: int| pos <= j < frames.len() ==> last <= (#[trigger] frames[j]).1
    &&& forall|a: int, b: int| pos <= a <= b < frames.len() ==> frames[a].1 <= frames[b].1
}

proof fn lemma_children_time_split(s: Stacks, t: Stacks, k: nat, c: int, x: Stacks)
    requires
        0 <= c < s.children@.len(),
        t.children@ == s.children@.update(c, (s.children@[c].0, x)),
    ensures
        k <= c ==> children_time(t, k) == children_time(s, k) - total_time(s.children@[c].1) + total_time(x),
        k > c ==> children_time(t, k) == children_time(s, k),
    decreases s.children@.len() - k,
{
    if k < s.children@.len() {
        lemma_children_time_split(s, t, k + 1, c, x);
    }
}

proof fn lemma_time_nonneg(s: Stacks)
    ensures
        total_time(s) >= s.time,
    decreases s, 1nat, 0nat,
{
    lemma_children_nonneg(s, 0);
}

proof fn lemma_children_nonneg(s: Stacks, k: nat)
    ensures
        children_time(s, k) >= 0,
        k < s.children@.len() ==> children_time(s, k) >= total_time(s.children@[k as int].1),
    decreases s, 0nat, s.children@.len() - k,
{
    if k < s.children@.len() {
        assert(decreases_to!(s => s.children@[k as int].1));
        lemma_time_nonneg(s.children@[k as int].1);
        lemma_children_nonneg(s, k + 1);
    }
}

proof fn lemma_child_within(s: Stacks, k: nat, c: int)
    requires
        0 <= c < s.children@.len(),
        k <= c,
    ensures
        children_time(s, k) >= total_time(s.children@[c].1),
    decreases c - k,
{
    lemma_children_nonneg(s, k);
    if k < c {
        assert(decreases_to!(s => s.children@[k as int].1));
        lemma_time_nonneg(s.children@[k as int].1);
        lemma_child_within(s, k + 1, c);
    }
}

proof fn lemma_children_time_same(s: Stacks, t: Stacks, k: nat)
    requires
        t.children@ == s.children@,
    ensures
        children_time(t, k) == children_time(s, k),
    decreases s.children@.len() - k,
{
    if k < s.children@.len() {
        lemma_children_time_same(s, t, k + 1);
    }
}

proof fn lemma_children_time_push(s: Stacks, t: Stacks, k: nat, x: (usize, Stacks))
    requires
        t.children@ == s.children@.push(x),
        k <= s.children@.len(),
    ensures
        children_time(t, k) == children_time(s, k) + total_time(x.1),
    decreases s.children@.len() - k,
{
    if k < s.children@.len() {
        lemma_children_time_push(s, t, k + 1, x);
    } else {
        assert(children_time(t, k + 1) == 0);
    }
}

/// The abstract form of a `Stacks` tree.
pub struct StackTree {
    pub name: Option<usize>,
    pub time: u64,
    pub children: Seq<(usize, StackTree)>,
}

/// The tree a `Stacks` value stands for.
pub open spec fn tree(s: Stacks) -> StackTree
    decreases s, 1nat, 0nat,
{
    StackTree { name: s.name, time: s.time, children: tree_children(s, 0) }
}

/// The children of `s` from `k` on, as trees.
pub open spec fn tree_children(s: Stacks, k: nat) -> Seq<(usize, StackTree)>
    decreases s, 0nat, s.children@.len() - k,
{
    if k < s.children@.len() {
        seq![(s.children@[k as int].0, tree(s.children@[k as int].1))] + tree_children(s, k + 1)
    } else {
        Seq::empty()
    }
}

proof fn lemma_tree_children_index(s: Stacks, k: nat)
    requires
        k <= s.children@.len(),
    ensures
        tree_children(s, k).len() == s.children@.len() - k,
        forall|j: int|
            0 <= j < s.children@.len() - k ==> #[trigger] tree_children(s, k)[j] == (
                s.children@[k + j].0,
                tree(s.children@[k + j].1),
            ),
    decreases s.children@.len() - k,
{
    if k < s.children@.len() {
        lemma_tree_children_index(s, k + 1);
        assert forall|j: int| 0 <= j < s.children@.len() - k implies #[trigger] tree_children(s, k)[j] == (
            s.children@[k + j].0,
            tree(s.children@[k + j].1),
        ) by {
            if j > 0 {
                assert(tree_children(s, k)[j] == tree_children(s, k + 1)[j - 1]);
            }
        }
    }
}

/// The children of `s`, as trees.
proof fn lemma_tree_children(s: Stacks)
    ensures
        tree(s).children.len() == s.children@.len(),
        forall|j: int|
            0 <= j < s.children@.len() ==> #[trigger] tree(s).children[j] == (
                s.children@[j].0,
                tree(s.children@[j].1),
            ),
{
    lemma_tree_children_index(s, 0);
    assert forall|j: int| 0 <= j < s.children@.len() implies #[trigger] tree(s).children[j] == (
        s.children@[j].0,
        tree(s.children@[j].1),
    ) by {
        assert(tree_children(s, 0)[j] == (s.children@[0 + j].0, tree(s.children@[0 + j].1)));
    }
}

/// A node with no time and no children.
pub open spec fn blank_tree(name: Option<usize>) -> StackTree {
    StackTree { name, time: 0, children: Seq::empty() }
}

/// `a + b`, or the largest u64 where that overflows.
pub open spec fn sat_add(a: u64, b: u64) -> u64 {
    if a + b > u64::MAX { u64::MAX } else { (a + b) as u64 }
}

/// `a - b`, or zero where `b` is larger.
pub open spec fn sat_sub(a: u64, b: u64) -> u64 {
    if a < b { 0 } else { (a - b) as u64 }
}

/// The position of the first child keyed `i`, from `k` on.
pub open spec fn find_child(ch: Seq<(usize, StackTree)>, i: usize, k: nat) -> Option<nat>
    decreases ch.len() - k,
{
    if k >= ch.len() {
        None
    } else if ch[k as int].0 == i {
        Some(k)
    } else {
        find_child(ch, i, k + 1)
    }
}

proof fn lemma_find_child(ch: Seq<(usize, StackTree)>, i: usize, k: nat)
    ensures
        find_child(ch, i, k) matches Some(c) ==> k <= c < ch.len() && ch[c as int].0 == i,
    decreases ch.len() - k,
{
    if k < ch.len() && ch[k as int].0 != i {
        lemma_find_child(ch, i, k + 1);
    }
}

/// Walks `frames` from `pos` into the tree `s`, the last time read being
/// `last`: each frame read adds its time since the last one to `s` (no time if
/// it is earlier); a `Pop` ends the walk just after it; a `Push(i)` walks on
/// in the child keyed `i`, made if absent, and then goes on at this level.
/// Returns the new tree, the position after the last frame read, and the
/// last time read.
pub open spec fn walk(s: StackTree, frames: Seq<(Frame, u64)>, pos: nat, last: u64) -> (StackTree, nat, u64)
    decreases frames.len() - pos,
{
    if pos >= frames.len() {
        (s, pos, last)
    } else {
        let (frame, time) = frames[pos as int];
        let s1 = StackTree { time: sat_add(s.time, sat_sub(time, last)), ..s };
        match frame {
            Frame::Pop => (s1, pos + 1, time),
            Frame::Push(i) => {
                let ch1 = match find_child(s1.children, i, 0) {
                    Some(_) => s1.children,
                    None => s1.children.push((i, blank_tree(Some(i)))),
                };
                let c = match find_child(s1.children, i, 0) {
                    Some(c) => c as int,
                    None => s1.children.len() as int,
                };
                let inner = walk(ch1[c].1, frames, pos + 1, time);
                let s2 = StackTree { children: ch1.update(c, (i, inner.0)), ..s1 };
                if pos < inner.1 <= frames.len() {
                    walk(s2, frames, inner.1, inner.2)
                } else {
                    (s2, inner.1, inner.2)
                }
            },
        }
    }
}

impl Stacks {
    /// An empty node.
    pub fn blank(name: Option<usize>) -> (r: Stacks)
        ensures
            r.name == name,
            r.time == 0,
            r.children@.len() == 0,
            total_time(r) == 0,
            tree(r) == blank_tree(name),
    {
        let r = Stacks { name, time: 0, children: Vec::new() };
        proof {
            assert(tree_children(r, 0) =~= Seq::<(usize, StackTree)>::empty());
        }
        r
    }

    /// Adds the frames from `*pos` on: the time since `*last_time` goes to
    /// this node until a call is entered, which is added below it (to the
    /// child of the same function, made if needed), or until the matching
    /// exit, which ends the walk. A time earlier than the last one counts as
    /// no time. Where the times never go back, all the time that passes is
    /// added somewhere in the tree (times add up with saturation).
    pub fn add(&mut self, frames: &Vec<(Frame, u64)>, pos: &mut usize, last_time: &mut u64)
        requires
            *old(pos) <= frames@.len(),
        ensures
            (tree(*final(self)), *final(pos) as nat, *final(last_time)) == walk(
                tree(*old(self)),
                frames@,
                *old(pos) as nat,
                *old(last_time),
            ),
            *old(pos) <= *final(pos) <= frames@.len(),
            final(self).name == old(self).name,
            *final(pos) == *old(pos) ==> *final(last_time) == *old(last_time),
            *final(pos) > *old(pos) ==> *final(last_time) == frames@[*final(pos) - 1].1,
            times_ordered(frames@, *old(pos) as int, *old(last_time)) ==> {
                &&& *old(last_time) <= *final(last_time)
                &&& times_ordered(frames@, *final(pos) as int, *final(last_time))
                &&& total_time(*final(self)) >= total_time(*old(self))
                &&& total_time(*final(self)) <= total_time(*old(self)) + (*final(last_time) - *old(last_time))
                &&& (total_time(*old(self)) + (*final(last_time) - *old(last_time)) <= u64::MAX as int)
                    ==> total_time(*final(self)) == total_time(*old(self)) + (*final(last_time) - *old(last_time))
            },
        decreases frames@.len() - *old(pos),
    {
        let ghost ordered = times_ordered(frames@, *old(pos) as int, *old(last_time));
        while *pos < frames.len()
            invariant
                *old(pos) <= *pos <= frames@.len(),
                walk(tree(*self), frames@, *pos as nat, *last_time) == walk(
                    tree(*old(self)),
                    frames@,
                    *old(pos) as nat,
                    *old(last_time),
                ),
                self.name == old(self).name,
                *pos == *old(pos) ==> *last_time == *old(last_time),
                *pos > *old(pos) ==> *last_time == frames@[*pos - 1].1,
                ordered == times_ordered(frames@, *old(pos) as int, *old(last_time)),
                ordered ==> {
                    &&& *old(last_time) <= *last_time
                    &&& times_ordered(frames@, *pos as int, *last_time)
                    &&& total_time(*self) >= total_time(*old(self))
                    &&& total_time(*self) <= total_time(*old(self)) + (*last_time - *old(last_time))
                    &&& (total_time(*old(self)) + (*last_time - *old(last_time)) <= u64::MAX as int)
                        ==> total_time(*self) == total_time(*old(self)) + (*last_time - *old(last_time))
                },
            decreases frames@.len() - *pos,
        {
            let (frame, time) = frames[*pos];
            let ghost before = *self;
            let ghost lt0 = *last_time;
            let ghost pos0 = *pos;
            self.time = self.time.saturating_add(time.saturating_sub(*last_time));
            *last_time = time;
            *pos = *pos + 1;
            proof {
                lemma_children_time_same(before, *self, 0);
                lemma_tree_children(before);
                lemma_tree_children(*self);
                assert(tree(*self).children =~= tree(before).children);
                assert(tree(*self) == StackTree { time: sat_add(before.time, sat_sub(time, lt0)), ..tree(before) });
                lemma_time_nonneg(before);
                if ordered {
                    assert(times_ordered(frames@, *pos as int, *last_time));
                }
            }
            match frame {
                Frame::Pop => return,
                Frame::Push(i) => {
                    let ghost tc = tree(*self).children;
                    let mut c: usize = 0;
                    let mut found = false;
                    while c < self.children.len() && !found
                        invariant
                            c <= self.children@.len(),
                            found ==> c < self.children@.len(),
                            tc == tree(*self).children,
                            tc.len() == self.children@.len(),
                            forall|j: int| 0 <= j < self.children@.len() ==> (#[trigger] tc[j]).0 == self.children@[j].0,
                            found ==> find_child(tc, i, 0) == Some(c as nat),
                            !found ==> find_child(tc, i, 0) == find_child(tc, i, c as nat),
                        decreases self.children@.len() - c + (if found { 0int } else { 1int }),
                    {
                        if self.children[c].0 == i {
                            found = true;
                        } else {
                            c = c + 1;
                        }
                    }
                    let ghost mid = *self;
                    let ghost ch1 = match find_child(tc, i, 0) {
                        Some(_) => tc,
                        None => tc.push((i, blank_tree(Some(i)))),
                    };
                    if !found {
                        let fresh = Stacks::blank(Some(i));
                        let ghost fresh_v = fresh;
                        self.children.push((i, fresh));
                        proof {
                            lemma_children_time_push(mid, *self, 0, (i, fresh_v));
                            assert(total_time(*self) == total_time(mid));
                            lemma_tree_children(*self);
                            assert(tree(*self).children =~= ch1);
                        }
                        c = self.children.len() - 1;
                    } else {
                        proof {
                            assert(tc[c as int].0 == self.children@[c as int].0);
                        }
                    }
                    let ghost mid2 = *self;
                    proof {
                        lemma_child_within(mid2, 0, c as int);
                        lemma_time_nonneg(mid2);
                        lemma_tree_children(mid2);
                        assert(tree(mid2).children == ch1);
                        lemma_find_child(tc, i, 0);
                        assert(mid2.children@[c as int].0 == i);
                    }
                    let (key, mut child) = self.children.remove(c);
                    let ghost lt1 = *last_time;
                    let ghost child0 = child;
                    child.add(frames, pos, last_time);
                    self.children.insert(c, (key, child));
                    proof {
                        assert(self.children@ =~= mid2.children@.update(c as int, (key, child)));
                        lemma_children_time_split(mid2, *self, 0, c as int, child);
                        assert(mid2.children@[c as int].1 == child0);
                        lemma_tree_children(*self);
                        assert(tree(*self).children =~= ch1.update(c as int, (i, tree(child))));
                        assert(*pos > pos0);
                    }
                },
            }
        }
    }

    /// The call-stack tree of `frames`, timed from the first frame on.
    pub fn new(frames: &Vec<(Frame, u64)>) -> (r: Stacks)
        ensures
            r.name is None,
            tree(r) == tree_of(frames@),
            frames@.len() > 0 && times_ordered(frames@, 0, frames@[0].1) ==> total_time(r) <= frames@.last().1
                - frames@[0].1,
    {
        let mut res = Stacks::blank(None);
        let mut last_time: u64 = if frames.len() > 0 { frames[0].1 } else { 0 };
        let mut pos: usize = 0;
        res.add(frames, &mut pos, &mut last_time);
        proof {
            if frames@.len() > 0 && times_ordered(frames@, 0, frames@[0].1) {
                if pos > 0 {
                    assert(frames@[pos - 1].1 <= frames@[frames@.len() - 1].1);
                }
            }
        }
        res
    }

    /// The lines of a flame graph: for each node with time, the names on its
    /// stack joined by `;` and its time, parents before children.
    pub fn render(&self, names: &Vec<String>) -> (r: Vec<String>)
        ensures
            r@.map_values(|l: String| l@) == render_lines(tree(*self), names@.map_values(|n: String| n@), Seq::empty()),
    {
        let mut out: Vec<String> = Vec::new();
        let prefix = String::new();
        self.render_with_buffer(names, &prefix, &mut out);
        proof {
            assert(out@.map_values(|l: String| l@) =~= Seq::<Seq<char>>::empty() + render_lines(
                tree(*self),
                names@.map_values(|n: String| n@),
                Seq::empty(),
            ));
        }
        out
    }

    fn render_with_buffer(&self, names: &Vec<String>, prefix: &String, out: &mut Vec<String>)
        ensures
            final(out)@.map_values(|l: String| l@) == old(out)@.map_values(|l: String| l@) + render_lines(
                tree(*self),
                names@.map_values(|n: String| n@),
                prefix@,
            ),
        decreases *self,
    {
        let ghost ns = names@.map_values(|n: String| n@);
        let ghost o0 = out@.map_values(|l: String| l@);
        proof {
            lemma_tree_children(*self);
        }
        proof {
            reveal_strlit(";");
            reveal_strlit("root");
            reveal_strlit(" ");
        }
        let mut line = prefix.clone();
        if line.unicode_len() > 0 {
            line.append(";");
        }
        match self.name {
            Some(i) => {
                if i < names.len() {
                    line.append(names[i].as_str());
                }
            },
            None => line.append("root"),
        }
        proof {
            assert(line@ == node_label(tree(*self), ns, prefix@));
        }
        if self.time > 0 {
            let mut text = line.clone();
            text.append(" ");
            text.append(crate::text::decimal_u64(self.time).as_str());
            out.push(text);
            proof {
                assert(text@ == node_label(tree(*self), ns, prefix@) + seq![' '] + crate::text::decimal(self.time as nat));
                assert(out@.map_values(|l: String| l@) =~= o0.push(text@));
                assert(o0.push(text@) =~= o0 + seq![text@]);
            }
        }
        let ghost own: Seq<Seq<char>> = if self.time > 0 {
            seq![node_label(tree(*self), ns, prefix@) + seq![' '] + crate::text::decimal(self.time as nat)]
        } else {
            Seq::empty()
        };
        let ghost target = o0 + render_lines(tree(*self), ns, prefix@);
        proof {
            assert(out@.map_values(|l: String| l@) =~= o0 + own);
            assert(render_lines(tree(*self), ns, prefix@) == own + children_lines(tree(*self), ns, line@, 0));
        }
        let mut k: usize = 0;
        while k < self.children.len()
            invariant
                k <= self.children@.len(),
                ns == names@.map_values(|n: String| n@),
                line@ == node_label(tree(*self), ns, prefix@),
                tree(*self).children.len() == self.children@.len(),
                forall|j: int|
                    0 <= j < self.children@.len() ==> #[trigger] tree(*self).children[j] == (
                        self.children@[j].0,
                        tree(self.children@[j].1),
                    ),
                out@.map_values(|l: String| l@) + children_lines(tree(*self), ns, line@, k as nat) == target,
            decreases self.children@.len() - k,
        {
            let ghost r0 = out@.map_values(|l: String| l@);
            assert(decreases_to!(*self => self.children@[k as int].1));
            self.children[k].1.render_with_buffer(names, &line, out);
            proof {
                assert(children_lines(tree(*self), ns, line@, k as nat) == render_lines(tree(self.children@[k as int].1), ns, line@)
                    + children_lines(tree(*self), ns, line@, (k + 1) as nat));
                assert(r0 + children_lines(tree(*self), ns, line@, k as nat) =~= out@.map_values(|l: String| l@)
                    + children_lines(tree(*self), ns, line@, (k + 1) as nat));
            }
            k = k + 1;
        }
        proof {
            assert(children_lines(tree(*self), ns, line@, k as nat) == Seq::<Seq<char>>::empty());
            assert(out@.map_values(|l: String| l@) =~= target);
        }
    }
}

/// The name of a node, after the names of the stack above it.
pub open spec fn node_label(t: StackTree, names: Seq<Seq<char>>, prefix: Seq<char>) -> Seq<char> {
    (if prefix.len() > 0 { prefix + seq![';'] } else { prefix }) + match t.name {
        Some(i) => if i < names.len() { names[i as int] } else { Seq::empty() },
        None => seq!['r', 'o', 'o', 't'],
    }
}

/// The flame graph lines of a tree under the stack `prefix`.
pub open spec fn render_lines(t: StackTree, names: Seq<Seq<char>>, prefix: Seq<char>) -> Seq<Seq<char>>
    decreases t, 1nat, 0nat,
{
    let label = node_label(t, names, prefix);
    (if t.time > 0 {
        seq![label + seq![' '] + crate::text::decimal(t.time as nat)]
    } else {
        Seq::empty()
    }) + children_lines(t, names, label, 0)
}

/// The lines of the children of `t` from `k` on, under the stack `label`.
pub open spec fn children_lines(t: StackTree, names: Seq<Seq<char>>, label: Seq<char>, k: nat) -> Seq<Seq<char>>
    decreases t, 0nat, t.children.len() - k,
{
    if k < t.children.len() {
        render_lines(t.children[k as int].1, names, label) + children_lines(t, names, label, k + 1)
    } else {
        Seq::empty()
    }
}

/// The call-stack tree of recorded frames, timed from the first one on.
pub open spec fn tree_of(frames: Seq<(Frame, u64)>) -> StackTree {
    walk(blank_tree(None), frames, 0, if frames.len() > 0 { frames[0].1 } else { 0 }).0
}

} // verus!
