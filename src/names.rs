//! Symbol tables: the mapping from variable names to module slots.
use indexmap::IndexMap;
use vstd::prelude::*;

verus! {

/// Whether a binding is exported from its module.
#[derive(Clone, Copy, Debug, PartialEq, Eq, Structural)]
pub enum Visibility {
    Private,
    Public,
}

/// The abstract form of a symbol table entry: name, slot and visibility.
pub type EntryModel = (Seq<char>, usize, Visibility);

/// The position of `name` in a table, if it is bound there.
pub open spec fn index_of(s: Seq<EntryModel>, name: Seq<char>) -> Option<int> {
    if exists|i: int| 0 <= i < s.len() && #[trigger] s[i].0 == name {
        Some(choose|i: int| 0 <= i < s.len() && #[trigger] s[i].0 == name)
    } else {
        None
    }
}

/// The slot and visibility bound to `name`, if any.
pub open spec fn lookup(s: Seq<EntryModel>, name: Seq<char>) -> Option<(usize, Visibility)> {
    match index_of(s, name) {
        Some(i) => Some((s[i].1, s[i].2)),
        None => None,
    }
}

/// No name is bound twice.
pub open spec fn names_unique(s: Seq<EntryModel>) -> bool {
    forall|i: int, j: int| 0 <= i < j < s.len() ==> s[i].0 != s[j].0
}

/// Names are unique, slots are unique and every slot is below `next`.
pub open spec fn table_wf(s: Seq<EntryModel>, next: nat) -> bool {
    &&& names_unique(s)
    &&& next <= usize::MAX
    &&& forall|i: int, j: int| 0 <= i < j < s.len() ==> s[i].1 != s[j].1
    &&& forall|i: int| 0 <= i < s.len() ==> (#[trigger] s[i]).1 < next
}

/// Re-adding a name never downgrades it: a Private binding takes the requested
/// visibility, a Public one stays Public.
pub open spec fn upgrade(stored: Visibility, requested: Visibility) -> Visibility {
    match stored {
        Visibility::Private => requested,
        Visibility::Public => Visibility::Public,
    }
}

/// The table and slot count after adding `name` with visibility `vis`.
pub open spec fn add_spec(s: Seq<EntryModel>, next: nat, name: Seq<char>, vis: Visibility) -> (
    Seq<EntryModel>,
    nat,
) {
    match index_of(s, name) {
        Some(i) => (s.update(i, (name, s[i].1, upgrade(s[i].2, vis))), next),
        None => (s.push((name, next as usize, vis)), next + 1),
    }
}

/// The slot handed out when adding `name` to a table.
pub open spec fn add_slot(s: Seq<EntryModel>, next: nat, name: Seq<char>) -> usize {
    match index_of(s, name) {
        Some(i) => s[i].1,
        None => next as usize,
    }
}

/// The table after a series of additions.
pub open spec fn add_all(s: Seq<EntryModel>, next: nat, ops: Seq<(Seq<char>, Visibility)>) -> (
    Seq<EntryModel>,
    nat,
) decreases ops.len(),
{
    if ops.len() == 0 {
        (s, next)
    } else {
        let (s1, n1) = add_spec(s, next, ops[0].0, ops[0].1);
        add_all(s1, n1, ops.drop_first())
    }
}

/// The table without `name`.
pub open spec fn remove_spec(s: Seq<EntryModel>, name: Seq<char>) -> Seq<EntryModel> {
    match index_of(s, name) {
        Some(i) => s.remove(i),
        None => s,
    }
}

/// The public entries of a table, as (name, slot), in order.
pub open spec fn public_symbols(s: Seq<EntryModel>) -> Seq<(Seq<char>, usize)> {
    s.filter(|e: EntryModel| e.2 == Visibility::Public).map_values(
        |e: EntryModel| (e.0, e.1),
    )
}

pub proof fn lemma_index_of_unique(s: Seq<EntryModel>, name: Seq<char>, i: int)
    requires
        forall|a: int, b: int| 0 <= a < b < s.len() ==> s[a].0 != s[b].0,
        0 <= i < s.len(),
        s[i].0 == name,
    ensures
        index_of(s, name) == Some(i),
{
}

pub proof fn lemma_add_names_unique(s: Seq<EntryModel>, next: nat, name: Seq<char>, vis: Visibility)
    requires
        names_unique(s),
    ensures
        names_unique(add_spec(s, next, name, vis).0),
        add_spec(s, next, name, vis).1 >= next,
{
    let t = add_spec(s, next, name, vis).0;
    match index_of(s, name) {
        Some(i) => {
            assert forall|a: int, b: int| 0 <= a < b < t.len() implies t[a].0 != t[b].0 by {
                if a == i || b == i {
                }
            }
        },
        None => {
            assert forall|a: int, b: int| 0 <= a < b < t.len() implies t[a].0 != t[b].0 by {
                if b == s.len() {
                    assert(s[a].0 != name);
                }
            }
        },
    }
}

pub proof fn lemma_add_wf(s: Seq<EntryModel>, next: nat, name: Seq<char>, vis: Visibility)
    requires
        table_wf(s, next),
        next < usize::MAX,
    ensures
        table_wf(add_spec(s, next, name, vis).0, add_spec(s, next, name, vis).1),
        add_spec(s, next, name, vis).1 >= next,
{
    let t = add_spec(s, next, name, vis).0;
    let n = add_spec(s, next, name, vis).1;
    match index_of(s, name) {
        Some(i) => {
            assert forall|a: int, b: int| 0 <= a < b < t.len() implies t[a].0 != t[b].0 by {
                if a == i || b == i {
                }
            }
            assert forall|a: int, b: int| 0 <= a < b < t.len() implies t[a].1 != t[b].1 by {
                if a == i || b == i {
                }
            }
            assert forall|a: int| 0 <= a < t.len() implies (#[trigger] t[a]).1 < n by {
                assert(t[a].1 == s[a].1);
            }
        },
        None => {
            assert forall|a: int, b: int| 0 <= a < b < t.len() implies t[a].0 != t[b].0 by {
                if b == s.len() {
                    assert(s[a].0 != name);
                }
            }
            assert forall|a: int, b: int| 0 <= a < b < t.len() implies t[a].1 != t[b].1 by {
                if b == s.len() {
                    assert(s[a].1 < next);
                }
            }
            assert forall|a: int| 0 <= a < t.len() implies (#[trigger] t[a]).1 < n by {
                if a < s.len() {
                    assert(s[a].1 < next);
                }
            }
        },
    }
}

/// Once a name is bound, every later addition (of it or of any other name)
/// leaves it on the same slot.
pub proof fn lemma_slot_stable(
    s: Seq<EntryModel>,
    next: nat,
    ops: Seq<(Seq<char>, Visibility)>,
    name: Seq<char>,
)
    requires
        names_unique(s),
        lookup(s, name) is Some,
    ensures
        lookup(add_all(s, next, ops).0, name) is Some,
        lookup(add_all(s, next, ops).0, name).unwrap().0 == lookup(s, name).unwrap().0,
    decreases ops.len(),
{
    if ops.len() > 0 {
        let (s1, n1) = add_spec(s, next, ops[0].0, ops[0].1);
        lemma_add_names_unique(s, next, ops[0].0, ops[0].1);
        lemma_add_keeps(s, next, ops[0].0, ops[0].1, name);
        lemma_slot_stable(s1, n1, ops.drop_first(), name);
    }
}

/// A Public binding stays Public through any series of additions.
pub proof fn lemma_public_stays_public(
    s: Seq<EntryModel>,
    next: nat,
    ops: Seq<(Seq<char>, Visibility)>,
    name: Seq<char>,
)
    requires
        names_unique(s),
        lookup(s, name) is Some,
        lookup(s, name).unwrap().1 == Visibility::Public,
    ensures
        lookup(add_all(s, next, ops).0, name) == lookup(s, name),
    decreases ops.len(),
{
    if ops.len() > 0 {
        let (s1, n1) = add_spec(s, next, ops[0].0, ops[0].1);
        lemma_add_names_unique(s, next, ops[0].0, ops[0].1);
        lemma_add_keeps(s, next, ops[0].0, ops[0].1, name);
        lemma_public_stays_public(s1, n1, ops.drop_first(), name);
    }
}

/// Adding one name keeps every binding's slot, and never lowers its visibility.
pub proof fn lemma_add_keeps(
    s: Seq<EntryModel>,
    next: nat,
    added: Seq<char>,
    vis: Visibility,
    name: Seq<char>,
)
    requires
        names_unique(s),
        lookup(s, name) is Some,
    ensures
        lookup(add_spec(s, next, added, vis).0, name) is Some,
        lookup(add_spec(s, next, added, vis).0, name).unwrap().0 == lookup(s, name).unwrap().0,
        lookup(s, name).unwrap().1 == Visibility::Public ==> lookup(add_spec(s, next, added, vis).0, name)
            == lookup(s, name),
{
    let t = add_spec(s, next, added, vis).0;
    lemma_add_names_unique(s, next, added, vis);
    let i = index_of(s, name).unwrap();
    assert(t[i].0 == name);
    lemma_index_of_unique(t, name, i);
}

/// The map that backs a symbol table: name to (slot, visibility), in order of
/// insertion.
pub type SymbolMap = IndexMap<String, (usize, Visibility)>;

#[verifier::external_type_specification]
#[verifier::external_body]
#[verifier::reject_recursive_types(K)]
#[verifier::reject_recursive_types(V)]
#[verifier::reject_recursive_types(S)]
pub struct ExIndexMap<K, V, S>(IndexMap<K, V, S>);

/// The entries of a symbol map, in order, as (name, slot, visibility).
pub uninterp spec fn symbol_entries(m: IndexMap<String, (usize, Visibility)>) -> Seq<EntryModel>;

/// Relies on `IndexMap::new`: a new map is empty.
#[verifier::external_body]
fn map_new() -> (r: SymbolMap)
    ensures
        symbol_entries(r) == Seq::<EntryModel>::empty(),
{
    IndexMap::new()
}

/// Relies on `IndexMap::len`: the number of entries.
#[verifier::external_body]
fn map_len(m: &SymbolMap) -> (r: usize)
    ensures
        r == symbol_entries(*m).len(),
{
    m.len()
}

/// Relies on `IndexMap::get_index_of`: the position of the entry with key
/// `name`, if there is one.
#[verifier::external_body]
fn map_index_of(m: &SymbolMap, name: &str) -> (r: Option<usize>)
    ensures
        match r {
            Some(i) => i < symbol_entries(*m).len() && symbol_entries(*m)[i as int].0 == name@,
            None => forall|i: int|
                0 <= i < symbol_entries(*m).len() ==> (#[trigger] symbol_entries(*m)[i]).0 != name@,
        },
{
    m.get_index_of(name)
}

/// Relies on `IndexMap::get_index`: the entry at position `i`.
#[verifier::external_body]
fn map_get_index(m: &SymbolMap, i: usize) -> (r: (String, usize, Visibility))
    requires
        i < symbol_entries(*m).len(),
    ensures
        (r.0@, r.1, r.2) == symbol_entries(*m)[i as int],
{
    let (k, v) = m.get_index(i).unwrap();
    (k.clone(), v.0, v.1)
}

/// Relies on `IndexMap::insert`: an existing key keeps its place and takes
/// the new value; a new key goes last.
#[verifier::external_body]
fn map_insert(m: &mut SymbolMap, name: String, value: (usize, Visibility))
    requires
        names_unique(symbol_entries(*old(m))),
    ensures
        match index_of(symbol_entries(*old(m)), name@) {
            Some(i) => symbol_entries(*final(m)) == symbol_entries(*old(m)).update(
                i,
                (name@, value.0, value.1),
            ),
            None => symbol_entries(*final(m)) == symbol_entries(*old(m)).push((name@, value.0, value.1)),
        },
{
    m.insert(name, value);
}

/// Relies on `IndexMap::shift_remove`: the entry with key `name`, if any, is
/// removed and the others keep their order.
#[verifier::external_body]
fn map_shift_remove(m: &mut SymbolMap, name: &str)
    requires
        names_unique(symbol_entries(*old(m))),
    ensures
        match index_of(symbol_entries(*old(m)), name@) {
            Some(i) => symbol_entries(*final(m)) == symbol_entries(*old(m)).remove(i),
            None => symbol_entries(*final(m)) == symbol_entries(*old(m)),
        },
{
    m.shift_remove(name);
}

/// The symbol table of a module under construction. Removing a name keeps its
/// slot allocated, so slots are never reused.
pub struct MutableNames {
    map: SymbolMap,
    next_slot: usize,
}

/// The symbol table of a frozen module.
pub struct FrozenNames {
    map: SymbolMap,
    slot_count: usize,
}

impl View for MutableNames {
    type V = Seq<EntryModel>;

    closed spec fn view(&self) -> Seq<EntryModel> {
        symbol_entries(self.map)
    }
}

impl View for FrozenNames {
    type V = Seq<EntryModel>;

    closed spec fn view(&self) -> Seq<EntryModel> {
        symbol_entries(self.map)
    }
}

/// The position of `name` in the map.
fn find_name(m: &SymbolMap, name: &str) -> (r: Option<usize>)
    requires
        names_unique(symbol_entries(*m)),
    ensures
        r matches Some(i) ==> i < symbol_entries(*m).len() && index_of(symbol_entries(*m), name@) == Some(i as int),
        r is None ==> index_of(symbol_entries(*m), name@) is None,
{
    let r = map_index_of(m, name);
    proof {
        match r {
            Some(i) => lemma_index_of_unique(symbol_entries(*m), name@, i as int),
            None => {},
        }
    }
    r
}

/// The name of the entry holding `slot`, among the entries that `public_only`
/// allows.
fn find_slot(m: &SymbolMap, slot: usize, public_only: bool) -> (r: Option<String>)
    ensures
        r is None <==> forall|i: int|
            0 <= i < symbol_entries(*m).len() ==> !slot_matches(symbol_entries(*m)[i], slot, public_only),
        r matches Some(n) ==> exists|i: int|
            0 <= i < symbol_entries(*m).len() && slot_matches(symbol_entries(*m)[i], slot, public_only)
                && symbol_entries(*m)[i].0 == n@,
{
    let n = map_len(m);
    let mut k: usize = 0;
    while k < n
        invariant
            n == symbol_entries(*m).len(),
            k <= n,
            forall|i: int| 0 <= i < k ==> !slot_matches(symbol_entries(*m)[i], slot, public_only),
        decreases n - k,
    {
        let (name, s, vis) = map_get_index(m, k);
        if s == slot && (!public_only || vis == Visibility::Public) {
            return Some(name);
        }
        k = k + 1;
    }
    None
}

/// Entry `e` holds `slot`, and is Public where `public_only` asks for it.
pub open spec fn slot_matches(e: EntryModel, slot: usize, public_only: bool) -> bool {
    e.1 == slot && (!public_only || e.2 == Visibility::Public)
}

impl MutableNames {
    pub closed spec fn spec_slot_count(&self) -> nat {
        self.next_slot as nat
    }

    pub open spec fn wf(&self) -> bool {
        table_wf(self@, self.spec_slot_count())
    }

    pub fn new() -> (r: Self)
        ensures
            r@ == Seq::<EntryModel>::empty(),
            r.spec_slot_count() == 0,
            r.wf(),
    {
        MutableNames { map: map_new(), next_slot: 0 }
    }

    /// The number of slots handed out so far.
    pub fn slot_count(&self) -> (r: usize)
        ensures
            r == self.spec_slot_count(),
    {
        self.next_slot
    }

    /// The name bound to `slot`, if any. A linear scan: meant for error paths.
    pub fn get_slot(&self, slot: usize) -> (r: Option<String>)
        requires
            self.wf(),
        ensures
            r is None <==> forall|i: int| 0 <= i < self@.len() ==> self@[i].1 != slot,
            r matches Some(n) ==> exists|i: int|
                0 <= i < self@.len() && self@[i].1 == slot && self@[i].0 == n@,
    {
        find_slot(&self.map, slot, false)
    }

    /// The slot and visibility bound to `name`, if any.
    pub fn get_name(&self, name: &str) -> (r: Option<(usize, Visibility)>)
        requires
            self.wf(),
        ensures
            r == lookup(self@, name@),
    {
        match find_name(&self.map, name) {
            Some(i) => {
                let (_, slot, vis) = map_get_index(&self.map, i);
                Some((slot, vis))
            },
            None => None,
        }
    }

    /// Binds `name` with visibility `vis`, or returns its slot if it is bound
    /// already; a Private binding then takes the requested visibility.
    pub fn add_name_visibility(&mut self, name: &str, vis: Visibility) -> (r: usize)
        requires
            old(self).wf(),
            old(self).spec_slot_count() < usize::MAX,
        ensures
            final(self).wf(),
            r == add_slot(old(self)@, old(self).spec_slot_count(), name@),
            (final(self)@, final(self).spec_slot_count()) == add_spec(
                old(self)@,
                old(self).spec_slot_count(),
                name@,
                vis,
            ),
            lookup(final(self)@, name@) is Some,
            lookup(final(self)@, name@).unwrap().0 == r,
            r < final(self).spec_slot_count(),
            lookup(old(self)@, name@) matches Some((s, v)) ==> r == s && final(self).spec_slot_count()
                == old(self).spec_slot_count() && lookup(final(self)@, name@) == Some((s, upgrade(v, vis))),
    {
        proof {
            lemma_add_wf(self@, self.spec_slot_count(), name@, vis);
        }
        match find_name(&self.map, name) {
            Some(i) => {
                let (_, slot, stored) = map_get_index(&self.map, i);
                let new_vis = match stored {
                    Visibility::Private => vis,
                    Visibility::Public => Visibility::Public,
                };
                map_insert(&mut self.map, name.to_owned(), (slot, new_vis));
                proof {
                    lemma_index_of_unique(self@, name@, i as int);
                }
                slot
            },
            None => {
                let slot = self.next_slot;
                map_insert(&mut self.map, name.to_owned(), (slot, vis));
                self.next_slot = self.next_slot + 1;
                proof {
                    lemma_index_of_unique(self@, name@, self@.len() - 1);
                }
                slot
            },
        }
    }

    /// Binds `name` as Public, or returns its existing slot.
    pub fn add_name(&mut self, name: &str) -> (r: usize)
        requires
            old(self).wf(),
            old(self).spec_slot_count() < usize::MAX,
        ensures
            final(self).wf(),
            r == add_slot(old(self)@, old(self).spec_slot_count(), name@),
            (final(self)@, final(self).spec_slot_count()) == add_spec(
                old(self)@,
                old(self).spec_slot_count(),
                name@,
                Visibility::Public,
            ),
    {
        self.add_name_visibility(name, Visibility::Public)
    }

    /// Forgets the binding of `name`; its slot stays allocated.
    pub fn hide_name(&mut self, name: &str)
        requires
            old(self).wf(),
        ensures
            final(self).wf(),
            final(self)@ == remove_spec(old(self)@, name@),
            final(self).spec_slot_count() == old(self).spec_slot_count(),
    {
        map_shift_remove(&mut self.map, name);
        proof {
            let s = old(self)@;
            match index_of(s, name@) {
                Some(i) => {
                    let t = self@;
                    assert forall|a: int, b: int| 0 <= a < b < t.len() implies t[a].0 != t[b].0 && t[a].1 != t[b].1 by {
                        let a2 = if a < i { a } else { a + 1 };
                        let b2 = if b < i { b } else { b + 1 };
                        assert(t[a] == s[a2] && t[b] == s[b2]);
                    }
                    assert forall|a: int| 0 <= a < t.len() implies (#[trigger] t[a]).1 < self.spec_slot_count() by {
                        let a2 = if a < i { a } else { a + 1 };
                        assert(t[a] == s[a2]);
                    }
                },
                None => {},
            }
        }
    }

    /// Every binding as (name, slot), in order of insertion.
    pub fn all_names(&self) -> (r: Vec<(String, usize)>)
        ensures
            r@.len() == self@.len(),
            forall|i: int|
                0 <= i < r@.len() ==> (#[trigger] r@[i]).0@ == self@[i].0 && r@[i].1 == self@[i].1,
    {
        let n = map_len(&self.map);
        let mut out: Vec<(String, usize)> = Vec::new();
        let mut k: usize = 0;
        while k < n
            invariant
                n == self@.len(),
                k <= n,
                out@.len() == k,
                forall|i: int|
                    0 <= i < k ==> (#[trigger] out@[i]).0@ == self@[i].0 && out@[i].1 == self@[i].1,
            decreases n - k,
        {
            let (name, slot, _) = map_get_index(&self.map, k);
            out.push((name, slot));
            k = k + 1;
        }
        out
    }

    /// Every binding as (name, visibility), in order of insertion.
    pub fn all_names_and_visibilities(&self) -> (r: Vec<(String, Visibility)>)
        ensures
            r@.len() == self@.len(),
            forall|i: int|
                0 <= i < r@.len() ==> (#[trigger] r@[i]).0@ == self@[i].0 && r@[i].1 == self@[i].2,
    {
        let n = map_len(&self.map);
        let mut out: Vec<(String, Visibility)> = Vec::new();
        let mut k: usize = 0;
        while k < n
            invariant
                n == self@.len(),
                k <= n,
                out@.len() == k,
                forall|i: int|
                    0 <= i < k ==> (#[trigger] out@[i]).0@ == self@[i].0 && out@[i].1 == self@[i].2,
            decreases n - k,
        {
            let (name, _, vis) = map_get_index(&self.map, k);
            out.push((name, vis));
            k = k + 1;
        }
        out
    }

    /// The immutable table with the same bindings.
    pub fn freeze(self) -> (r: FrozenNames)
        requires
            self.wf(),
        ensures
            r@ == self@,
            r.wf(),
            r.spec_slot_count() == self.spec_slot_count(),
    {
        FrozenNames { map: self.map, slot_count: self.next_slot }
    }
}

impl FrozenNames {
    pub closed spec fn spec_slot_count(&self) -> nat {
        self.slot_count as nat
    }

    pub open spec fn wf(&self) -> bool {
        table_wf(self@, self.spec_slot_count())
    }

    /// The slot and visibility bound to `name`, if any.
    pub fn get_name(&self, name: &str) -> (r: Option<(usize, Visibility)>)
        requires
            self.wf(),
        ensures
            r == lookup(self@, name@),
    {
        match find_name(&self.map, name) {
            Some(i) => {
                let (_, slot, vis) = map_get_index(&self.map, i);
                Some((slot, vis))
            },
            None => None,
        }
    }

    /// The name of the exported binding that holds `slot`, if any. A linear
    /// scan: meant for error paths.
    pub fn get_slot_name(&self, slot: usize) -> (r: Option<String>)
        ensures
            r is None <==> forall|i: int|
                0 <= i < self@.len() ==> !(self@[i].1 == slot && self@[i].2 == Visibility::Public),
            r matches Some(n) ==> exists|i: int|
                0 <= i < self@.len() && self@[i].1 == slot && self@[i].2 == Visibility::Public
                    && self@[i].0 == n@,
    {
        find_slot(&self.map, slot, true)
    }

    /// The number of bindings.
    pub fn len(&self) -> (r: usize)
        ensures
            r == self@.len(),
    {
        map_len(&self.map)
    }

    /// The binding at position `i`, as (name, slot, visibility).
    pub fn entry(&self, i: usize) -> (r: (String, usize, Visibility))
        requires
            i < self@.len(),
        ensures
            (r.0@, r.1, r.2) == self@[i as int],
    {
        map_get_index(&self.map, i)
    }

    /// The exported (Public) bindings as (name, slot), in order of insertion.
    pub fn symbols(&self) -> (r: Vec<(String, usize)>)
        ensures
            r@.len() == public_symbols(self@).len(),
            forall|i: int|
                0 <= i < r@.len() ==> ((#[trigger] r@[i]).0@, r@[i].1) == public_symbols(self@)[i],
    {
        let n = map_len(&self.map);
        let mut out: Vec<(String, usize)> = Vec::new();
        let mut k: usize = 0;
        while k < n
            invariant
                n == self@.len(),
                k <= n,
                out@.len() == public_symbols(self@.take(k as int)).len(),
                forall|i: int|
                    0 <= i < out@.len() ==> ((#[trigger] out@[i]).0@, out@[i].1) == public_symbols(
                        self@.take(k as int),
                    )[i],
            decreases n - k,
        {
            proof {
                assert(self@.take(k + 1) =~= self@.take(k as int).push(self@[k as int]));
                reveal(Seq::filter);
                assert(self@.take(k as int).push(self@[k as int]).drop_last() =~= self@.take(
                    k as int,
                ));
            }
            let (name, slot, vis) = map_get_index(&self.map, k);
            if vis == Visibility::Public {
                out.push((name, slot));
            }
            k = k + 1;
        }
        proof {
            assert(self@.take(self@.len() as int) =~= self@);
        }
        out
    }
}

} // verus!
