//! A readable dump of a frozen module: one `name = value` line per exported
//! name. Values are written as source would write them; a list met again
//! inside itself is written `[...]`.
use itertools::Itertools;
use vstd::prelude::*;
use vstd::string::StringExecFns;
use crate::text::{int64_string, int_text};
use crate::modules::FrozenModule;
use crate::slots::read_spec;
use crate::value::{FrozenData, FrozenHeap, Shape};

verus! {

/// `parts` with `sep` between each two.
pub open spec fn joined(parts: Seq<Seq<char>>, sep: Seq<char>) -> Seq<char>
    decreases parts.len(),
{
    if parts.len() == 0 {
        Seq::empty()
    } else if parts.len() == 1 {
        parts[0]
    } else {
        joined(parts.drop_last(), sep) + sep + parts.last()
    }
}

/// Relies on `Itertools::join`: the items written one after another, with
/// `sep` between each two.
#[verifier::external_body]
fn join_with(parts: &Vec<String>, sep: &str) -> (r: String)
    ensures
        r@ == joined(parts@.map_values(|s: String| s@), sep@),
{
    parts.iter().join(sep)
}

/// How the value in cell `k` of `f` is written, inside the lists on `stack`.
/// A list already on the stack is written `[...]`; `fuel` bounds the depth,
/// which a path without repetition never exceeds when it starts above the
/// heap's size.
pub open spec fn repr(f: Seq<Shape<usize>>, k: usize, stack: Seq<usize>, fuel: nat) -> Seq<char>
    decreases fuel, 0nat, 0nat,
{
    if fuel == 0 || k >= f.len() {
        seq!['.', '.', '.']
    } else if stack.contains(k) {
        seq!['[', '.', '.', '.', ']']
    } else {
        match f[k as int] {
            Shape::NoneValue => seq!['N', 'o', 'n', 'e'],
            Shape::Int(i) => int_text(i),
            Shape::Str(s) => seq!['"'] + s + seq!['"'],
            Shape::List(items) => seq!['['] + items_repr(f, items, 0, stack.push(k), (fuel - 1) as nat)
                + seq![']'],
            Shape::Captured(_) => seq!['<', 'c', 'a', 'p', 't', 'u', 'r', 'e', 'd', '>'],
        }
    }
}

/// The items of a list from `j` on, each after `, ` but the first.
pub open spec fn items_repr(f: Seq<Shape<usize>>, items: Seq<usize>, j: nat, stack: Seq<usize>, fuel: nat) -> Seq<char>
    decreases fuel, 1nat, items.len() - j,
{
    if j >= items.len() {
        Seq::empty()
    } else {
        (if j > 0 { seq![',', ' '] } else { Seq::empty() }) + repr(f, items[j as int], stack, fuel)
            + items_repr(f, items, j + 1, stack, fuel)
    }
}

fn on_stack(stack: &Vec<usize>, k: usize) -> (r: bool)
    ensures
        r == stack@.contains(k),
{
    let mut j: usize = 0;
    while j < stack.len()
        invariant
            j <= stack@.len(),
            forall|t: int| 0 <= t < j ==> stack@[t] != k,
        decreases stack@.len() - j,
    {
        if stack[j] == k {
            proof { assert(stack@[j as int] == k); }
            return true;
        }
        j = j + 1;
    }
    false
}

/// Appends how cell `k` is written to `out`.
fn repr_into(f: &FrozenHeap, k: usize, stack: &mut Vec<usize>, fuel: usize, out: &mut String)
    ensures
        final(out)@ == old(out)@ + repr(f@, k, old(stack)@, fuel as nat),
        final(stack)@ == old(stack)@,
    decreases fuel, 0nat, 0nat,
{
    proof {
        reveal_strlit("...");
        reveal_strlit("[...]");
        reveal_strlit("None");
        reveal_strlit("\"");
        reveal_strlit("[");
        reveal_strlit("]");
        reveal_strlit(", ");
        reveal_strlit("<captured>");
    }
    if fuel == 0 || k >= f.len() {
        out.append("...");
        return;
    }
    if on_stack(stack, k) {
        out.append("[...]");
        return;
    }
    match f.cell(k) {
        FrozenData::NoneValue => out.append("None"),
        FrozenData::Int(i) => out.append(int64_string(*i).as_str()),
        FrozenData::Str(s) => {
            out.append("\"");
            out.append(s.as_str());
            out.append("\"");
            proof {
                assert(final(out)@ =~= old(out)@ + repr(f@, k, old(stack)@, fuel as nat));
            }
        },
        FrozenData::List(items) => {
            let ghost s0 = stack@;
            let ghost target = old(out)@ + repr(f@, k, s0, fuel as nat);
            out.append("[");
            stack.push(k);
            let ghost inner = s0.push(k);
            let mut j: usize = 0;
            while j < items.len()
                invariant
                    j <= items@.len(),
                    stack@ == inner,
                    fuel > 0,
                    k < f@.len(),
                    !s0.contains(k),
                    f@[k as int] == Shape::List(items@),
                    target == old(out)@ + repr(f@, k, s0, fuel as nat),
                    out@ + items_repr(f@, items@, j as nat, inner, (fuel - 1) as nat) + seq![']'] == target,
                decreases items@.len() - j,
            {
                let ghost o0 = out@;
                proof {
                    reveal_strlit(", ");
                    assert(items_repr(f@, items@, j as nat, inner, (fuel - 1) as nat) == (if j > 0 {
                        seq![',', ' ']
                    } else {
                        Seq::<char>::empty()
                    }) + repr(f@, items@[j as int], inner, (fuel - 1) as nat) + items_repr(
                        f@,
                        items@,
                        (j + 1) as nat,
                        inner,
                        (fuel - 1) as nat,
                    ));
                }
                if j > 0 {
                    out.append(", ");
                }
                repr_into(f, items[j], stack, fuel - 1, out);
                proof {
                    assert(o0 + items_repr(f@, items@, j as nat, inner, (fuel - 1) as nat) =~= out@
                        + items_repr(f@, items@, (j + 1) as nat, inner, (fuel - 1) as nat));
                }
                j = j + 1;
            }
            stack.pop();
            out.append("]");
            proof {
                assert(stack@ =~= s0);
                assert(out@ =~= target);
            }
        },
        FrozenData::Captured(_) => out.append("<captured>"),
    }
}

/// How the value in cell `k` of `f` is written.
pub fn value_repr(f: &FrozenHeap, k: usize) -> (r: String)
    requires
        f@.len() < usize::MAX,
    ensures
        r@ == repr(f@, k, Seq::empty(), (f@.len() + 1) as nat),
{
    let mut out = String::new();
    let mut stack: Vec<usize> = Vec::new();
    repr_into(f, k, &mut stack, f.len() + 1, &mut out);
    out
}

/// The line for each exported name whose slot is assigned.
pub open spec fn describe_lines(f: &FrozenModule, syms: Seq<(Seq<char>, usize)>) -> Seq<Seq<char>>
    decreases syms.len(),
{
    if syms.len() == 0 {
        Seq::empty()
    } else {
        let rest = describe_lines(f, syms.drop_last());
        match read_spec(f.slots_view(), syms.last().1) {
            Ok(k) => rest.push(
                syms.last().0 + seq![' ', '=', ' '] + repr(f.heap_view(), k, Seq::empty(), (f.heap_view().len() + 1) as nat),
            ),
            Err(_) => rest,
        }
    }
}

impl FrozenModule {
    /// One `name = value` line per exported name with an assigned value, in
    /// order of definition, joined by newlines.
    pub fn describe(&self) -> (r: String)
        requires
            self.wf(),
            self.heap_view().len() < usize::MAX,
        ensures
            r@ == joined(
                describe_lines(self, crate::names::public_symbols(self.names_view())),
                seq!['\n'],
            ),
    {
        let syms = self.exported_symbols();
        let ghost ps = crate::names::public_symbols(self.names_view());
        let mut lines: Vec<String> = Vec::new();
        let mut j: usize = 0;
        while j < syms.len()
            invariant
                self.heap_view().len() < usize::MAX,
                syms@.len() == ps.len(),
                forall|i: int| 0 <= i < syms@.len() ==> ((#[trigger] syms@[i]).0@, syms@[i].1) == ps[i],
                j <= syms@.len(),
                lines@.map_values(|s: String| s@) == describe_lines(self, ps.take(j as int)),
            decreases syms@.len() - j,
        {
            let ghost pre = ps.take(j + 1);
            proof {
                assert(pre.drop_last() =~= ps.take(j as int));
                assert(pre.last() == ps[j as int]);
                reveal_strlit(" = ");
            }
            let ghost l0 = lines@;
            match self.slot_value(syms[j].1) {
                Some(k) => {
                    let mut line = syms[j].0.clone();
                    line.append(" = ");
                    line.append(value_repr(self.frozen_heap(), k).as_str());
                    proof {
                        assert(line@ == ps[j as int].0 + seq![' ', '=', ' '] + repr(self.heap_view(), k, Seq::empty(), (self.heap_view().len() + 1) as nat));
                        assert(describe_lines(self, pre) == describe_lines(self, ps.take(j as int)).push(line@));
                    }
                    lines.push(line);
                    proof {
                        assert(lines@.map_values(|s: String| s@) =~= l0.map_values(|s: String| s@).push(line@));
                    }
                },
                None => {
                    proof {
                        assert(describe_lines(self, pre) == describe_lines(self, ps.take(j as int)));
                    }
                },
            }
            j = j + 1;
        }
        proof {
            assert(ps.take(syms@.len() as int) =~= ps);
            reveal_strlit("\n");
            assert("\n"@ == seq!['\n']);
            assert(lines@.map_values(|s: String| s@) == describe_lines(self, ps));
        }
        let r = join_with(&lines, "\n");
        r
    }
}

} // verus!
