//! A lint for suspicious but legal code: a dictionary literal that repeats a
//! key.
use vstd::prelude::*;
use vstd::string::StringExecFns;
use crate::text::{int_string, int_text};

verus! {

/// A position in the source text.
#[derive(Clone, Copy, Debug, PartialEq, Eq, Structural)]
pub struct Span {
    pub begin: u32,
    pub end: u32,
}

/// An expression, as far as the lint looks at it.
pub enum Expr {
    IntLiteral(i32, Span),
    StringLiteral(String, Span),
    Identifier(String, Span),
    /// A dictionary literal: (key, value) pairs in source order.
    Dict(Vec<(Expr, Expr)>),
    /// Any other expression (a call, a list, an operator...), with its
    /// subexpressions in source order.
    Other(Vec<Expr>),
}

/// A parsed module: its top-level expressions in order.
pub struct AstModule {
    pub exprs: Vec<Expr>,
}

/// The problem a lint reports.
#[derive(Debug, PartialEq, Eq)]
pub enum Dubious {
    /// A repeated dictionary key (as written), and where it is repeated.
    DuplicateKey(String, Span),
}

impl Dubious {
    /// Whether the problem is likely a mistake.
    pub fn is_serious(&self) -> (r: bool)
        ensures
            r,
    {
        true
    }
}

/// A reported problem, at the earlier occurrence it concerns.
#[derive(Debug, PartialEq, Eq)]
pub struct Lint {
    pub location: Span,
    pub problem: Dubious,
}

/// The identity of a key: keys are the same only within one kind.
pub enum KeyModel {
    Int(int),
    Str(Seq<char>),
    Ident(Seq<char>),
}

/// A lint as (location, key as written, span of the repetition).
pub type LintModel = (Span, Seq<char>, Span);

pub open spec fn lint_model(l: Lint) -> LintModel {
    match l.problem {
        Dubious::DuplicateKey(k, at) => (l.location, k@, at),
    }
}

/// The key an expression stands for, with its span; only literals and
/// identifiers are keys that cannot change between evaluations.
pub open spec fn key_of(e: Expr) -> Option<(KeyModel, Span)> {
    match e {
        Expr::IntLiteral(i, s) => Some((KeyModel::Int(i as int), s)),
        Expr::StringLiteral(t, s) => Some((KeyModel::Str(t@), s)),
        Expr::Identifier(t, s) => Some((KeyModel::Ident(t@), s)),
        _ => None,
    }
}

/// A key as written.
pub open spec fn key_text(k: KeyModel) -> Seq<char> {
    match k {
        KeyModel::Int(i) => int_text(i),
        KeyModel::Str(t) => seq!['"'] + t + seq!['"'],
        KeyModel::Ident(t) => t,
    }
}

/// The span of the last key in `entries` equal to `k`.
pub open spec fn last_occurrence(entries: Seq<(Expr, Expr)>, k: KeyModel) -> Option<Span>
    decreases entries.len(),
{
    if entries.len() == 0 {
        None
    } else {
        match key_of(entries.last().0) {
            Some((k2, s)) => if k2 == k {
                Some(s)
            } else {
                last_occurrence(entries.drop_last(), k)
            },
            None => last_occurrence(entries.drop_last(), k),
        }
    }
}

/// The lints of one dictionary's keys: each key that repeats an earlier one
/// is reported at the latest earlier occurrence.
pub open spec fn dict_lints(entries: Seq<(Expr, Expr)>) -> Seq<LintModel>
    decreases entries.len(),
{
    if entries.len() == 0 {
        Seq::empty()
    } else {
        let prefix = entries.drop_last();
        dict_lints(prefix) + match key_of(entries.last().0) {
            Some((k, s)) => match last_occurrence(prefix, k) {
                Some(prev) => seq![(prev, key_text(k), s)],
                None => Seq::empty(),
            },
            None => Seq::empty(),
        }
    }
}

/// The lints of an expression and all it contains, in visiting order: an
/// expression before its subexpressions, subexpressions in source order.
pub open spec fn expr_lints(e: Expr) -> Seq<LintModel>
    decreases e, 1nat, 0nat,
{
    match e {
        Expr::Dict(entries) => dict_lints(entries@) + entries_lints(e, 0),
        Expr::Other(_) => children_lints(e, 0),
        _ => Seq::empty(),
    }
}

/// The lints inside the entries of the dictionary `e`, from entry `k` on.
pub open spec fn entries_lints(e: Expr, k: nat) -> Seq<LintModel>
    decreases e, 0nat, (if e is Dict { e->Dict_0@.len() - k } else { 0 }),
{
    match e {
        Expr::Dict(entries) => if k < entries@.len() {
            expr_lints(entries@[k as int].0) + expr_lints(entries@[k as int].1) + entries_lints(e, k + 1)
        } else {
            Seq::empty()
        },
        _ => Seq::empty(),
    }
}

/// The lints inside the subexpressions of `e`, from subexpression `k` on.
pub open spec fn children_lints(e: Expr, k: nat) -> Seq<LintModel>
    decreases e, 0nat, (if e is Other { e->Other_0@.len() - k } else { 0 }),
{
    match e {
        Expr::Other(children) => if k < children@.len() {
            expr_lints(children@[k as int]) + children_lints(e, k + 1)
        } else {
            Seq::empty()
        },
        _ => Seq::empty(),
    }
}

pub open spec fn lints_model(v: Seq<Lint>) -> Seq<LintModel> {
    Seq::new(v.len(), |i: int| lint_model(v[i]))
}

/// A key as written; `e` must be a literal or an identifier.
fn key_string(e: &Expr) -> (r: String)
    requires
        key_of(*e) is Some,
    ensures
        r@ == key_text(key_of(*e).unwrap().0),
{
    match e {
        Expr::IntLiteral(i, _) => int_string(*i),
        Expr::StringLiteral(t, _) => {
            proof { reveal_strlit("\""); }
            String::from_str("\"").concat(t.as_str()).concat("\"")
        },
        Expr::Identifier(t, _) => t.clone(),
        _ => String::new(),
    }
}

/// Whether `a` and `b` are keys, and the same key.
fn same_key(a: &Expr, b: &Expr) -> (r: bool)
    ensures
        r == (key_of(*a) is Some && key_of(*b) is Some && key_of(*a).unwrap().0 == key_of(*b).unwrap().0),
{
    match (a, b) {
        (Expr::IntLiteral(x, _), Expr::IntLiteral(y, _)) => *x == *y,
        (Expr::StringLiteral(x, _), Expr::StringLiteral(y, _)) => *x == *y,
        (Expr::Identifier(x, _), Expr::Identifier(y, _)) => *x == *y,
        _ => false,
    }
}

/// The span of a key expression.
fn key_span(e: &Expr) -> (r: Span)
    requires
        key_of(*e) is Some,
    ensures
        r == key_of(*e).unwrap().1,
{
    match e {
        Expr::IntLiteral(_, s) => *s,
        Expr::StringLiteral(_, s) => *s,
        Expr::Identifier(_, s) => *s,
        _ => Span { begin: 0, end: 0 },
    }
}

/// Where the key of entry `p` last occurred among the entries before it.
fn find_previous(entries: &Vec<(Expr, Expr)>, p: usize) -> (r: Option<Span>)
    requires
        p < entries@.len(),
        key_of(entries@[p as int].0) is Some,
    ensures
        r == last_occurrence(entries@.take(p as int), key_of(entries@[p as int].0).unwrap().0),
{
    let ghost k = key_of(entries@[p as int].0).unwrap().0;
    let mut q: usize = p;
    while q > 0
        invariant
            q <= p < entries@.len(),
            key_of(entries@[p as int].0) is Some,
            k == key_of(entries@[p as int].0).unwrap().0,
            last_occurrence(entries@.take(p as int), k) == last_occurrence(entries@.take(q as int), k),
        decreases q,
    {
        let ghost pre = entries@.take(q as int);
        proof {
            assert(pre.last() == entries@[q - 1]);
            assert(pre.drop_last() =~= entries@.take(q - 1));
        }
        if same_key(&entries[q - 1].0, &entries[p].0) {
            return Some(key_span(&entries[q - 1].0));
        }
        proof {
            assert(last_occurrence(pre, k) == last_occurrence(pre.drop_last(), k));
        }
        q = q - 1;
    }
    None
}

/// Reports the repeated keys of the entries of one dictionary.
fn check_dict(entries: &Vec<(Expr, Expr)>, res: &mut Vec<Lint>)
    ensures
        lints_model(final(res)@) == lints_model(old(res)@) + dict_lints(entries@),
{
    let mut p: usize = 0;
    while p < entries.len()
        invariant
            p <= entries@.len(),
            lints_model(res@) == lints_model(old(res)@) + dict_lints(entries@.take(p as int)),
        decreases entries@.len() - p,
    {
        let ghost before = res@;
        let ghost pre = entries@.take(p + 1);
        proof {
            assert(pre.drop_last() =~= entries@.take(p as int));
            assert(pre.last() == entries@[p as int]);
        }
        let key = &entries[p].0;
        match key {
            Expr::IntLiteral(..) | Expr::StringLiteral(..) | Expr::Identifier(..) => {
                match find_previous(entries, p) {
                    Some(prev) => {
                        let text = key_string(key);
                        let at = key_span(key);
                        res.push(Lint { location: prev, problem: Dubious::DuplicateKey(text, at) });
                        proof {
                            assert(lints_model(res@) =~= lints_model(before).push(lint_model(res@.last())));
                        }
                    },
                    None => {},
                }
            },
            _ => {},
        }
        proof {
            assert(lints_model(old(res)@) + dict_lints(pre) =~= lints_model(res@));
        }
        p = p + 1;
    }
    proof {
        assert(entries@.take(entries@.len() as int) =~= entries@);
    }
}

/// Reports the repeated dictionary keys in `e` and all it contains.
#[verifier::rlimit(40)]
fn check_expr(e: &Expr, res: &mut Vec<Lint>)
    ensures
        lints_model(final(res)@) == lints_model(old(res)@) + expr_lints(*e),
    decreases *e,
{
    match e {
        Expr::Dict(entries) => {
            check_dict(entries, res);
            let ghost target = lints_model(old(res)@) + expr_lints(*e);
            let mut k: usize = 0;
            while k < entries.len()
                invariant
                    *e == Expr::Dict(*entries),
                    k <= entries@.len(),
                    lints_model(res@) + entries_lints(*e, k as nat) == target,
                decreases entries@.len() - k,
            {
                let ghost r0 = lints_model(res@);
                assert(decreases_to!(*e => entries@[k as int].0));
                assert(decreases_to!(*e => entries@[k as int].1));
                check_expr(&entries[k].0, res);
                check_expr(&entries[k].1, res);
                proof {
                    assert(entries_lints(*e, k as nat) == expr_lints(entries@[k as int].0) + expr_lints(entries@[k as int].1) + entries_lints(*e, (k + 1) as nat));
                    assert(r0 + entries_lints(*e, k as nat) =~= lints_model(res@) + entries_lints(*e, (k + 1) as nat));
                }
                k = k + 1;
            }
            proof {
                assert(entries_lints(*e, k as nat) == Seq::<LintModel>::empty());
                assert(lints_model(res@) =~= target);
            }
        },
        Expr::Other(children) => {
            let ghost target = lints_model(old(res)@) + expr_lints(*e);
            let mut k: usize = 0;
            while k < children.len()
                invariant
                    *e == Expr::Other(*children),
                    k <= children@.len(),
                    lints_model(res@) + children_lints(*e, k as nat) == target,
                decreases children@.len() - k,
            {
                let ghost r0 = lints_model(res@);
                assert(decreases_to!(*e => children@[k as int]));
                check_expr(&children[k], res);
                proof {
                    assert(children_lints(*e, k as nat) == expr_lints(children@[k as int]) + children_lints(*e, (k + 1) as nat));
                    assert(r0 + children_lints(*e, k as nat) =~= lints_model(res@) + children_lints(*e, (k + 1) as nat));
                }
                k = k + 1;
            }
            proof {
                assert(children_lints(*e, k as nat) == Seq::<LintModel>::empty());
                assert(lints_model(res@) =~= target);
            }
        },
        _ => {
            proof {
                assert(lints_model(res@) =~= lints_model(old(res)@) + expr_lints(*e));
            }
        },
    }
}

/// The lints of a module's expressions, in order.
pub open spec fn module_lints(exprs: Seq<Expr>) -> Seq<LintModel>
    decreases exprs.len(),
{
    if exprs.len() == 0 {
        Seq::empty()
    } else {
        module_lints(exprs.drop_last()) + expr_lints(exprs.last())
    }
}

/// Appends to `res` a lint for each dictionary literal key that repeats an
/// earlier key of the same dictionary (same integer, same string, or same
/// identifier), at the latest earlier occurrence.
pub fn duplicate_dictionary_key(module: &AstModule, res: &mut Vec<Lint>)
    ensures
        lints_model(final(res)@) == lints_model(old(res)@) + module_lints(module.exprs@),
{
    let mut k: usize = 0;
    while k < module.exprs.len()
        invariant
            k <= module.exprs@.len(),
            lints_model(res@) == lints_model(old(res)@) + module_lints(module.exprs@.take(k as int)),
        decreases module.exprs@.len() - k,
    {
        let ghost r0 = lints_model(res@);
        check_expr(&module.exprs[k], res);
        proof {
            let pre = module.exprs@.take(k + 1);
            assert(pre.drop_last() =~= module.exprs@.take(k as int));
            assert(lints_model(res@) =~= lints_model(old(res)@) + module_lints(pre));
        }
        k = k + 1;
    }
    proof {
        assert(module.exprs@.take(module.exprs@.len() as int) =~= module.exprs@);
    }
}

/// Every dubious pattern in `module`.
pub fn dubious(module: &AstModule) -> (r: Vec<Lint>)
    ensures
        lints_model(r@) == module_lints(module.exprs@),
{
    let mut res: Vec<Lint> = Vec::new();
    duplicate_dictionary_key(module, &mut res);
    proof {
        assert(lints_model(Seq::<Lint>::empty()) + module_lints(module.exprs@) =~= module_lints(module.exprs@));
    }
    res
}

} // verus!
