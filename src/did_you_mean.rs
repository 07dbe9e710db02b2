//! Suggestions for misspelt names, by edit distance.
use vstd::prelude::*;

verus! {

/// Candidates this far from the name, or farther, are not suggested.
pub const MAX_EDIT_DISTANCE: usize = 3;

pub open spec fn min_nat(x: nat, y: nat) -> nat {
    if x <= y { x } else { y }
}

/// The Levenshtein distance: the fewest insertions, deletions and
/// substitutions of one character that turn `a` into `b`.
pub open spec fn edit_distance(a: Seq<char>, b: Seq<char>) -> nat
    decreases a.len() + b.len(),
{
    if a.len() == 0 {
        b.len()
    } else if b.len() == 0 {
        a.len()
    } else {
        let sub = edit_distance(a.drop_last(), b.drop_last()) + if a.last() == b.last() {
            0nat
        } else {
            1nat
        };
        let del = edit_distance(a.drop_last(), b) + 1;
        let ins = edit_distance(a, b.drop_last()) + 1;
        min_nat(sub, min_nat(del, ins))
    }
}

/// The edit distance, or `cap` where it is larger.
pub open spec fn capped_distance(a: Seq<char>, b: Seq<char>, cap: nat) -> nat {
    min_nat(edit_distance(a, b), cap)
}

/// The characters of `s`.
fn chars_of(s: &str) -> (r: Vec<char>)
    ensures
        r@ == s@,
{
    let n = s.unicode_len();
    let mut out: Vec<char> = Vec::new();
    let mut i: usize = 0;
    while i < n
        invariant
            n == s@.len(),
            i <= n,
            out@ == s@.take(i as int),
        decreases n - i,
    {
        out.push(s.get_char(i));
        proof {
            assert(s@.take(i + 1) =~= s@.take(i as int).push(s@[i as int]));
        }
        i = i + 1;
    }
    proof {
        assert(s@.take(n as int) =~= s@);
    }
    out
}

/// The edit distance of `a` and `b`, or `cap` where it is larger. Row by row,
/// each entry capped, so nothing overflows.
pub fn bounded_edit_distance(a: &Vec<char>, b: &Vec<char>, cap: usize) -> (r: usize)
    requires
        cap < usize::MAX,
    ensures
        r == capped_distance(a@, b@, cap as nat),
{
    let m = b.len();
    // prev[j] is the capped distance of a[..i] and b[..j].
    let mut prev: Vec<usize> = Vec::new();
    prev.push(0);
    let mut j: usize = 0;
    while j < m
        invariant
            m == b@.len(),
            j <= m,
            prev@.len() == j + 1,
            forall|t: int|
                0 <= t <= j ==> #[trigger] prev@[t] == capped_distance(Seq::empty(), b@.take(t), cap as nat),
        decreases m - j,
    {
        let v = if j + 1 < cap { j + 1 } else { cap };
        prev.push(v);
        j = j + 1;
    }
    let mut i: usize = 0;
    while i < a.len()
        invariant
            m == b@.len(),
            cap < usize::MAX,
            i <= a@.len(),
            prev@.len() == m + 1,
            forall|t: int|
                0 <= t <= m ==> #[trigger] prev@[t] == capped_distance(a@.take(i as int), b@.take(t), cap as nat),
        decreases a@.len() - i,
    {
        let ghost ai = a@.take(i + 1);
        proof {
            assert(ai.drop_last() =~= a@.take(i as int));
            assert(ai.last() == a@[i as int]);
            assert(b@.take(0) =~= Seq::<char>::empty());
        }
        let mut cur: Vec<usize> = Vec::new();
        let first = if i + 1 < cap { i + 1 } else { cap };
        cur.push(first);
        let mut j: usize = 0;
        while j < m
            invariant
                m == b@.len(),
                cap < usize::MAX,
                i < a@.len(),
                ai == a@.take(i + 1),
                ai.drop_last() == a@.take(i as int),
                ai.last() == a@[i as int],
                j <= m,
                prev@.len() == m + 1,
                cur@.len() == j + 1,
                forall|t: int|
                    0 <= t <= m ==> #[trigger] prev@[t] == capped_distance(a@.take(i as int), b@.take(t), cap as nat),
                forall|t: int| 0 <= t <= j ==> #[trigger] cur@[t] == capped_distance(ai, b@.take(t), cap as nat),
            decreases m - j,
        {
            let ghost bj = b@.take(j + 1);
            proof {
                assert(bj.drop_last() =~= b@.take(j as int));
                assert(bj.last() == b@[j as int]);
            }
            let cost: usize = if a[i] == b[j] { 0 } else { 1 };
            let sub = prev[j] + cost;
            let del = prev[j + 1] + 1;
            let ins = cur[j] + 1;
            let mut best = if sub <= del { sub } else { del };
            if ins < best {
                best = ins;
            }
            if cap < best {
                best = cap;
            }
            cur.push(best);
            j = j + 1;
        }
        prev = cur;
        i = i + 1;
    }
    proof {
        assert(a@.take(a@.len() as int) =~= a@);
        assert(b@.take(m as int) =~= b@);
    }
    prev[m]
}

/// The index of the first candidate at the smallest distance from `v`, where
/// that distance is below `MAX_EDIT_DISTANCE`.
pub open spec fn is_best(v: Seq<char>, cs: Seq<Seq<char>>, i: int) -> bool {
    &&& 0 <= i < cs.len()
    &&& edit_distance(v, cs[i]) < MAX_EDIT_DISTANCE
    &&& forall|j: int| 0 <= j < i ==> edit_distance(v, #[trigger] cs[j]) > edit_distance(v, cs[i])
    &&& forall|j: int| 0 <= j < cs.len() ==> edit_distance(v, #[trigger] cs[j]) >= edit_distance(v, cs[i])
}

/// The candidate nearest to `v`, the first of them on a tie, if it is closer
/// than `MAX_EDIT_DISTANCE`.
pub fn did_you_mean(v: &str, candidates: &Vec<String>) -> (r: Option<String>)
    ensures
        r is None <==> forall|j: int|
            0 <= j < candidates@.len() ==> edit_distance(v@, #[trigger] candidates@[j]@) >= MAX_EDIT_DISTANCE,
        r matches Some(s) ==> exists|i: int|
            is_best(v@, candidates@.map_values(|c: String| c@), i) && s@ == candidates@[i]@,
{
    let ghost cs = candidates@.map_values(|c: String| c@);
    let vc = chars_of(v);
    let mut best: Option<(usize, usize)> = None;
    let mut k: usize = 0;
    while k < candidates.len()
        invariant
            k <= candidates@.len(),
            vc@ == v@,
            cs == candidates@.map_values(|c: String| c@),
            match best {
                None => forall|j: int| 0 <= j < k ==> edit_distance(v@, #[trigger] cs[j]) >= MAX_EDIT_DISTANCE,
                Some((bi, bd)) => bi < k && bd == edit_distance(v@, cs[bi as int]) && bd < MAX_EDIT_DISTANCE
                    && (forall|j: int| 0 <= j < bi ==> edit_distance(v@, #[trigger] cs[j]) > bd)
                    && (forall|j: int| 0 <= j < k ==> edit_distance(v@, #[trigger] cs[j]) >= bd),
            },
        decreases candidates@.len() - k,
    {
        let cc = chars_of(candidates[k].as_str());
        let d = bounded_edit_distance(&vc, &cc, MAX_EDIT_DISTANCE);
        proof {
            assert(cs[k as int] == candidates@[k as int]@);
        }
        match best {
            None => {
                if d < MAX_EDIT_DISTANCE {
                    best = Some((k, d));
                }
            },
            Some((_, bd)) => {
                if d < bd {
                    best = Some((k, d));
                }
            },
        }
        k = k + 1;
    }
    proof {
        assert forall|j: int| 0 <= j < candidates@.len() implies cs[j] == (#[trigger] candidates@[j])@ by {}
    }
    match best {
        None => None,
        Some((bi, _)) => Some(candidates[bi].clone()),
    }
}

} // verus!
