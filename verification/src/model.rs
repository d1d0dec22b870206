//! Pair sets of the Bernoulli–Gamma hurdle model.
use vstd::prelude::*;

verus! {

/// Strict lexicographic order on node pairs.
pub open spec fn pair_lt(p: (usize, usize), q: (usize, usize)) -> bool {
    p.0 < q.0 || (p.0 == q.0 && p.1 < q.1)
}

/// The pairs are in strictly increasing lexicographic order (so distinct).
pub open spec fn strictly_sorted(s: Seq<(usize, usize)>) -> bool {
    forall|a: int, b: int| 0 <= a < b < s.len() ==> pair_lt(#[trigger] s[a], #[trigger] s[b])
}

/// Number of pairs `(i, j)` with `i < rows` and `i < j < n`.
pub open spec fn pairs_in_rows(rows: nat, n: nat) -> nat
    decreases rows,
{
    if rows == 0 {
        0
    } else {
        pairs_in_rows((rows - 1) as nat, n) + if rows - 1 < n {
            (n - rows) as nat
        } else {
            0nat
        }
    }
}

/// Law: the rows of `0..rows` hold rows(2n - rows - 1)/2 pairs; all rows
/// together hold n(n-1)/2.
pub proof fn lemma_pairs_in_rows_closed_form(rows: nat, n: nat)
    requires
        rows <= n,
    ensures
        2 * pairs_in_rows(rows, n) == rows * (2 * n - rows - 1),
        rows == n ==> pairs_in_rows(rows, n) == n * (n - 1) / 2,
    decreases rows,
{
    if rows > 0 {
        lemma_pairs_in_rows_closed_form((rows - 1) as nat, n);
        let prev = pairs_in_rows((rows - 1) as nat, n);
        assert(pairs_in_rows(rows, n) == prev + (n - rows));
        let r = rows as int;
        let m = n as int;
        assert((r - 1) * (2 * m - (r - 1) - 1) + 2 * (m - r) == r * (2 * m - r - 1)) by (nonlinear_arith);
    }
    if rows == n {
        let x = pairs_in_rows(rows, n) as int;
        let m = n as int;
        assert(2 * x == m * (m - 1));
        assert(x == m * (m - 1) / 2) by (nonlinear_arith)
            requires
                2 * x == m * (m - 1),
        ;
    }
}

/// All pairs `(i, j)` with `i < j < n`, in lexicographic order.
pub fn complete_pairs(n: usize) -> (v: Vec<(usize, usize)>)
    ensures
        v.len() == n * (n - 1) / 2,
        forall|k: int| 0 <= k < v.len() ==> #[trigger] v[k].0 < v[k].1 && v[k].1 < n,
        forall|i: usize, j: usize| i < j < n ==> v@.contains((i, j)),
        strictly_sorted(v@),
{
    let mut v: Vec<(usize, usize)> = Vec::new();
    for i in 0..n
        invariant
            v.len() == pairs_in_rows(i as nat, n as nat),
            forall|k: int| 0 <= k < v.len() ==> #[trigger] v[k].0 < i && v[k].0 < v[k].1 && v[k].1 < n,
            forall|a: usize, b: usize| a < i && a < b < n ==> v@.contains((a, b)),
            strictly_sorted(v@),
    {
        for j in i + 1..n
            invariant
                i < n,
                v.len() == pairs_in_rows(i as nat, n as nat) + (j - i - 1),
                forall|k: int|
                    0 <= k < v.len() ==> #[trigger] v[k].0 <= i && v[k].0 < v[k].1 && v[k].1 < n
                        && pair_lt(v[k], (i, j)),
                forall|a: usize, b: usize|
                    (a < i && a < b < n) || (a == i && i < b < j) ==> v@.contains((a, b)),
                strictly_sorted(v@),
        {
            let ghost before = v@;
            v.push((i, j));
            proof {
                assert forall|a: usize, b: usize|
                    (a < i && a < b < n) || (a == i && i < b < j + 1) implies v@.contains((a, b)) by {
                    if a == i && b == j {
                        assert(v@[v.len() - 1] == (a, b));
                    } else {
                        assert(before.contains((a, b)));
                        let k = choose|k: int| 0 <= k < before.len() && before[k] == (a, b);
                        assert(v@[k] == (a, b));
                    }
                }
            }
        }
    }
    proof {
        lemma_pairs_in_rows_closed_form(n as nat, n as nat);
    }
    v
}

} // verus!
