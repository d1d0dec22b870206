//! Integer parts of the scaling experiment: random sparse pair sets and the
//! best label alignment of predicted communities against the truth.
use crate::model::{pair_lt, strictly_sorted};
use crate::rng::{below_value, lemma_nth_state_add, nth_state, xoshiro_output, xoshiro_step, Rng, XoState};
use vstd::prelude::*;

verus! {

fn pair_less(p: (usize, usize), q: (usize, usize)) -> (r: bool)
    ensures
        r == pair_lt(p, q),
{
    p.0 < q.0 || (p.0 == q.0 && p.1 < q.1)
}

/// Adds `p` to the strictly sorted pair list `v` unless it is already there;
/// returns whether it was added.
fn insert_sorted(v: &mut Vec<(usize, usize)>, p: (usize, usize)) -> (added: bool)
    requires
        strictly_sorted(old(v)@),
    ensures
        strictly_sorted(final(v)@),
        added == !old(v)@.contains(p),
        final(v).len() == old(v).len() + if added {
            1int
        } else {
            0int
        },
        forall|x: (usize, usize)| #[trigger] final(v)@.contains(x) <==> (old(v)@.contains(x) || x == p),
{
    let mut lo: usize = 0;
    let mut hi: usize = v.len();
    while lo < hi
        invariant
            0 <= lo <= hi <= v.len(),
            strictly_sorted(v@),
            forall|k: int| 0 <= k < lo ==> pair_lt(#[trigger] v@[k], p),
            forall|k: int| hi <= k < v.len() ==> !pair_lt(#[trigger] v@[k], p),
        decreases hi - lo,
    {
        let mid = lo + (hi - lo) / 2;
        if pair_less(v[mid], p) {
            lo = mid + 1;
        } else {
            hi = mid;
        }
    }
    if lo < v.len() && v[lo].0 == p.0 && v[lo].1 == p.1 {
        return false;
    }
    proof {
        assert forall|k: int| 0 <= k < v.len() implies v@[k] != p by {
            if k >= lo {
                assert(!pair_lt(v@[k], p));
                if k > lo {
                    assert(pair_lt(v@[lo as int], v@[k]));
                }
            }
        }
    }
    let ghost old_v = v@;
    v.insert(lo, p);
    proof {
        old_v.insert_ensures(lo as int, p);
        assert forall|a: int, b: int| 0 <= a < b < v@.len() implies pair_lt(#[trigger] v@[a], #[trigger] v@[b]) by {
            if b < lo {
            } else if b == lo {
            } else if a < lo {
                assert(v@[b] == old_v[b - 1]);
                assert(!pair_lt(old_v[b - 1], p) && old_v[b - 1] != p);
            } else if a == lo {
                assert(v@[b] == old_v[b - 1]);
                assert(!pair_lt(old_v[b - 1], p) && old_v[b - 1] != p);
            } else {
                assert(v@[a] == old_v[a - 1] && v@[b] == old_v[b - 1]);
            }
        }
        assert forall|x: (usize, usize)| #[trigger] v@.contains(x) <==> (old_v.contains(x) || x == p) by {
            if v@.contains(x) {
                let k = choose|k: int| 0 <= k < v@.len() && v@[k] == x;
                if k < lo {
                    assert(old_v[k] == x);
                } else if k > lo {
                    assert(old_v[k - 1] == x);
                }
            }
            if old_v.contains(x) {
                let k = choose|k: int| 0 <= k < old_v.len() && old_v[k] == x;
                if k < lo {
                    assert(v@[k] == x);
                } else {
                    assert(v@[k + 1] == x);
                }
            }
            if x == p {
                assert(v@[lo as int] == x);
            }
        }
    }
    true
}


/// Largest number of draws `random_pairs` makes before it gives up.
pub open spec fn draw_budget() -> nat {
    u64::MAX as nat
}

/// One attempt: two draws of `below(n)` from state `s`; returns the state
/// after both draws and the two nodes.
pub open spec fn pair_draw(s: XoState, n: nat) -> (XoState, usize, usize) {
    let i = below_value(xoshiro_output(s), n);
    let s1 = xoshiro_step(s);
    let j = below_value(xoshiro_output(s1), n);
    (xoshiro_step(s1), i as usize, j as usize)
}

/// The pair `{i, j}` written with its smaller node first.
pub open spec fn ordered_pair(i: usize, j: usize) -> (usize, usize) {
    if i < j {
        (i, j)
    } else {
        (j, i)
    }
}

/// Draws pairs from state `s` until `acc` (new pairs in order of first
/// appearance) holds `m` pairs or `fuel` attempts are spent; a draw with
/// `i == j` is discarded. Returns the final state and the pairs.
pub open spec fn collect_pairs(
    s: XoState,
    n: nat,
    m: nat,
    acc: Seq<(usize, usize)>,
    fuel: nat,
) -> (XoState, Seq<(usize, usize)>)
    decreases fuel,
{
    if acc.len() >= m || fuel == 0 {
        (s, acc)
    } else {
        let (s2, i, j) = pair_draw(s, n);
        if i == j {
            collect_pairs(s2, n, m, acc, (fuel - 1) as nat)
        } else {
            let p = ordered_pair(i, j);
            collect_pairs(
                s2,
                n,
                m,
                if acc.contains(p) {
                    acc
                } else {
                    acc.push(p)
                },
                (fuel - 1) as nat,
            )
        }
    }
}

/// The two nodes drawn by attempt `t` (draws `2t` and `2t + 1` of the
/// stream from state `s`, each `below(n)`).
pub open spec fn attempt_draws(s: XoState, n: nat, t: nat) -> (nat, nat) {
    (
        below_value(xoshiro_output(nth_state(s, 2 * t)), n),
        below_value(xoshiro_output(nth_state(s, 2 * t + 1)), n),
    )
}

/// The pair of two nodes, smaller node first.
pub open spec fn pair_of(d: (nat, nat)) -> (usize, usize) {
    if d.0 < d.1 {
        (d.0 as usize, d.1 as usize)
    } else {
        (d.1 as usize, d.0 as usize)
    }
}

/// Attempt `t` drew two different nodes, and `x` is their pair.
pub open spec fn attempt_gives(s: XoState, n: nat, t: nat, x: (usize, usize)) -> bool {
    attempt_draws(s, n, t).0 != attempt_draws(s, n, t).1 && x == pair_of(attempt_draws(s, n, t))
}

proof fn lemma_below_value_fits(draw: u64, n: nat)
    requires
        n > 0,
    ensures
        below_value(draw, n) < n,
        below_value(draw, n) <= usize::MAX,
{
    let k = (draw / 2048) as nat;
    let scaled = crate::rng::round_to_f64(k * crate::rng::round_to_f64(n)) / crate::rng::two_pow_53();
    let truncated = if scaled > usize::MAX {
        usize::MAX as nat
    } else {
        scaled
    };
    vstd::arithmetic::div_mod::lemma_mod_decreases(truncated, n);
}

proof fn lemma_attempt_shift(s: XoState, n: nat, t: nat)
    ensures
        attempt_draws(s, n, t + 1) == attempt_draws(nth_state(s, 2), n, t),
        nth_state(s, 2) == pair_draw(s, n).0,
        attempt_draws(s, n, 0).0 == below_value(xoshiro_output(s), n),
        attempt_draws(s, n, 0).1 == below_value(xoshiro_output(xoshiro_step(s)), n),
{
    lemma_nth_state_add(s, 2, 2 * t);
    lemma_nth_state_add(s, 2, 2 * t + 1);
    assert(2 * (t + 1) == 2 + 2 * t);
    assert(2 * (t + 1) + 1 == 2 + (2 * t + 1));
    reveal_with_fuel(nth_state, 3);
}

proof fn lemma_collect_keeps(s: XoState, n: nat, m: nat, acc: Seq<(usize, usize)>, fuel: nat, x: (usize, usize))
    requires
        acc.contains(x),
    ensures
        collect_pairs(s, n, m, acc, fuel).1.contains(x),
    decreases fuel,
{
    if !(acc.len() >= m || fuel == 0) {
        let (s2, i, j) = pair_draw(s, n);
        if i == j {
            lemma_collect_keeps(s2, n, m, acc, (fuel - 1) as nat, x);
        } else {
            let p = ordered_pair(i, j);
            let acc2 = if acc.contains(p) {
                acc
            } else {
                acc.push(p)
            };
            if !acc.contains(p) {
                let k = choose|k: int| 0 <= k < acc.len() && acc[k] == x;
                assert(acc2[k] == x);
            }
            lemma_collect_keeps(s2, n, m, acc2, (fuel - 1) as nat, x);
        }
    }
}

/// Law (every pair is drawn): each pair the search returns was already in
/// `acc` or is the pair of two different nodes drawn by one of its attempts.
pub proof fn lemma_collected_pairs_are_drawn(
    s: XoState,
    n: nat,
    m: nat,
    acc: Seq<(usize, usize)>,
    fuel: nat,
    x: (usize, usize),
)
    requires
        n > 0,
        collect_pairs(s, n, m, acc, fuel).1.contains(x),
    ensures
        acc.contains(x) || exists|t: nat| t < fuel && #[trigger] attempt_gives(s, n, t, x),
    decreases fuel,
{
    if !(acc.len() >= m || fuel == 0) {
        let (s2, i, j) = pair_draw(s, n);
        lemma_attempt_shift(s, n, 0);
        lemma_below_value_fits(xoshiro_output(s), n);
        lemma_below_value_fits(xoshiro_output(xoshiro_step(s)), n);
        let acc2 = if i == j {
            acc
        } else {
            let p = ordered_pair(i, j);
            if acc.contains(p) {
                acc
            } else {
                acc.push(p)
            }
        };
        lemma_collected_pairs_are_drawn(s2, n, m, acc2, (fuel - 1) as nat, x);
        if !acc.contains(x) {
            if acc2.contains(x) {
                let k = choose|k: int| 0 <= k < acc2.len() && acc2[k] == x;
                if k == acc.len() {
                    assert(attempt_gives(s, n, 0, x));
                } else {
                    assert(acc[k] == x);
                }
            } else {
                let t = choose|t: nat| t < (fuel - 1) as nat && #[trigger] attempt_gives(s2, n, t, x);
                lemma_attempt_shift(s, n, t);
                assert(attempt_gives(s, n, t + 1, x));
            }
        }
    }
}

/// Law (every distinct attempt counts): when the search ends with fewer than
/// `m` pairs, the pair of every attempt that drew two different nodes is
/// among the returned pairs.
pub proof fn lemma_collect_complete(
    s: XoState,
    n: nat,
    m: nat,
    acc: Seq<(usize, usize)>,
    fuel: nat,
    t: nat,
)
    requires
        n > 0,
        collect_pairs(s, n, m, acc, fuel).1.len() < m,
        t < fuel,
        attempt_draws(s, n, t).0 != attempt_draws(s, n, t).1,
    ensures
        collect_pairs(s, n, m, acc, fuel).1.contains(pair_of(attempt_draws(s, n, t))),
    decreases fuel,
{
    let (s2, i, j) = pair_draw(s, n);
    lemma_attempt_shift(s, n, 0);
    lemma_below_value_fits(xoshiro_output(s), n);
    lemma_below_value_fits(xoshiro_output(xoshiro_step(s)), n);
    let acc2 = if i == j {
        acc
    } else {
        let p = ordered_pair(i, j);
        if acc.contains(p) {
            acc
        } else {
            acc.push(p)
        }
    };
    if t == 0 {
        let p = ordered_pair(i, j);
        assert(p == pair_of(attempt_draws(s, n, 0)));
        assert(acc2.contains(p)) by {
            if !acc.contains(p) {
                assert(acc2[acc.len() as int] == p);
            }
        }
        lemma_collect_keeps(s2, n, m, acc2, (fuel - 1) as nat, p);
    } else {
        lemma_attempt_shift(s, n, (t - 1) as nat);
        lemma_collect_complete(s2, n, m, acc2, (fuel - 1) as nat, (t - 1) as nat);
    }
}

/// `m` distinct random node pairs `(i, j)`, `i < j < n`, sorted. Pairs are
/// drawn as two `below(n)` nodes each; equal nodes and repeated pairs are
/// skipped. The search stops after 2^64 - 1 attempts, so fewer than `m`
/// pairs come back only if the generator's stream never offers `m`
/// distinct pairs in that many attempts.
pub fn random_pairs(rng: &mut Rng, n: usize, m: usize) -> (v: Vec<(usize, usize)>)
    requires
        n > 0 || m == 0,
    ensures
        ({
            let (s, acc) = collect_pairs(old(rng)@, n as nat, m as nat, Seq::empty(), draw_budget());
            &&& final(rng)@ == s
            &&& v.len() == acc.len()
            &&& forall|x: (usize, usize)| #[trigger] v@.contains(x) <==> acc.contains(x)
        }),
        strictly_sorted(v@),
        v.len() <= m,
        forall|k: int| 0 <= k < v.len() ==> #[trigger] v[k].0 < v[k].1 && v[k].1 < n,
        forall|x: (usize, usize)|
            #[trigger] v@.contains(x) ==> exists|t: nat| t < draw_budget() && #[trigger] attempt_gives(
                old(rng)@,
                n as nat,
                t,
                x,
            ),
        v.len() < m ==> forall|t: nat|
            t < draw_budget() && #[trigger] attempt_draws(old(rng)@, n as nat, t).0 != attempt_draws(
                old(rng)@,
                n as nat,
                t,
            ).1 ==> v@.contains(pair_of(attempt_draws(old(rng)@, n as nat, t))),
{
    let ghost s_start = rng@;
    let mut v: Vec<(usize, usize)> = Vec::new();
    let ghost mut acc: Seq<(usize, usize)> = Seq::empty();
    let ghost target = collect_pairs(rng@, n as nat, m as nat, Seq::empty(), draw_budget());
    let mut attempts: u64 = 0;
    while v.len() < m && attempts < u64::MAX
        invariant
            n > 0 || m == 0,
            target == collect_pairs(rng@, n as nat, m as nat, acc, (draw_budget() - attempts) as nat),
            v.len() == acc.len(),
            v.len() <= m,
            strictly_sorted(v@),
            forall|x: (usize, usize)| #[trigger] v@.contains(x) <==> acc.contains(x),
            forall|k: int| 0 <= k < v.len() ==> #[trigger] v[k].0 < v[k].1 && v[k].1 < n,
        decreases u64::MAX - attempts,
    {
        let ghost s0 = rng@;
        let i = rng.below(n);
        let j = rng.below(n);
        attempts = attempts + 1;
        proof {
            assert(pair_draw(s0, n as nat) == (rng@, i, j));
        }
        if i == j {
            continue;
        }
        let p = if i < j {
            (i, j)
        } else {
            (j, i)
        };
        let ghost before = v@;
        let ghost old_acc = acc;
        let added = insert_sorted(&mut v, p);
        proof {
            if added {
                acc = old_acc.push(p);
                assert forall|x: (usize, usize)| #[trigger] v@.contains(x) <==> acc.contains(x) by {
                    if acc.contains(x) && x != p {
                        let k = choose|k: int| 0 <= k < acc.len() && acc[k] == x;
                        assert(old_acc[k] == x);
                        assert(old_acc.contains(x));
                    }
                    if x == p {
                        assert(acc[acc.len() - 1] == p);
                    }
                    if v@.contains(x) && x != p {
                        assert(before.contains(x));
                        assert(old_acc.contains(x));
                        let k = choose|k: int| 0 <= k < old_acc.len() && old_acc[k] == x;
                        assert(acc[k] == x);
                    }
                }
            }
            assert forall|k: int| 0 <= k < v.len() implies #[trigger] v[k].0 < v[k].1 && v[k].1 < n by {
                assert(v@.contains(v@[k]));
                if v@[k] != p {
                    assert(before.contains(v@[k]));
                    let k2 = choose|k2: int| 0 <= k2 < before.len() && before[k2] == v@[k];
                    assert(before[k2].0 < before[k2].1 && before[k2].1 < n);
                }
            }
        }
    }
    proof {
        let (_, acc_final) = collect_pairs(s_start, n as nat, m as nat, Seq::empty(), draw_budget());
        assert forall|x: (usize, usize)| #[trigger] v@.contains(x) implies exists|t: nat|
            t < draw_budget() && #[trigger] attempt_gives(s_start, n as nat, t, x) by {
            lemma_collected_pairs_are_drawn(s_start, n as nat, m as nat, Seq::empty(), draw_budget(), x);
        }
        if v.len() < m {
            assert forall|t: nat|
                t < draw_budget() && #[trigger] attempt_draws(s_start, n as nat, t).0 != attempt_draws(
                    s_start,
                    n as nat,
                    t,
                ).1 implies v@.contains(pair_of(attempt_draws(s_start, n as nat, t))) by {
                lemma_collect_complete(s_start, n as nat, m as nat, Seq::empty(), draw_budget(), t);
            }
        }
    }
    v
}


/// `p` is an arrangement of `k` distinct labels below `k`.
pub open spec fn is_perm(p: Seq<usize>, k: nat) -> bool {
    &&& p.len() == k
    &&& forall|c: int| 0 <= c < k ==> #[trigger] p[c] < k
    &&& forall|c1: int, c2: int| 0 <= c1 < c2 < k ==> #[trigger] p[c1] != #[trigger] p[c2]
}

/// `a` comes strictly before `b` in lexicographic order.
pub open spec fn lex_lt(a: Seq<usize>, b: Seq<usize>) -> bool {
    exists|d: int|
        0 <= d < a.len() && d < b.len() && #[trigger] a[d] < b[d] && forall|e: int|
            0 <= e < d ==> #[trigger] a[e] == b[e]
}

/// One cell of the overlap: node `i` is in predicted community `p[c]` and
/// in true community `c`.
pub open spec fn overlap_cell(pred: Seq<u8>, truth: Seq<u8>, k: nat, p: Seq<usize>, i: nat, c: nat) -> nat {
    if pred[(i * k + p[c as int]) as int] == 1 && truth[(i * k + c) as int] == 1 {
        1
    } else {
        0
    }
}

/// Overlap of node `i` over the communities `0..cols`.
pub open spec fn overlap_row(pred: Seq<u8>, truth: Seq<u8>, k: nat, p: Seq<usize>, i: nat, cols: nat) -> nat
    decreases cols,
{
    if cols == 0 {
        0
    } else {
        overlap_row(pred, truth, k, p, i, (cols - 1) as nat) + overlap_cell(pred, truth, k, p, i, (cols - 1) as nat)
    }
}

/// Number of (node, community) memberships shared by the truth and the
/// prediction when predicted community `p[c]` is matched to true
/// community `c`, over nodes `0..rows`.
pub open spec fn overlap(pred: Seq<u8>, truth: Seq<u8>, k: nat, p: Seq<usize>, rows: nat) -> nat
    decreases rows,
{
    if rows == 0 {
        0
    } else {
        overlap(pred, truth, k, p, (rows - 1) as nat) + overlap_row(pred, truth, k, p, (rows - 1) as nat, k)
    }
}

/// `a` is at least as good a matching as `b`: more overlap, or the same
/// overlap and not later in lexicographic order.
pub open spec fn at_least_as_good(pred: Seq<u8>, truth: Seq<u8>, n: nat, k: nat, a: Seq<usize>, b: Seq<usize>) -> bool {
    let sa = overlap(pred, truth, k, a, n);
    let sb = overlap(pred, truth, k, b, n);
    sa > sb || (sa == sb && (a == b || lex_lt(a, b)))
}

/// `p` is the matching the alignment picks: the lexicographically first
/// permutation of greatest overlap.
pub open spec fn is_best_permutation(pred: Seq<u8>, truth: Seq<u8>, n: nat, k: nat, p: Seq<usize>) -> bool {
    &&& is_perm(p, k)
    &&& forall|q: Seq<usize>| is_perm(q, k) ==> #[trigger] at_least_as_good(pred, truth, n, k, p, q)
}

/// The inputs of the alignment: `n` rows of `k` membership bits each.
pub open spec fn alignment_inputs(pred: Seq<u8>, truth: Seq<u8>, n: nat, k: nat) -> bool {
    &&& n * k <= usize::MAX
    &&& pred.len() >= n * k
    &&& truth.len() >= n * k
}

proof fn lemma_cell_index(i: nat, c: nat, n: nat, k: nat)
    requires
        i < n,
        c <= k,
    ensures
        i * k + c <= n * k,
        i * k + k <= n * k,
        (i + 1) * k == i * k + k,
{
    assert((i + 1) * k == i * k + k) by (nonlinear_arith);
    assert(i * k + k <= n * k) by (nonlinear_arith)
        requires
            i < n,
    ;
}

proof fn lemma_lex_lt_asym(a: Seq<usize>, b: Seq<usize>)
    requires
        lex_lt(a, b),
    ensures
        !lex_lt(b, a),
        a != b,
{
    let d = choose|d: int|
        0 <= d < a.len() && d < b.len() && #[trigger] a[d] < b[d] && forall|e: int| 0 <= e < d ==> #[trigger] a[e] == b[e];
    if lex_lt(b, a) {
        let d2 = choose|d2: int|
            0 <= d2 < b.len() && d2 < a.len() && #[trigger] b[d2] < a[d2] && forall|e: int| 0 <= e < d2 ==> #[trigger] b[e] == a[e];
        if d < d2 {
            assert(b[d] == a[d]);
        } else if d2 < d {
            assert(a[d2] == b[d2]);
        }
    }
}

proof fn lemma_lex_lt_trans(a: Seq<usize>, b: Seq<usize>, c: Seq<usize>)
    requires
        lex_lt(a, b),
        lex_lt(b, c),
        a.len() == b.len(),
        b.len() == c.len(),
    ensures
        lex_lt(a, c),
{
    let d1 = choose|d: int|
        0 <= d < a.len() && d < b.len() && #[trigger] a[d] < b[d] && forall|e: int| 0 <= e < d ==> #[trigger] a[e] == b[e];
    let d2 = choose|d: int|
        0 <= d < b.len() && d < c.len() && #[trigger] b[d] < c[d] && forall|e: int| 0 <= e < d ==> #[trigger] b[e] == c[e];
    let d = if d1 < d2 {
        d1
    } else {
        d2
    };
    assert(a[d] < c[d]);
    assert forall|e: int| 0 <= e < d implies #[trigger] a[e] == c[e] by {
        assert(a[e] == b[e]);
        assert(b[e] == c[e]);
    }
}

/// Two different sequences of one length are ordered one way or the other.
proof fn lemma_lex_total(a: Seq<usize>, b: Seq<usize>)
    requires
        a.len() == b.len(),
        a != b,
    ensures
        lex_lt(a, b) || lex_lt(b, a),
{
    lemma_lex_total_from(a, b, 0);
}

proof fn lemma_lex_total_from(a: Seq<usize>, b: Seq<usize>, d: int)
    requires
        a.len() == b.len(),
        a != b,
        0 <= d <= a.len(),
        forall|e: int| 0 <= e < d ==> a[e] == b[e],
    ensures
        lex_lt(a, b) || lex_lt(b, a),
    decreases a.len() - d,
{
    if d == a.len() {
        assert(a =~= b);
    } else if a[d] == b[d] {
        lemma_lex_total_from(a, b, d + 1);
    } else if a[d] < b[d] {
        assert(forall|e: int| 0 <= e < d ==> #[trigger] a[e] == b[e]);
        assert(lex_lt(a, b));
    } else {
        assert(forall|e: int| 0 <= e < d ==> #[trigger] b[e] == a[e]);
        assert(lex_lt(b, a));
    }
}

proof fn lemma_at_least_as_good_trans(
    pred: Seq<u8>,
    truth: Seq<u8>,
    n: nat,
    k: nat,
    a: Seq<usize>,
    b: Seq<usize>,
    c: Seq<usize>,
)
    requires
        a.len() == k,
        b.len() == k,
        c.len() == k,
        at_least_as_good(pred, truth, n, k, a, b),
        at_least_as_good(pred, truth, n, k, b, c),
    ensures
        at_least_as_good(pred, truth, n, k, a, c),
{
    if a != b && b != c && overlap(pred, truth, k, a, n) == overlap(pred, truth, k, b, n) && overlap(
        pred,
        truth,
        k,
        b,
        n,
    ) == overlap(pred, truth, k, c, n) {
        lemma_lex_lt_trans(a, b, c);
    }
}

/// Lexicographic comparison of two label sequences of one length.
fn lex_less(a: &Vec<usize>, b: &Vec<usize>) -> (r: bool)
    requires
        a.len() == b.len(),
    ensures
        r == lex_lt(a@, b@),
{
    let mut i: usize = 0;
    while i < a.len()
        invariant
            a.len() == b.len(),
            i <= a.len(),
            forall|e: int| 0 <= e < i ==> #[trigger] a@[e] == b@[e],
        decreases a.len() - i,
    {
        if a[i] < b[i] {
            proof {
                assert(forall|e: int| 0 <= e < i ==> #[trigger] a@[e] == b@[e]);
                assert(a@[i as int] < b@[i as int]);
            }
            return true;
        }
        if a[i] > b[i] {
            proof {
                if lex_lt(a@, b@) {
                    let d = choose|d: int|
                        0 <= d < a@.len() && d < b@.len() && #[trigger] a@[d] < b@[d] && forall|e: int|
                            0 <= e < d ==> #[trigger] a@[e] == b@[e];
                    if d > i {
                        assert(a@[i as int] == b@[i as int]);
                    }
                }
            }
            return false;
        }
        i = i + 1;
    }
    proof {
        if lex_lt(a@, b@) {
            let d = choose|d: int|
                0 <= d < a@.len() && d < b@.len() && #[trigger] a@[d] < b@[d] && forall|e: int| 0 <= e < d ==> #[trigger] a@[e] == b@[e];
            assert(a@[d] == b@[d]);
        }
    }
    false
}

/// Overlap of the prediction with the truth under the matching `p`.
fn overlap_score(pred: &[u8], truth: &[u8], n: usize, k: usize, p: &Vec<usize>) -> (r: usize)
    requires
        alignment_inputs(pred@, truth@, n as nat, k as nat),
        is_perm(p@, k as nat),
    ensures
        r == overlap(pred@, truth@, k as nat, p@, n as nat),
{
    let mut sc: usize = 0;
    for i in 0..n
        invariant
            alignment_inputs(pred@, truth@, n as nat, k as nat),
            is_perm(p@, k as nat),
            sc == overlap(pred@, truth@, k as nat, p@, i as nat),
            sc <= i * k,
    {
        proof {
            lemma_cell_index(i as nat, 0, n as nat, k as nat);
        }
        let ghost row_start = sc;
        let base = i * k;
        for c in 0..k
            invariant
                alignment_inputs(pred@, truth@, n as nat, k as nat),
                is_perm(p@, k as nat),
                i < n,
                base == i * k,
                i * k + k <= n * k,
                sc == row_start + overlap_row(pred@, truth@, k as nat, p@, i as nat, c as nat),
                row_start == overlap(pred@, truth@, k as nat, p@, i as nat),
                sc <= i * k + c,
        {
            let pc = p[c];
            proof {
                assert(p@[c as int] < k);
            }
            if pred[base + pc] == 1 && truth[base + c] == 1 {
                sc = sc + 1;
            }
        }
    }
    sc
}

/// Tries every completion of `prefix` to a permutation and keeps in `best`
/// the better of itself and each completion.
fn search_permutations(
    pred: &[u8],
    truth: &[u8],
    n: usize,
    k: usize,
    prefix: &mut Vec<usize>,
    used: &mut Vec<bool>,
    best: &mut Vec<usize>,
    best_score: &mut usize,
)
    requires
        alignment_inputs(pred@, truth@, n as nat, k as nat),
        old(prefix).len() <= k,
        forall|c: int| 0 <= c < old(prefix).len() ==> #[trigger] old(prefix)@[c] < k,
        forall|c1: int, c2: int|
            0 <= c1 < c2 < old(prefix).len() ==> #[trigger] old(prefix)@[c1] != #[trigger] old(prefix)@[c2],
        old(used).len() == k,
        forall|v: int| 0 <= v < k ==> (#[trigger] old(used)@[v] <==> old(prefix)@.contains(v as usize)),
        is_perm(old(best)@, k as nat),
        *old(best_score) == overlap(pred@, truth@, k as nat, old(best)@, n as nat),
    ensures
        final(prefix)@ == old(prefix)@,
        final(used)@ == old(used)@,
        is_perm(final(best)@, k as nat),
        *final(best_score) == overlap(pred@, truth@, k as nat, final(best)@, n as nat),
        at_least_as_good(pred@, truth@, n as nat, k as nat, final(best)@, old(best)@),
        forall|q: Seq<usize>|
            is_perm(q, k as nat) && q.subrange(0, old(prefix)@.len() as int) == old(prefix)@
                ==> #[trigger] at_least_as_good(pred@, truth@, n as nat, k as nat, final(best)@, q),
    decreases k - old(prefix).len(),
{
    let ghost best0 = best@;
    let ghost pre = prefix@;
    if prefix.len() == k {
        let sc = overlap_score(pred, truth, n, k, prefix);
        let better = sc > *best_score || (sc == *best_score && lex_less(prefix, best));
        if better {
            *best = prefix.clone();
            *best_score = sc;
            proof {
                assert(best@ =~= prefix@);
            }
        } else {
            proof {
                if prefix@ != best@ {
                    lemma_lex_total(prefix@, best@);
                }
            }
        }
        proof {
            assert forall|q: Seq<usize>|
                is_perm(q, k as nat) && q.subrange(0, pre.len() as int) == pre implies #[trigger] at_least_as_good(
                pred@,
                truth@,
                n as nat,
                k as nat,
                best@,
                q,
            ) by {
                assert(q =~= pre);
                if better {
                    assert(best@ == q);
                }
            }
            if better && prefix@ != best0 && sc == overlap(pred@, truth@, k as nat, best0, n as nat) {
                assert(lex_lt(best@, best0));
            }
        }
        return;
    }
    let d = prefix.len();
    for v in 0..k
        invariant
            alignment_inputs(pred@, truth@, n as nat, k as nat),
            d == pre.len(),
            pre == old(prefix)@,
            d < k,
            prefix@ == pre,
            used@ == old(used)@,
            used.len() == k,
            forall|c: int| 0 <= c < pre.len() ==> #[trigger] pre[c] < k,
            forall|c1: int, c2: int| 0 <= c1 < c2 < pre.len() ==> #[trigger] pre[c1] != #[trigger] pre[c2],
            forall|w: int| 0 <= w < k ==> (#[trigger] used@[w] <==> pre.contains(w as usize)),
            is_perm(best@, k as nat),
            is_perm(best0, k as nat),
            *best_score == overlap(pred@, truth@, k as nat, best@, n as nat),
            at_least_as_good(pred@, truth@, n as nat, k as nat, best@, best0),
            forall|q: Seq<usize>|
                is_perm(q, k as nat) && q.subrange(0, d as int) == pre && q[d as int] < v
                    ==> #[trigger] at_least_as_good(pred@, truth@, n as nat, k as nat, best@, q),
    {
        let ghost best_before = best@;
        if !used[v] {
            prefix.push(v);
            used.set(v, true);
            let ghost ext = prefix@;
            proof {
                assert(ext == pre.push(v));
                assert forall|c1: int, c2: int| 0 <= c1 < c2 < ext.len() implies #[trigger] ext[c1] != #[trigger] ext[c2] by {
                    if c2 == d {
                        assert(pre.contains(ext[c1]));
                    }
                }
                assert forall|w: int| 0 <= w < k implies (#[trigger] used@[w] <==> ext.contains(w as usize)) by {
                    if ext.contains(w as usize) && w != v {
                        let j = choose|j: int| 0 <= j < ext.len() && ext[j] == w as usize;
                        assert(pre[j] == w);
                    }
                    if pre.contains(w as usize) {
                        let j = choose|j: int| 0 <= j < pre.len() && pre[j] == w as usize;
                        assert(ext[j] == w);
                    }
                    if w == v {
                        assert(ext[d as int] == v);
                    }
                }
            }
            assert(prefix.len() == d + 1);
            search_permutations(pred, truth, n, k, prefix, used, best, best_score);
            prefix.pop();
            used.set(v, false);
            proof {
                assert(prefix@ =~= pre);
                assert(used@ =~= old(used)@);
                lemma_at_least_as_good_trans(pred@, truth@, n as nat, k as nat, best@, best_before, best0);
                assert forall|q: Seq<usize>|
                    is_perm(q, k as nat) && q.subrange(0, d as int) == pre && q[d as int] < v + 1 implies #[trigger] at_least_as_good(
                    pred@,
                    truth@,
                    n as nat,
                    k as nat,
                    best@,
                    q,
                ) by {
                    if q[d as int] == v {
                        assert(q.subrange(0, ext.len() as int) =~= ext);
                    } else {
                        lemma_at_least_as_good_trans(pred@, truth@, n as nat, k as nat, best@, best_before, q);
                    }
                }
            }
        } else {
            proof {
                assert forall|q: Seq<usize>|
                    is_perm(q, k as nat) && q.subrange(0, d as int) == pre && q[d as int] < v + 1 implies #[trigger] at_least_as_good(
                    pred@,
                    truth@,
                    n as nat,
                    k as nat,
                    best@,
                    q,
                ) by {
                    if q[d as int] == v {
                        assert(pre.contains(v));
                        let j = choose|j: int| 0 <= j < pre.len() && pre[j] == v;
                        assert(q[j] == pre[j]);
                        assert(false);
                    }
                }
            }
        }
    }
}


/// Position of (row `i`, column `c`) in a row-major table with `k` columns.
pub open spec fn row_major(i: int, c: int, k: int) -> int {
    i * k + c
}

/// `out` is `pred` with the columns of each of the `n` rows relabelled:
/// column `c` of `out` is column `p[c]` of `pred`.
pub open spec fn is_relabelling(out: Seq<u8>, pred: Seq<u8>, n: nat, k: nat, p: Seq<usize>) -> bool {
    &&& out.len() == n * k
    &&& forall|i: int, c: int|
        0 <= i < n && 0 <= c < k ==> #[trigger] out[row_major(i, c, k as int)] == pred[row_major(
            i,
            p[c] as int,
            k as int,
        )]
}

/// The identity matching of `k` labels.
pub open spec fn identity_perm(k: nat) -> Seq<usize> {
    Seq::new(k, |c: int| c as usize)
}

/// The lexicographically first permutation of `0..k` that matches the most
/// predicted memberships to true ones (predicted community `p[c]` is
/// matched to true community `c`).
pub fn best_label_permutation(pred: &[u8], truth: &[u8], n: usize, k: usize) -> (best: Vec<usize>)
    requires
        alignment_inputs(pred@, truth@, n as nat, k as nat),
    ensures
        is_best_permutation(pred@, truth@, n as nat, k as nat, best@),
{
    let mut best: Vec<usize> = Vec::new();
    let mut used: Vec<bool> = Vec::new();
    for c in 0..k
        invariant
            best@ == identity_perm(c as nat),
            used.len() == c,
            forall|w: int| 0 <= w < c ==> !(#[trigger] used@[w]),
    {
        best.push(c);
        used.push(false);
        proof {
            assert(best@ =~= identity_perm((c + 1) as nat));
        }
    }
    let mut best_score = overlap_score(pred, truth, n, k, &best);
    let mut prefix: Vec<usize> = Vec::new();
    proof {
        assert forall|w: int| 0 <= w < k implies (#[trigger] used@[w] <==> prefix@.contains(w as usize)) by {
        }
    }
    search_permutations(pred, truth, n, k, &mut prefix, &mut used, &mut best, &mut best_score);
    proof {
        assert forall|q: Seq<usize>| is_perm(q, k as nat) implies #[trigger] at_least_as_good(
            pred@,
            truth@,
            n as nat,
            k as nat,
            best@,
            q,
        ) by {
            assert(q.subrange(0, 0) =~= prefix@);
        }
    }
    best
}

/// Law: the matching the alignment picks is unique.
pub proof fn lemma_best_permutation_unique(pred: Seq<u8>, truth: Seq<u8>, n: nat, k: nat, p: Seq<usize>, q: Seq<usize>)
    requires
        is_best_permutation(pred, truth, n, k, p),
        is_best_permutation(pred, truth, n, k, q),
    ensures
        p == q,
{
    assert(at_least_as_good(pred, truth, n, k, p, q));
    assert(at_least_as_good(pred, truth, n, k, q, p));
    if p != q {
        lemma_lex_lt_asym(p, q);
    }
}

proof fn lemma_relabelled_row(
    out: Seq<u8>,
    pred: Seq<u8>,
    truth: Seq<u8>,
    n: nat,
    k: nat,
    p: Seq<usize>,
    i: nat,
    cols: nat,
)
    requires
        is_relabelling(out, pred, n, k, p),
        k <= usize::MAX,
        i < n,
        cols <= k,
    ensures
        overlap_row(out, truth, k, identity_perm(k), i, cols) == overlap_row(pred, truth, k, p, i, cols),
    decreases cols,
{
    if cols > 0 {
        lemma_relabelled_row(out, pred, truth, n, k, p, i, (cols - 1) as nat);
        let c = (cols - 1) as int;
        assert(out[row_major(i as int, c, k as int)] == pred[row_major(i as int, p[c] as int, k as int)]);
        assert(identity_perm(k)[c] == c);
    }
}

/// Law: relabelling by a matching moves its overlap to the identity
/// matching: the relabelled prediction overlaps the truth column by column
/// exactly as much as the prediction does under the matching.
pub proof fn lemma_relabelling_overlap(
    out: Seq<u8>,
    pred: Seq<u8>,
    truth: Seq<u8>,
    n: nat,
    k: nat,
    p: Seq<usize>,
    rows: nat,
)
    requires
        is_relabelling(out, pred, n, k, p),
        k <= usize::MAX,
        rows <= n,
    ensures
        overlap(out, truth, k, identity_perm(k), rows) == overlap(pred, truth, k, p, rows),
    decreases rows,
{
    if rows > 0 {
        lemma_relabelling_overlap(out, pred, truth, n, k, p, (rows - 1) as nat);
        lemma_relabelled_row(out, pred, truth, n, k, p, (rows - 1) as nat, k);
    }
}

/// Best label permutation of predicted communities against the truth:
/// the prediction (row-major, `n` nodes by `k` communities) with its
/// communities renamed by the lexicographically first matching of
/// greatest overlap.
pub fn align(pred: &[u8], truth: &[u8], n: usize, k: usize) -> (out: Vec<u8>)
    requires
        alignment_inputs(pred@, truth@, n as nat, k as nat),
    ensures
        exists|p: Seq<usize>|
            #[trigger] is_best_permutation(pred@, truth@, n as nat, k as nat, p) && is_relabelling(
                out@,
                pred@,
                n as nat,
                k as nat,
                p,
            ),
        forall|q: Seq<usize>|
            is_perm(q, k as nat) ==> #[trigger] overlap(pred@, truth@, k as nat, q, n as nat) <= overlap(
                out@,
                truth@,
                k as nat,
                identity_perm(k as nat),
                n as nat,
            ),
{
    let best = best_label_permutation(pred, truth, n, k);
    let mut out: Vec<u8> = Vec::new();
    proof {
        assert(0 * k == 0);
    }
    for i in 0..n
        invariant
            alignment_inputs(pred@, truth@, n as nat, k as nat),
            is_perm(best@, k as nat),
            out.len() == i * k,
            forall|a: int, c: int|
                0 <= a < i && 0 <= c < k ==> #[trigger] out@[row_major(a, c, k as int)] == pred@[row_major(
                    a,
                    best@[c] as int,
                    k as int,
                )],
    {
        proof {
            lemma_cell_index(i as nat, 0, n as nat, k as nat);
        }
        let base = i * k;
        for c in 0..k
            invariant
                alignment_inputs(pred@, truth@, n as nat, k as nat),
                is_perm(best@, k as nat),
                i < n,
                base == i * k,
                i * k + k <= n * k,
                out.len() == i * k + c,
                forall|a: int, c2: int|
                    0 <= a < i && 0 <= c2 < k ==> #[trigger] out@[row_major(a, c2, k as int)] == pred@[row_major(
                        a,
                        best@[c2] as int,
                        k as int,
                    )],
                forall|c2: int| 0 <= c2 < c ==> #[trigger] out@[row_major(i as int, c2, k as int)] == pred@[row_major(
                    i as int,
                    best@[c2] as int,
                    k as int,
                )],
        {
            let bc = best[c];
            proof {
                assert(best@[c as int] < k);
            }
            let ghost before = out@;
            out.push(pred[base + bc]);
            proof {
                assert forall|a: int, c2: int|
                    0 <= a < i && 0 <= c2 < k implies #[trigger] out@[row_major(a, c2, k as int)] == pred@[row_major(
                    a,
                    best@[c2] as int,
                    k as int,
                )] by {
                    lemma_cell_index(a as nat, c2 as nat, i as nat, k as nat);
                    assert(out@[row_major(a, c2, k as int)] == before[row_major(a, c2, k as int)]);
                }
            }
        }
        proof {
            lemma_cell_index(i as nat, k as nat, n as nat, k as nat);
        }
    }
    proof {
        assert(is_relabelling(out@, pred@, n as nat, k as nat, best@));
        lemma_relabelling_overlap(out@, pred@, truth@, n as nat, k as nat, best@, n as nat);
        assert forall|q: Seq<usize>| is_perm(q, k as nat) implies #[trigger] overlap(
            pred@,
            truth@,
            k as nat,
            q,
            n as nat,
        ) <= overlap(out@, truth@, k as nat, identity_perm(k as nat), n as nat) by {
            assert(at_least_as_good(pred@, truth@, n as nat, k as nat, best@, q));
        }
    }
    out
}

} // verus!
