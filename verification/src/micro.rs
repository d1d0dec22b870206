//! Fixed graphs of the exact-enumeration closure microbenchmark and the bag
//! structure of its width-two junction tree.
use crate::bethe::endpoints_below;
use vstd::prelude::*;

verus! {

/// Number of nodes of the benchmark graphs.
pub const N: usize = 10;

/// Edge `k` of the path: (k, k+1).
pub open spec fn path_edge(k: nat) -> (usize, usize) {
    (k as usize, (k + 1) as usize)
}

/// Edge `k` of the 2-tree: the triangle (0,1), (0,2), (1,2), then for each
/// node v = 3, 4, ... the edges (v-1, v) and (v-2, v).
pub open spec fn two_tree_edge(k: nat) -> (usize, usize) {
    if k == 0 {
        (0, 1)
    } else if k == 1 {
        (0, 2)
    } else if k == 2 {
        (1, 2)
    } else {
        let v = 3 + (k - 3) / 2;
        if (k - 3) % 2 == 0 {
            ((v - 1) as usize, v as usize)
        } else {
            ((v - 2) as usize, v as usize)
        }
    }
}

/// The path 0 - 1 - ... - (N-1).
pub fn path_edges() -> (v: Vec<(usize, usize)>)
    ensures
        v.len() == N - 1,
        forall|k: int| 0 <= k < v.len() ==> #[trigger] v[k] == path_edge(k as nat),
{
    let mut v: Vec<(usize, usize)> = Vec::new();
    for i in 0..N - 1
        invariant
            v.len() == i,
            forall|k: int| 0 <= k < v.len() ==> #[trigger] v[k] == path_edge(k as nat),
    {
        v.push((i, i + 1));
    }
    v
}

/// The 2-tree on N nodes: a triangle grown by attaching each new node to
/// its two predecessors.
pub fn two_tree_edges() -> (v: Vec<(usize, usize)>)
    ensures
        v.len() == 3 + 2 * (N - 3),
        forall|k: int| 0 <= k < v.len() ==> #[trigger] v[k] == two_tree_edge(k as nat),
{
    let mut e: Vec<(usize, usize)> = Vec::new();
    e.push((0, 1));
    e.push((0, 2));
    e.push((1, 2));
    for v in 3..N
        invariant
            e.len() == 3 + 2 * (v - 3),
            forall|k: int| 0 <= k < e.len() ==> #[trigger] e[k] == two_tree_edge(k as nat),
    {
        let ghost len = e.len();
        e.push((v - 1, v));
        e.push((v - 2, v));
        proof {
            assert((len - 3) / 2 == v - 3 && (len - 3) % 2 == 0);
            assert((len + 1 - 3) / 2 == v - 3 && (len + 1 - 3) % 2 == 1);
        }
    }
    e
}

/// Number of bags {t, t+1, t+2} of the junction tree.
pub open spec fn bag_count() -> nat {
    (N - 2) as nat
}

/// Node `v` lies in bag `t = {t, t+1, t+2}`.
pub open spec fn in_bag(t: nat, v: nat) -> bool {
    t <= v < t + 3
}

/// Some bag holds both `i` and `j`.
pub open spec fn covered(i: nat, j: nat) -> bool {
    exists|t: nat| t < bag_count() && #[trigger] in_bag(t, i) && in_bag(t, j)
}

/// The first bag that holds both endpoints of edge (i, j), if any.
pub fn covering_bag(i: usize, j: usize) -> (r: Option<usize>)
    ensures
        match r {
            Some(t) => t < bag_count() && in_bag(t as nat, i as nat) && in_bag(t as nat, j as nat)
                && forall|u: nat| u < t ==> !(#[trigger] in_bag(u, i as nat) && in_bag(u, j as nat)),
            None => !covered(i as nat, j as nat),
        },
{
    let nb = N - 2;
    for t in 0..nb
        invariant
            nb == bag_count(),
            forall|u: nat| u < t ==> !(#[trigger] in_bag(u, i as nat) && in_bag(u, j as nat)),
    {
        if t <= i && i < t + 3 && t <= j && j < t + 3 {
            return Some(t);
        }
    }
    None
}

/// Law: both benchmark graphs are simple graphs on nodes `0..N` whose every
/// edge lies in some bag, so the region closure covers all of them.
pub proof fn lemma_benchmark_edges_covered()
    ensures
        forall|k: nat|
            k < N - 1 ==> #[trigger] path_edge(k).0 < path_edge(k).1 && covered(
                path_edge(k).0 as nat,
                path_edge(k).1 as nat,
            ),
        forall|k: nat|
            k < 3 + 2 * (N - 3) ==> #[trigger] two_tree_edge(k).0 < two_tree_edge(k).1 && covered(
                two_tree_edge(k).0 as nat,
                two_tree_edge(k).1 as nat,
            ),
        endpoints_below(Seq::new((N - 1) as nat, |k: int| path_edge(k as nat)), N as nat),
        endpoints_below(Seq::new((3 + 2 * (N - 3)) as nat, |k: int| two_tree_edge(k as nat)), N as nat),
{
    assert forall|k: nat| k < N - 1 implies #[trigger] path_edge(k).0 < path_edge(k).1 && covered(
        path_edge(k).0 as nat,
        path_edge(k).1 as nat,
    ) by {
        let t: nat = if k < N - 2 { k } else { (N - 3) as nat };
        assert(in_bag(t, k) && in_bag(t, k + 1));
    }
    assert forall|k: nat| k < 3 + 2 * (N - 3) implies #[trigger] two_tree_edge(k).0 < two_tree_edge(k).1
        && covered(two_tree_edge(k).0 as nat, two_tree_edge(k).1 as nat) by {
        let (a, b) = two_tree_edge(k);
        let t: nat = if k < 3 { 0 } else { (b - 2) as nat };
        assert(in_bag(t, a as nat) && in_bag(t, b as nat));
    }
}

} // verus!
