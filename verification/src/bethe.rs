//! Interaction graph of the pairwise binary Bethe closure: adjacency lists
//! built from the edge list, and the directed message index.
use vstd::prelude::*;

verus! {

/// Adjacency entries of node `v` produced by the edges of `edges`, in edge
/// order: edge `e = (i, j)` contributes `(j, e)` when `i == v`, then `(i, e)`
/// when `j == v`.
pub open spec fn incident(edges: Seq<(usize, usize)>, v: usize) -> Seq<(usize, usize)>
    decreases edges.len(),
{
    if edges.len() == 0 {
        Seq::empty()
    } else {
        let e = (edges.len() - 1) as usize;
        let (i, j) = edges.last();
        let before = incident(edges.drop_last(), v);
        let with_first = if i == v {
            before.push((j, e))
        } else {
            before
        };
        if j == v {
            with_first.push((i, e))
        } else {
            with_first
        }
    }
}

/// Every endpoint of every edge is a node below `n`.
pub open spec fn endpoints_below(edges: Seq<(usize, usize)>, n: nat) -> bool {
    forall|e: int| 0 <= e < edges.len() ==> #[trigger] edges[e].0 < n && edges[e].1 < n
}

/// A graph on nodes `0..n` with an edge list and, for each node, its
/// incident (neighbour, edge index) pairs.
pub struct Graph {
    pub n: usize,
    pub edges: Vec<(usize, usize)>,
    /// For each node: list of (neighbour, edge index).
    pub adj: Vec<Vec<(usize, usize)>>,
}

impl Graph {
    /// The adjacency lists agree with the edge list on nodes `0..n`.
    pub open spec fn wf(&self) -> bool {
        &&& endpoints_below(self.edges@, self.n as nat)
        &&& self.adj.len() == self.n
        &&& forall|v: int| 0 <= v < self.n ==> #[trigger] self.adj[v]@ == incident(self.edges@, v as usize)
    }

    /// Builds the adjacency lists of the graph on `n` nodes with `edges`.
    pub fn new(n: usize, edges: Vec<(usize, usize)>) -> (g: Self)
        requires
            endpoints_below(edges@, n as nat),
        ensures
            g.n == n,
            g.edges@ == edges@,
            g.wf(),
    {
        let mut adj: Vec<Vec<(usize, usize)>> = Vec::new();
        for v in 0..n
            invariant
                adj.len() == v,
                forall|u: int| 0 <= u < v ==> #[trigger] adj[u]@ == Seq::<(usize, usize)>::empty(),
        {
            adj.push(Vec::new());
        }
        proof {
            assert forall|v: int| 0 <= v < n implies #[trigger] adj[v]@ == incident(edges@.take(0), v as usize) by {
                assert(edges@.take(0).len() == 0);
            }
        }
        for e in 0..edges.len()
            invariant
                adj.len() == n,
                endpoints_below(edges@, n as nat),
                forall|v: int| 0 <= v < n ==> #[trigger] adj[v]@ == incident(edges@.take(e as int), v as usize),
        {
            let (i, j) = edges[e];
            let ghost before = adj@;
            adj[i].push((j, e));
            adj[j].push((i, e));
            proof {
                assert(edges@.take(e + 1).drop_last() =~= edges@.take(e as int));
                assert(edges@.take(e + 1).last() == (i, j));
                assert forall|v: int| 0 <= v < n implies #[trigger] adj[v]@ == incident(edges@.take(e + 1), v as usize) by {
                    assert(before[v]@ == incident(edges@.take(e as int), v as usize));
                }
            }
        }
        proof {
            assert(edges@.take(edges.len() as int) =~= edges@);
        }
        Graph { n, edges, adj }
    }
}

/// Directed message index of edge `e = (i, j)`: `2e` for i -> j and `2e + 1`
/// for j -> i.
pub open spec fn dir_index(e: nat, from_first: bool) -> nat {
    if from_first {
        2 * e
    } else {
        2 * e + 1
    }
}

/// Directed message index: edge e=(i,j); 2e is i->j, 2e+1 is j->i.
pub fn dir(e: usize, from_first: bool) -> (d: usize)
    requires
        2 * e + 1 <= usize::MAX,
    ensures
        d == dir_index(e as nat, from_first),
{
    if from_first {
        2 * e
    } else {
        2 * e + 1
    }
}


/// Law: `(w, e)` is listed for node `v` exactly when edge `e` joins `v`
/// and `w` (in either orientation).
pub proof fn lemma_incident_membership(edges: Seq<(usize, usize)>, v: usize, w: usize, e: usize)
    requires
        edges.len() <= usize::MAX,
    ensures
        incident(edges, v).contains((w, e)) <==> (e < edges.len() && (edges[e as int] == (v, w)
            || edges[e as int] == (w, v))),
    decreases edges.len(),
{
    if edges.len() > 0 {
        let prev = edges.drop_last();
        let last = (edges.len() - 1) as usize;
        let (i, j) = edges.last();
        lemma_incident_membership(prev, v, w, e);
        let before = incident(prev, v);
        let with_first = if i == v {
            before.push((j, last))
        } else {
            before
        };
        let all = incident(edges, v);
        assert(all == if j == v {
            with_first.push((i, last))
        } else {
            with_first
        });
        if all.contains((w, e)) {
            let k = choose|k: int| 0 <= k < all.len() && all[k] == (w, e);
            if k < before.len() {
                assert(before.contains((w, e)));
            }
        }
        if e < edges.len() && (edges[e as int] == (v, w) || edges[e as int] == (w, v)) {
            if e < last {
                assert(prev[e as int] == edges[e as int]);
                let k = choose|k: int| 0 <= k < before.len() && before[k] == (w, e);
                assert(all[k] == (w, e));
            } else if i == v && j == w {
                assert(with_first[before.len() as int] == (w, e));
                assert(all[before.len() as int] == (w, e));
            } else {
                assert(all[all.len() - 1] == (w, e));
            }
        }
    }
}

/// Law: adjacency is symmetric: `w` is listed as a neighbour of `v` through
/// edge `e` exactly when `v` is listed as a neighbour of `w` through `e`.
pub proof fn lemma_incident_symmetric(edges: Seq<(usize, usize)>, v: usize, w: usize, e: usize)
    requires
        edges.len() <= usize::MAX,
    ensures
        incident(edges, v).contains((w, e)) <==> incident(edges, w).contains((v, e)),
{
    lemma_incident_membership(edges, v, w, e);
    lemma_incident_membership(edges, w, v, e);
}

/// Law: the adjacency list of `v` is in edge order: each entry names an
/// edge of the list, and a later entry names a later edge, except that a
/// self-loop `(v, v)` gives two equal entries `(v, e)` side by side.
pub proof fn lemma_incident_edge_order(edges: Seq<(usize, usize)>, v: usize)
    requires
        edges.len() <= usize::MAX,
    ensures
        forall|a: int|
            0 <= a < incident(edges, v).len() ==> (#[trigger] incident(edges, v)[a]).1 < edges.len(),
        forall|a: int, b: int|
            0 <= a < b < incident(edges, v).len() ==> (#[trigger] incident(edges, v)[a]).1 < (
            #[trigger] incident(edges, v)[b]).1 || (incident(edges, v)[a] == incident(edges, v)[b]
                && edges[incident(edges, v)[a].1 as int] == (v, v)),
    decreases edges.len(),
{
    let inc = incident(edges, v);
    assert forall|a: int| 0 <= a < inc.len() implies (#[trigger] inc[a]).1 < edges.len() by {
        assert(inc.contains(inc[a]));
        lemma_incident_membership(edges, v, inc[a].0, inc[a].1);
    }
    if edges.len() > 0 {
        let prev = edges.drop_last();
        let last = (edges.len() - 1) as usize;
        let (i, j) = edges.last();
        lemma_incident_edge_order(prev, v);
        let before = incident(prev, v);
        assert forall|a: int| 0 <= a < before.len() implies (#[trigger] before[a]).1 < last by {
            assert(before.contains(before[a]));
            lemma_incident_membership(prev, v, before[a].0, before[a].1);
        }
        assert forall|a: int, b: int| 0 <= a < b < inc.len() implies (#[trigger] inc[a]).1 < (
        #[trigger] inc[b]).1 || (inc[a] == inc[b] && edges[inc[a].1 as int] == (v, v)) by {
            if b < before.len() {
                assert(inc[a] == before[a] && inc[b] == before[b]);
                if before[a] == before[b] && before[a].1 < prev.len() {
                    assert(prev[before[a].1 as int] == edges[before[a].1 as int]);
                }
            } else if a < before.len() {
                assert(inc[a] == before[a]);
                assert(inc[b].1 == last);
            } else {
                assert(inc[a].1 == last && inc[b].1 == last);
            }
        }
    }
}

/// Total length of the adjacency lists of nodes `0..n`.
pub open spec fn degree_sum(edges: Seq<(usize, usize)>, n: nat) -> nat
    decreases n,
{
    if n == 0 {
        0
    } else {
        degree_sum(edges, (n - 1) as nat) + incident(edges, (n - 1) as usize).len()
    }
}

proof fn lemma_degree_sum_push(edges: Seq<(usize, usize)>, i: usize, j: usize, n: nat)
    requires
        n <= usize::MAX + 1,
    ensures
        degree_sum(edges.push((i, j)), n) == degree_sum(edges, n) + (if i < n {
            1nat
        } else {
            0nat
        }) + (if j < n {
            1nat
        } else {
            0nat
        }),
    decreases n,
{
    if n > 0 {
        lemma_degree_sum_push(edges, i, j, (n - 1) as nat);
        assert(edges.push((i, j)).drop_last() =~= edges);
    }
}

proof fn lemma_degree_sum_no_edges(edges: Seq<(usize, usize)>, n: nat)
    requires
        edges.len() == 0,
    ensures
        degree_sum(edges, n) == 0,
    decreases n,
{
    if n > 0 {
        lemma_degree_sum_no_edges(edges, (n - 1) as nat);
    }
}

/// Law (handshake): when every endpoint is a node below `n`, the adjacency
/// lists of nodes `0..n` hold two entries per edge.
pub proof fn lemma_degree_sum(edges: Seq<(usize, usize)>, n: usize)
    requires
        endpoints_below(edges, n as nat),
    ensures
        degree_sum(edges, n as nat) == 2 * edges.len(),
    decreases edges.len(),
{
    if edges.len() > 0 {
        let prev = edges.drop_last();
        assert(endpoints_below(prev, n as nat)) by {
            assert forall|e: int| 0 <= e < prev.len() implies #[trigger] prev[e].0 < n && prev[e].1 < n by {
                assert(prev[e] == edges[e]);
            }
        }
        lemma_degree_sum(prev, n);
        let (i, j) = edges.last();
        assert(edges[edges.len() - 1].0 < n && edges[edges.len() - 1].1 < n);
        assert(prev.push((i, j)) =~= edges);
        lemma_degree_sum_push(prev, i, j, n as nat);
    } else {
        lemma_degree_sum_no_edges(edges, n as nat);
    }
}

/// Law: each directed message slot belongs to exactly one edge and one
/// direction, and the slot's half is the edge index.
pub proof fn lemma_dir_index_injective(e1: nat, b1: bool, e2: nat, b2: bool)
    ensures
        dir_index(e1, b1) / 2 == e1,
        dir_index(e1, b1) == dir_index(e2, b2) ==> e1 == e2 && b1 == b2,
{
}

} // verus!
