//! Reachability and shortest-path distance layers over an adjacency list,
//! stated as sets of node indices.
use vstd::prelude::*;
use vstd::set_lib::*;

verus! {

/// `adj[u]` lists the out-neighbours of node `u`.
pub open spec fn has_edge(adj: Seq<Seq<u32>>, u: int, w: int) -> bool {
    &&& 0 <= u < adj.len()
    &&& exists|j: int| 0 <= j < adj[u].len() && adj[u][j] == w
}

/// Every listed neighbour is a node of the graph.
pub open spec fn adj_closed(adj: Seq<Seq<u32>>) -> bool {
    forall|u: int, j: int| 0 <= u < adj.len() && 0 <= j < adj[u].len() ==> #[trigger] adj[u][j] < adj.len()
}

/// The nodes one edge away from some node of `s`.
pub open spec fn step(adj: Seq<Seq<u32>>, s: Set<int>) -> Set<int> {
    Set::new(|w: int| exists|u: int| s.contains(u) && #[trigger] has_edge(adj, u, w))
}

/// The nodes at distance at most `k` from `src`.
pub open spec fn within(adj: Seq<Seq<u32>>, src: int, k: nat) -> Set<int>
    decreases k,
{
    if k == 0 {
        set![src]
    } else {
        let prev = within(adj, src, (k - 1) as nat);
        prev.union(step(adj, prev))
    }
}

/// The nodes at shortest-path distance exactly `d` from `src`.
pub open spec fn layer(adj: Seq<Seq<u32>>, src: int, d: nat) -> Set<int> {
    if d == 0 {
        set![src]
    } else {
        within(adj, src, d).difference(within(adj, src, (d - 1) as nat))
    }
}

/// `w` can be reached from `src` along edges (every node reaches itself).
pub open spec fn reachable(adj: Seq<Seq<u32>>, src: int, w: int) -> bool {
    exists|k: nat| #[trigger] within(adj, src, k).contains(w)
}

/// The nodes reachable from `src`, `src` itself excluded.
pub open spec fn reached_others(adj: Seq<Seq<u32>>, src: int) -> Set<int> {
    Set::new(|w: int| w != src && reachable(adj, src, w))
}

/// Shorter walks stay within longer bounds.
pub proof fn lemma_within_mono(adj: Seq<Seq<u32>>, src: int, j: nat, k: nat)
    requires
        j <= k,
    ensures
        within(adj, src, j).subset_of(within(adj, src, k)),
    decreases k - j,
{
    if j < k {
        lemma_within_mono(adj, src, j, (k - 1) as nat);
    }
}

/// From a node of the graph, everything within `k` steps is a node of the graph.
pub proof fn lemma_within_bounded(adj: Seq<Seq<u32>>, src: int, k: nat)
    requires
        adj_closed(adj),
        0 <= src < adj.len(),
    ensures
        within(adj, src, k).subset_of(set_int_range(0, adj.len() as int)),
        within(adj, src, k).finite(),
        within(adj, src, k).len() <= adj.len(),
    decreases k,
{
    if k > 0 {
        lemma_within_bounded(adj, src, (k - 1) as nat);
        let prev = within(adj, src, (k - 1) as nat);
        assert forall|w: int| #[trigger] step(adj, prev).contains(w) implies 0 <= w < adj.len() by {
            let u = choose|u: int| prev.contains(u) && #[trigger] has_edge(adj, u, w);
            let j = choose|j: int| 0 <= j < adj[u].len() && adj[u][j] == w;
            assert(adj[u][j] < adj.len());
        }
    }
    lemma_int_range(0, adj.len() as int);
    lemma_len_subset(within(adj, src, k), set_int_range(0, adj.len() as int));
}

/// One more step from distance `d` only needs the nodes at distance exactly `d`.
pub proof fn lemma_within_next(adj: Seq<Seq<u32>>, src: int, d: nat)
    ensures
        within(adj, src, d + 1) == within(adj, src, d).union(step(adj, layer(adj, src, d))),
{
    let cur = within(adj, src, d);
    let lay = layer(adj, src, d);
    assert forall|w: int| step(adj, cur).contains(w) implies #[trigger] cur.union(step(adj, lay)).contains(w) by {
        let u = choose|u: int| cur.contains(u) && #[trigger] has_edge(adj, u, w);
        if d > 0 && within(adj, src, (d - 1) as nat).contains(u) {
            assert(step(adj, within(adj, src, (d - 1) as nat)).contains(w));
        } else {
            assert(lay.contains(u));
            assert(step(adj, lay).contains(w));
        }
    }
    assert forall|w: int| step(adj, lay).contains(w) implies #[trigger] step(adj, cur).contains(w) by {
        let u = choose|u: int| lay.contains(u) && #[trigger] has_edge(adj, u, w);
        assert(cur.contains(u));
    }
    assert(within(adj, src, d + 1) =~= cur.union(step(adj, lay)));
}

/// Once the bound stops growing it never grows again.
pub proof fn lemma_within_stable(adj: Seq<Seq<u32>>, src: int, d: nat, k: nat)
    requires
        within(adj, src, d + 1) == within(adj, src, d),
        d <= k,
    ensures
        within(adj, src, k) == within(adj, src, d),
    decreases k - d,
{
    if k > d {
        lemma_within_stable(adj, src, d, (k - 1) as nat);
    }
}

/// Once the bound stops growing it holds every reachable node.
pub proof fn lemma_reach_is_within(adj: Seq<Seq<u32>>, src: int, d: nat)
    requires
        within(adj, src, d + 1) == within(adj, src, d),
    ensures
        reached_others(adj, src) == within(adj, src, d).remove(src),
{
    assert forall|w: int| #[trigger] reached_others(adj, src).contains(w) implies within(adj, src, d).contains(w) by {
        let k = choose|k: nat| #[trigger] within(adj, src, k).contains(w);
        if k <= d {
            lemma_within_mono(adj, src, k, d);
        } else {
            lemma_within_stable(adj, src, d, k);
        }
    }
    assert forall|w: int| #[trigger] within(adj, src, d).contains(w) implies reachable(adj, src, w) by {
        assert(within(adj, src, d).contains(w));
    }
    assert(reached_others(adj, src) =~= within(adj, src, d).remove(src));
}

/// Every edge also runs the other way.
pub open spec fn symmetric(adj: Seq<Seq<u32>>) -> bool {
    forall|a: int, b: int| #[trigger] has_edge(adj, a, b) ==> has_edge(adj, b, a)
}

/// A walk from `u` extended at its start by the edge `w -> u` is one step longer.
pub proof fn lemma_within_prepend(adj: Seq<Seq<u32>>, w: int, u: int, x: int, m: nat)
    requires
        has_edge(adj, w, u),
        within(adj, u, m).contains(x),
    ensures
        within(adj, w, m + 1).contains(x),
    decreases m,
{
    if m == 0 {
        assert(step(adj, within(adj, w, 0)).contains(u));
    } else {
        let prev = within(adj, u, (m - 1) as nat);
        if prev.contains(x) {
            lemma_within_prepend(adj, w, u, x, (m - 1) as nat);
            lemma_within_mono(adj, w, m, m + 1);
        } else {
            let y = choose|y: int| prev.contains(y) && #[trigger] has_edge(adj, y, x);
            lemma_within_prepend(adj, w, u, y, (m - 1) as nat);
            assert(step(adj, within(adj, w, m)).contains(x));
        }
    }
}

/// With edges running both ways, a walk can be retraced.
pub proof fn lemma_within_reverse(adj: Seq<Seq<u32>>, src: int, x: int, k: nat)
    requires
        symmetric(adj),
        within(adj, src, k).contains(x),
    ensures
        within(adj, x, k).contains(src),
    decreases k,
{
    if k > 0 {
        let prev = within(adj, src, (k - 1) as nat);
        if prev.contains(x) {
            lemma_within_reverse(adj, src, x, (k - 1) as nat);
            lemma_within_mono(adj, x, (k - 1) as nat, k);
        } else {
            let u = choose|u: int| prev.contains(u) && #[trigger] has_edge(adj, u, x);
            lemma_within_reverse(adj, src, u, (k - 1) as nat);
            assert(has_edge(adj, x, u));
            lemma_within_prepend(adj, x, u, src, (k - 1) as nat);
        }
    }
}

/// In a graph whose edges all run both ways (an undirected read), `v`
/// reaches `w` exactly when `w` reaches `v`.
pub proof fn lemma_undirected_reach_symmetric(adj: Seq<Seq<u32>>, v: int, w: int)
    requires
        symmetric(adj),
    ensures
        reachable(adj, v, w) <==> reachable(adj, w, v),
        reached_others(adj, v).contains(w) <==> reached_others(adj, w).contains(v),
{
    if reachable(adj, v, w) {
        let k = choose|k: nat| #[trigger] within(adj, v, k).contains(w);
        lemma_within_reverse(adj, v, w, k);
    }
    if reachable(adj, w, v) {
        let k = choose|k: nat| #[trigger] within(adj, w, k).contains(v);
        lemma_within_reverse(adj, w, v, k);
    }
}

} // verus!
