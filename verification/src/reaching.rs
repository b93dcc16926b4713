//! Breadth-first traversals behind reaching centrality.
//!
//! For a directed graph the local reaching centrality of `v` is the share of
//! the other nodes that `v` reaches, `|reachable(v) \ {v}| / (n - 1)`; for an
//! undirected graph every node at shortest-path distance `d` contributes
//! `1/d`. Both are built from the counts computed here: the number of nodes
//! reached and the number of nodes at each distance.
use vstd::prelude::*;
use vstd::set_lib::*;

use crate::io::Graph;
use crate::paths::{
    adj_closed, has_edge, layer, lemma_reach_is_within, lemma_within_bounded, lemma_within_mono,
    lemma_within_next, lemma_within_stable, reachable, reached_others, step, within,
};

verus! {

/// The nodes whose mark equals `s`.
spec fn marked(v: Seq<u32>, s: u32) -> Set<int> {
    Set::new(|w: int| 0 <= w < v.len() && v[w] == s)
}

/// The nodes one edge away from one of the first `i` entries of `f`.
spec fn frontier_reach(adj: Seq<Seq<u32>>, f: Seq<u32>, i: int) -> Set<int> {
    Set::new(|w: int| exists|a: int| 0 <= a < i && #[trigger] has_edge(adj, f[a] as int, w))
}

/// The first `j` entries of the list `l`.
spec fn list_prefix(l: Seq<u32>, j: int) -> Set<int> {
    Set::new(|w: int| exists|b: int| 0 <= b < j && l[b] as int == w)
}

proof fn lemma_marked_bounded(v: Seq<u32>, s: u32)
    ensures
        marked(v, s).finite(),
        marked(v, s).len() <= v.len(),
{
    lemma_int_range(0, v.len() as int);
    assert(marked(v, s).subset_of(set_int_range(0, v.len() as int)));
    lemma_len_subset(marked(v, s), set_int_range(0, v.len() as int));
}

/// Reusable BFS scratch so per-source traversals allocate once for the whole run.
pub struct Bfs {
    visited: Vec<u32>,
    stamp: u32,
    frontier: Vec<u32>,
    next: Vec<u32>,
}

impl Bfs {
    /// The number of nodes this scratch space was made for.
    pub closed spec fn size(&self) -> nat {
        self.visited@.len()
    }

    /// The number of traversals run with this scratch space so far.
    pub closed spec fn runs(&self) -> nat {
        self.stamp as nat
    }

    /// The nodes carrying the mark of the latest traversal.
    pub closed spec fn last_marked(&self) -> Set<int> {
        marked(self.visited@, self.stamp)
    }

    /// No node carries a mark from a traversal that has not run yet.
    pub closed spec fn wf(&self) -> bool {
        forall|i: int| 0 <= i < self.visited@.len() ==> self.visited@[i] <= self.stamp
    }

    /// Scratch space for traversals of a graph with `n` nodes.
    pub fn new(n: usize) -> (b: Bfs)
        ensures
            b.wf(),
            b.size() == n,
            b.runs() == 0,
    {
        Bfs { visited: vec![0; n], stamp: 0, frontier: Vec::with_capacity(n), next: Vec::with_capacity(n) }
    }

    /// One breadth-first traversal from `src`: the number of other nodes
    /// reached, and the number of nodes at each distance `1, 2, ...` up to
    /// the farthest one reached.
    fn sweep(&mut self, g: &Graph, src: u32) -> (r: (usize, Vec<usize>))
        requires
            old(self).wf(),
            old(self).size() == g.node_count(),
            old(self).runs() < u32::MAX,
            g.wf(),
            src < g.node_count(),
        ensures
            final(self).wf(),
            final(self).size() == old(self).size(),
            final(self).runs() == old(self).runs() + 1,
            final(self).last_marked() == reached_others(g.adj(), src as int).insert(src as int),
            r.0 == reached_others(g.adj(), src as int).len(),
            forall|k: int| 0 <= k < r.1@.len() ==> r.1@[k] == layer(g.adj(), src as int, (k + 1) as nat).len()
                && r.1@[k] > 0,
            layer(g.adj(), src as int, (r.1@.len() + 1) as nat).is_empty(),
    {
        let ghost adj = g.adj();
        let ghost n = g.node_count();
        let ghost srci = src as int;
        self.stamp = self.stamp + 1;
        let s = self.stamp;
        self.visited.set(src as usize, s);
        self.frontier.clear();
        self.frontier.push(src);
        let mut count: usize = 0;
        let mut levels: Vec<usize> = Vec::new();
        let ghost mut d: nat = 0;
        proof {
            assert(marked(self.visited@, s) =~= within(adj, srci, 0));
            assert(layer(adj, srci, 0).contains(srci));
            assert(self.frontier@[0] == src);
        }
        while self.frontier.len() > 0
            invariant
                n == adj.len(),
                adj == g.adj(),
                g.wf(),
                0 <= srci < n,
                srci == src,
                self.visited@.len() == n,
                s == self.stamp,
                s >= 1,
                forall|x: int| 0 <= x < n ==> self.visited@[x] <= s,
                marked(self.visited@, s) == within(adj, srci, d),
                count == within(adj, srci, d).len() - 1,
                forall|k: int| 0 <= k < self.frontier@.len() ==> layer(adj, srci, d).contains(
                    #[trigger] self.frontier@[k] as int),
                forall|w: int| #[trigger] layer(adj, srci, d).contains(w) ==> exists|k: int|
                    0 <= k < self.frontier@.len() && self.frontier@[k] == w,
                self.frontier@.len() > 0 ==> levels@.len() == d,
                self.frontier@.len() == 0 ==> d >= 1 && levels@.len() == d - 1,
                forall|k: int| 0 <= k < levels@.len() ==> levels@[k] == layer(adj, srci, (k + 1) as nat).len()
                    && levels@[k] > 0,
            decreases 2 * (n - count) + (if self.frontier@.len() > 0 { 1int } else { 0int }),
        {
            proof {
                lemma_within_bounded(adj, srci, d);
                lemma_within_bounded(adj, srci, d + 1);
                lemma_within_mono(adj, srci, d, d + 1);
                lemma_marked_bounded(self.visited@, s);
            }
            let ghost cur = within(adj, srci, d);
            let ghost f = self.frontier@;
            self.next.clear();
            let c0 = count;
            let mut i: usize = 0;
            while i < self.frontier.len()
                invariant
                    n == adj.len(),
                    adj == g.adj(),
                    g.wf(),
                    self.frontier@ == f,
                    0 <= i <= f.len(),
                    self.visited@.len() == n,
                    s == self.stamp,
                    s >= 1,
                    forall|x: int| 0 <= x < n ==> self.visited@[x] <= s,
                    forall|k: int| 0 <= k < f.len() ==> (#[trigger] f[k]) < n,
                    cur.finite(),
                    marked(self.visited@, s) == cur.union(frontier_reach(adj, f, i as int)),
                    count == marked(self.visited@, s).len() - 1,
                    c0 == cur.len() - 1,
                    self.next@.len() == count - c0,
                    forall|k: int| 0 <= k < self.next@.len() ==> marked(self.visited@, s).contains(
                        #[trigger] self.next@[k] as int) && !cur.contains(self.next@[k] as int),
                    forall|w: int| #[trigger] marked(self.visited@, s).contains(w) && !cur.contains(w)
                        ==> exists|k: int| 0 <= k < self.next@.len() && self.next@[k] == w,
                decreases f.len() - i,
            {
                let u = self.frontier[i];
                let deg = g.succ[u as usize].len();
                let ghost list = adj[u as int];
                let mut j: usize = 0;
                while j < deg
                    invariant
                        n == adj.len(),
                        adj == g.adj(),
                        g.wf(),
                        self.frontier@ == f,
                        0 <= i < f.len(),
                        u == f[i as int],
                        u < n,
                        list == adj[u as int],
                        deg == list.len(),
                        0 <= j <= deg,
                        self.visited@.len() == n,
                        s == self.stamp,
                        forall|x: int| 0 <= x < n ==> self.visited@[x] <= s,
                        cur.finite(),
                        marked(self.visited@, s) == cur.union(frontier_reach(adj, f, i as int)).union(
                            list_prefix(list, j as int)),
                        count == marked(self.visited@, s).len() - 1,
                        c0 == cur.len() - 1,
                        self.next@.len() == count - c0,
                        forall|k: int| 0 <= k < self.next@.len() ==> marked(self.visited@, s).contains(
                            #[trigger] self.next@[k] as int) && !cur.contains(self.next@[k] as int),
                        forall|w: int| #[trigger] marked(self.visited@, s).contains(w) && !cur.contains(w)
                            ==> exists|k: int| 0 <= k < self.next@.len() && self.next@[k] == w,
                    decreases deg - j,
                {
                    let w = g.succ[u as usize][j];
                    proof {
                        assert(list[j as int] == w);
                        assert(w < n);
                        lemma_marked_bounded(self.visited@, s);
                    }
                    let ghost before = marked(self.visited@, s);
                    let ghost next_before = self.next@;
                    if self.visited[w as usize] != s {
                        self.visited.set(w as usize, s);
                        proof {
                            assert(marked(self.visited@, s) =~= before.insert(w as int));
                            assert(!before.contains(w as int));
                        }
                        count = count + 1;
                        self.next.push(w);
                        proof {
                            assert forall|x: int| #[trigger] marked(self.visited@, s).contains(x) && !cur.contains(x)
                                implies exists|k: int| 0 <= k < self.next@.len() && self.next@[k] == x by {
                                if x == w as int {
                                    assert(self.next@[self.next@.len() - 1] == w);
                                } else {
                                    assert(before.contains(x));
                                    let k = choose|k: int| 0 <= k < next_before.len() && next_before[k] == x;
                                    assert(self.next@[k] == x);
                                }
                            }
                        }
                    }
                    proof {
                        assert(list_prefix(list, j + 1) =~= list_prefix(list, j as int).insert(w as int));
                        assert(marked(self.visited@, s) =~= cur.union(frontier_reach(adj, f, i as int)).union(
                            list_prefix(list, j + 1)));
                    }
                    j = j + 1;
                }
                proof {
                    assert forall|w: int| #[trigger] frontier_reach(adj, f, i + 1).contains(w) <==>
                        frontier_reach(adj, f, i as int).union(list_prefix(list, deg as int)).contains(w) by {
                        if frontier_reach(adj, f, i + 1).contains(w) {
                            let a = choose|a: int| 0 <= a < i + 1 && #[trigger] has_edge(adj, f[a] as int, w);
                            if a < i {
                                assert(frontier_reach(adj, f, i as int).contains(w));
                            } else {
                                let b = choose|b: int| 0 <= b < adj[f[a] as int].len() && adj[f[a] as int][b] == w;
                                assert(list_prefix(list, deg as int).contains(w));
                            }
                        }
                        if list_prefix(list, deg as int).contains(w) {
                            let b = choose|b: int| 0 <= b < deg && list[b] as int == w;
                            assert(has_edge(adj, f[i as int] as int, w));
                        }
                        if frontier_reach(adj, f, i as int).contains(w) {
                            let a = choose|a: int| 0 <= a < i && #[trigger] has_edge(adj, f[a] as int, w);
                            assert(has_edge(adj, f[a] as int, w));
                        }
                    }
                    assert(marked(self.visited@, s) =~= cur.union(frontier_reach(adj, f, i + 1)));
                }
                i = i + 1;
            }
            proof {
                let lay = layer(adj, srci, d);
                assert forall|w: int| #[trigger] frontier_reach(adj, f, f.len() as int).contains(w) <==> step(
                    adj, lay).contains(w) by {
                    if frontier_reach(adj, f, f.len() as int).contains(w) {
                        let a = choose|a: int| 0 <= a < f.len() && #[trigger] has_edge(adj, f[a] as int, w);
                        assert(lay.contains(f[a] as int));
                    }
                    if step(adj, lay).contains(w) {
                        let u = choose|u: int| lay.contains(u) && #[trigger] has_edge(adj, u, w);
                        let k = choose|k: int| 0 <= k < f.len() && f[k] == u;
                        assert(has_edge(adj, f[k] as int, w));
                    }
                }
                assert(frontier_reach(adj, f, f.len() as int) =~= step(adj, lay));
                lemma_within_next(adj, srci, d);
                let nxt = within(adj, srci, d + 1);
                assert(marked(self.visited@, s) == nxt);
                assert(cur.subset_of(nxt));
                assert(nxt.intersect(cur) =~= cur);
                lemma_set_difference_len(nxt, cur);
                assert(layer(adj, srci, d + 1) == nxt.difference(cur));
                assert forall|w: int| #[trigger] layer(adj, srci, d + 1).contains(w) implies exists|k: int|
                    0 <= k < self.next@.len() && self.next@[k] == w by {
                    assert(marked(self.visited@, s).contains(w) && !cur.contains(w));
                }
            }
            if self.next.len() > 0 {
                levels.push(self.next.len());
            }
            let ghost nx = self.next@;
            std::mem::swap(&mut self.frontier, &mut self.next);
            proof {
                assert(self.frontier@ == nx);
                d = d + 1;
                assert forall|w: int| #[trigger] layer(adj, srci, d).contains(w) implies exists|k: int|
                    0 <= k < self.frontier@.len() && self.frontier@[k] == w by {
                    let k = choose|k: int| 0 <= k < nx.len() && nx[k] == w;
                    assert(self.frontier@[k] == w);
                }
            }
        }
        proof {
            let last = within(adj, srci, d);
            let prev = within(adj, srci, (d - 1) as nat);
            lemma_within_mono(adj, srci, (d - 1) as nat, d);
            assert forall|w: int| last.contains(w) implies prev.contains(w) by {
                if !prev.contains(w) {
                    assert(layer(adj, srci, d).contains(w));
                    let k = choose|k: int| 0 <= k < self.frontier@.len() && self.frontier@[k] == w;
                }
            }
            assert(last =~= prev);
            lemma_reach_is_within(adj, srci, (d - 1) as nat);
            lemma_within_mono(adj, srci, 0, (d - 1) as nat);
            assert(prev.contains(srci));
            lemma_within_bounded(adj, srci, (d - 1) as nat);
            assert(layer(adj, srci, d) =~= Set::empty());
            assert(prev =~= reached_others(adj, srci).insert(srci));
        }
        (count, levels)
    }

    /// Count of nodes reachable from `src` excluding `src` itself.
    pub fn reachable_count(&mut self, g: &Graph, src: u32) -> (count: usize)
        requires
            old(self).wf(),
            old(self).size() == g.node_count(),
            old(self).runs() < u32::MAX,
            g.wf(),
            src < g.node_count(),
        ensures
            final(self).wf(),
            final(self).size() == old(self).size(),
            final(self).runs() == old(self).runs() + 1,
            final(self).last_marked() == reached_others(g.adj(), src as int).insert(src as int),
            count == reached_others(g.adj(), src as int).len(),
            count < g.node_count(),
    {
        let r = self.sweep(g, src).0;
        proof {
            lemma_reach_count_bounds(g.adj(), src as int);
        }
        r
    }

    /// The number of nodes at each shortest-path distance `1, 2, ...` from
    /// `src`, up to the farthest node reached: entry `k` counts the nodes at
    /// distance `k + 1`. These are the counts behind the undirected local
    /// reaching centrality, where each such node contributes `1/(k + 1)`.
    pub fn level_sizes(&mut self, g: &Graph, src: u32) -> (levels: Vec<usize>)
        requires
            old(self).wf(),
            old(self).size() == g.node_count(),
            old(self).runs() < u32::MAX,
            g.wf(),
            src < g.node_count(),
        ensures
            final(self).wf(),
            final(self).size() == old(self).size(),
            final(self).runs() == old(self).runs() + 1,
            final(self).last_marked() == reached_others(g.adj(), src as int).insert(src as int),
            layer_profile(g.adj(), src as int, levels@),
    {
        self.sweep(g, src).1
    }
}

/// `levels[k]` is the number of nodes at distance `k + 1` from `src`, none of
/// them empty, and no node lies farther than `levels.len()`.
pub open spec fn layer_profile(adj: Seq<Seq<u32>>, src: int, levels: Seq<usize>) -> bool {
    &&& forall|k: int| 0 <= k < levels.len() ==> levels[k] == layer(adj, src, (k + 1) as nat).len()
        && levels[k] > 0
    &&& layer(adj, src, (levels.len() + 1) as nat).is_empty()
}

/// For every node, the number of other nodes it reaches (in node-index
/// order): the counts behind the directed local reaching centrality
/// `count / (n - 1)`.
pub fn reach_counts(g: &Graph) -> (r: Vec<usize>)
    requires
        g.wf(),
    ensures
        r@.len() == g.node_count(),
        forall|v: int| 0 <= v < r@.len() ==> r@[v] == reached_others(g.adj(), v).len() && r@[v] < g.node_count(),
{
    let n = g.n();
    let mut bfs = Bfs::new(n);
    let mut r: Vec<usize> = Vec::with_capacity(n);
    let mut v: usize = 0;
    while v < n
        invariant
            n == g.node_count(),
            g.wf(),
            v <= n,
            bfs.wf(),
            bfs.size() == n,
            bfs.runs() == v,
            r@.len() == v,
            forall|x: int| 0 <= x < v ==> r@[x] == reached_others(g.adj(), x).len() && r@[x] < n,
        decreases n - v,
    {
        let c = bfs.reachable_count(g, v as u32);
        r.push(c);
        v = v + 1;
    }
    r
}

/// For every node, its distance-layer sizes (see [`Bfs::level_sizes`]), in
/// node-index order: the counts behind the undirected local reaching
/// centrality.
pub fn level_sizes_all(g: &Graph) -> (r: Vec<Vec<usize>>)
    requires
        g.wf(),
    ensures
        r@.len() == g.node_count(),
        forall|v: int| 0 <= v < r@.len() ==> layer_profile(g.adj(), v, #[trigger] r@[v]@),
{
    let n = g.n();
    let mut bfs = Bfs::new(n);
    let mut r: Vec<Vec<usize>> = Vec::with_capacity(n);
    let mut v: usize = 0;
    while v < n
        invariant
            n == g.node_count(),
            g.wf(),
            v <= n,
            bfs.wf(),
            bfs.size() == n,
            bfs.runs() == v,
            r@.len() == v,
            forall|x: int| 0 <= x < v ==> layer_profile(g.adj(), x, #[trigger] r@[x]@),
        decreases n - v,
    {
        let levels = bfs.level_sizes(g, v as u32);
        r.push(levels);
        v = v + 1;
    }
    r
}

/// The sum of `levels`.
pub open spec fn total(levels: Seq<usize>) -> int
    decreases levels.len(),
{
    if levels.len() == 0 {
        0
    } else {
        total(levels.drop_last()) + levels.last()
    }
}

proof fn lemma_within_len_by_layers(adj: Seq<Seq<u32>>, src: int, levels: Seq<usize>, m: nat)
    requires
        adj_closed(adj),
        0 <= src < adj.len(),
        layer_profile(adj, src, levels),
        m <= levels.len(),
    ensures
        within(adj, src, m).len() == 1 + total(levels.take(m as int)),
    decreases m,
{
    if m == 0 {
        assert(levels.take(0) =~= Seq::<usize>::empty());
    } else {
        let k = (m - 1) as nat;
        lemma_within_len_by_layers(adj, src, levels, k);
        lemma_within_bounded(adj, src, k);
        lemma_within_bounded(adj, src, m);
        lemma_within_mono(adj, src, k, m);
        let cur = within(adj, src, k);
        let nxt = within(adj, src, m);
        assert(nxt.intersect(cur) =~= cur);
        lemma_set_difference_len(nxt, cur);
        assert(levels.take(m as int).drop_last() =~= levels.take(k as int));
    }
}

/// Every node reached lies at exactly one distance: the distance-layer sizes
/// from `src` add up to the number of other nodes `src` reaches, so the
/// undirected and the directed measures count the same nodes.
pub proof fn lemma_layers_sum_to_reach(adj: Seq<Seq<u32>>, src: int, levels: Seq<usize>)
    requires
        adj_closed(adj),
        0 <= src < adj.len(),
        layer_profile(adj, src, levels),
    ensures
        total(levels) == reached_others(adj, src).len(),
{
    let m = levels.len();
    lemma_within_len_by_layers(adj, src, levels, m);
    assert(levels.take(m as int) =~= levels);
    lemma_within_mono(adj, src, m, m + 1);
    assert(within(adj, src, m + 1) =~= within(adj, src, m)) by {
        assert forall|w: int| within(adj, src, m + 1).contains(w) implies within(adj, src, m).contains(w) by {
            if !within(adj, src, m).contains(w) {
                assert(layer(adj, src, m + 1).contains(w));
            }
        }
    }
    lemma_reach_is_within(adj, src, m);
    lemma_within_mono(adj, src, 0, m);
    lemma_within_bounded(adj, src, m);
}

/// A node reaches at most the other `n - 1` nodes, and reaches that many
/// exactly when it reaches every node (local reaching centrality lies in
/// `[0, 1]` and is `1` exactly for nodes that reach the whole graph).
pub proof fn lemma_reach_count_bounds(adj: Seq<Seq<u32>>, src: int)
    requires
        adj_closed(adj),
        0 <= src < adj.len(),
    ensures
        reached_others(adj, src).len() <= adj.len() - 1,
        reached_others(adj, src).len() == adj.len() - 1 <==> forall|w: int| 0 <= w < adj.len() ==> reachable(adj, src, w),
{
    let n = adj.len() as int;
    let others = set_int_range(0, n).remove(src);
    lemma_int_range(0, n);
    assert forall|w: int| reached_others(adj, src).contains(w) implies others.contains(w) by {
        let k = choose|k: nat| #[trigger] within(adj, src, k).contains(w);
        lemma_within_bounded(adj, src, k);
    }
    lemma_len_subset(reached_others(adj, src), others);
    if forall|w: int| 0 <= w < n ==> reachable(adj, src, w) {
        assert(reached_others(adj, src) =~= others);
    }
    if reached_others(adj, src).len() == n - 1 {
        lemma_subset_equality(reached_others(adj, src), others);
        assert forall|w: int| 0 <= w < n implies reachable(adj, src, w) by {
            if w == src {
                assert(within(adj, src, 0).contains(src));
            } else {
                assert(others.contains(w));
            }
        }
    }
}

/// Once a distance has no nodes, no farther distance has any.
proof fn lemma_empty_layer_stays_empty(adj: Seq<Seq<u32>>, src: int, m: nat, k: nat)
    requires
        m >= 1,
        m <= k,
        layer(adj, src, m).is_empty(),
    ensures
        layer(adj, src, k).is_empty(),
{
    let prev = (m - 1) as nat;
    lemma_within_mono(adj, src, prev, m);
    assert(within(adj, src, m) =~= within(adj, src, prev)) by {
        assert forall|w: int| within(adj, src, m).contains(w) implies within(adj, src, prev).contains(w) by {
            if !within(adj, src, prev).contains(w) {
                assert(layer(adj, src, m).contains(w));
            }
        }
    }
    lemma_within_stable(adj, src, prev, k);
    lemma_within_stable(adj, src, prev, (k - 1) as nat);
    assert(layer(adj, src, k) =~= Set::empty());
}

/// The distance-layer sizes of a node are determined by the graph: two
/// sequences that both describe them are equal.
pub proof fn lemma_layer_profile_unique(adj: Seq<Seq<u32>>, src: int, a: Seq<usize>, b: Seq<usize>)
    requires
        layer_profile(adj, src, a),
        layer_profile(adj, src, b),
    ensures
        a == b,
{
    if a.len() < b.len() {
        lemma_empty_layer_stays_empty(adj, src, (a.len() + 1) as nat, (a.len() + 1) as nat);
        assert(b[a.len() as int] > 0);
    }
    if b.len() < a.len() {
        assert(a[b.len() as int] > 0);
    }
    assert(a =~= b);
}

} // verus!
