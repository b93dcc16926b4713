//! The integer-interned graph and the edge-list reader that builds it.
use std::collections::HashSet;

use vstd::hash_map::StringHashMap;
use vstd::prelude::*;

use crate::paths::{adj_closed, has_edge, symmetric};
use crate::text::{
    edges_of, leading, lemma_plain_line_text, line_edge, line_tokens, plain_separator, plain_token, scan_forward,
    text_chars, CharClass,
};

verus! {

/// Integer-interned adjacency. Labels carry first-seen order; `succ[u]` lists
/// the out-neighbours of `u`. For an undirected read the reverse edge is added
/// too, so `succ` doubles as the full adjacency.
pub struct Graph {
    pub labels: Vec<String>,
    pub succ: Vec<Vec<u32>>,
    pub directed: bool,
}

impl Graph {
    /// The adjacency lists as sequences.
    pub open spec fn adj(&self) -> Seq<Seq<u32>> {
        Seq::new(self.succ@.len(), |i: int| self.succ@[i]@)
    }

    /// The node count.
    pub open spec fn node_count(&self) -> nat {
        self.labels@.len()
    }

    /// One adjacency list per label, every neighbour a node, and every node
    /// index fits in `u32`.
    pub open spec fn wf(&self) -> bool {
        &&& self.succ@.len() == self.labels@.len()
        &&& self.labels@.len() < u32::MAX
        &&& adj_closed(self.adj())
    }

    /// The number of nodes.
    pub fn n(&self) -> (r: usize)
        ensures
            r == self.node_count(),
    {
        self.labels.len()
    }
}

/// The texts of a list of labels.
pub open spec fn label_texts(labels: Seq<String>) -> Seq<Seq<char>> {
    labels.map_values(|l: String| l@)
}

/// The endpoints of `edges` in order: `u0, v0, u1, v1, ...`.
pub open spec fn endpoints(edges: Seq<(Seq<char>, Seq<char>)>) -> Seq<Seq<char>>
    decreases edges.len(),
{
    if edges.len() == 0 {
        Seq::empty()
    } else {
        endpoints(edges.drop_last()).push(edges.last().0).push(edges.last().1)
    }
}

/// The distinct entries of `s`, in the order of their first occurrence.
pub open spec fn first_seen<A>(s: Seq<A>) -> Seq<A>
    decreases s.len(),
{
    if s.len() == 0 {
        Seq::empty()
    } else {
        let f = first_seen(s.drop_last());
        if f.contains(s.last()) {
            f
        } else {
            f.push(s.last())
        }
    }
}

/// `index` maps each label's text to its position, and nothing else.
pub open spec fn interned(labels: Seq<String>, index: Map<Seq<char>, u32>) -> bool {
    &&& forall|i: int| 0 <= i < labels.len() ==> #[trigger] index.contains_key(labels[i]@) && index[labels[i]@] == i
    &&& forall|k: Seq<char>| #[trigger] index.contains_key(k) ==> 0 <= index[k] < labels.len() && labels[index[k] as int]@ == k
}

proof fn lemma_interned_distinct(labels: Seq<String>, index: Map<Seq<char>, u32>, i: int, j: int)
    requires
        interned(labels, index),
        0 <= i < labels.len(),
        0 <= j < labels.len(),
    ensures
        labels[i]@ == labels[j]@ ==> i == j,
{
    assert(index.contains_key(labels[i]@));
    assert(index.contains_key(labels[j]@));
}

/// The id of label `s`, appending it to `labels` (and `index`) when it is new.
pub fn intern(labels: &mut Vec<String>, index: &mut StringHashMap<u32>, s: &str) -> (id: u32)
    requires
        interned(old(labels)@, old(index)@),
        old(labels)@.len() < u32::MAX,
    ensures
        interned(final(labels)@, final(index)@),
        label_texts(final(labels)@) == if label_texts(old(labels)@).contains(s@) {
            label_texts(old(labels)@)
        } else {
            label_texts(old(labels)@).push(s@)
        },
        final(labels)@.len() <= old(labels)@.len() + 1,
        old(index)@.dom().finite() ==> final(index)@.dom().finite(),
        id < final(labels)@.len(),
        final(labels)@[id as int]@ == s@,
{
    let ghost before = label_texts(labels@);
    match index.get(s) {
        Some(id) => {
            proof {
                assert(before[*id as int] == s@);
            }
            return *id;
        },
        None => {},
    }
    proof {
        assert forall|i: int| 0 <= i < before.len() implies before[i] != s@ by {
            assert(index@.contains_key(labels@[i]@));
        }
    }
    let id = labels.len() as u32;
    labels.push(s.to_owned());
    index.insert(s.to_owned(), id);
    proof {
        assert(label_texts(labels@) =~= before.push(s@));
        assert forall|k: Seq<char>| #[trigger] index@.contains_key(k) implies 0 <= index@[k] < labels@.len()
            && labels@[index@[k] as int]@ == k by {
            if k != s@ {
                assert(labels@[index@[k] as int] == old(labels)@[index@[k] as int]);
            }
        }
        assert forall|i: int| 0 <= i < labels@.len() implies #[trigger] index@.contains_key(labels@[i]@)
            && index@[labels@[i]@] == i by {
            if i < old(labels)@.len() {
                assert(labels@[i] == old(labels)@[i]);
                assert(old(index)@.contains_key(old(labels)@[i]@));
            }
        }
    }
    id
}

/// Appends `c` to `s` (`String::push`).
#[verifier::external_body]
fn push_char(s: &mut String, c: char)
    ensures
        final(s)@ == old(s)@.push(c),
{
    s.push(c);
}

/// Whether `a` spells `chars[from..to]`.
fn same_chars(a: &Vec<char>, chars: &Vec<char>, from: usize, to: usize) -> (r: bool)
    requires
        from <= to <= chars@.len(),
    ensures
        r == (a@ == chars@.subrange(from as int, to as int)),
{
    if a.len() != to - from {
        return false;
    }
    let mut k: usize = 0;
    while k < a.len()
        invariant
            a@.len() == to - from,
            from <= to <= chars@.len(),
            k <= a@.len(),
            forall|t: int| 0 <= t < k ==> a@[t] == chars@[from + t],
        decreases a@.len() - k,
    {
        if a[k] != chars[from + k] {
            proof {
                assert(chars@.subrange(from as int, to as int)[k as int] == chars@[from + k]);
            }
            return false;
        }
        k = k + 1;
    }
    proof {
        assert(a@ =~= chars@.subrange(from as int, to as int));
    }
    true
}

/// The label spelled by `chars[from..to]`, the characters of `text`.
///
/// The label is built a character at a time and then read back and compared
/// with the text, so that it never rests on the trusted append alone; were
/// the two ever to differ, the label is cut from `text` directly instead.
fn make_label(text: &str, chars: &Vec<char>, from: usize, to: usize) -> (s: String)
    requires
        from <= to <= chars@.len(),
        chars@ == text@,
    ensures
        s@ == chars@.subrange(from as int, to as int),
{
    let mut s = String::new();
    let mut i = from;
    while i < to
        invariant
            from <= i <= to <= chars@.len(),
        decreases to - i,
    {
        push_char(&mut s, chars[i]);
        i = i + 1;
    }
    let spelled = text_chars(s.as_str());
    if same_chars(&spelled, chars, from, to) {
        s
    } else {
        text.substring_char(from, to).to_owned()
    }
}

/// The key under which the arc `a -> b` is remembered.
pub open spec fn arc_key(a: u32, b: u32) -> u64 {
    (a as int * 0x1_0000_0000 + b as int) as u64
}

proof fn lemma_arc_key_injective(a: u32, b: u32, c: u32, d: u32)
    ensures
        arc_key(a, b) == arc_key(c, d) <==> (a == c && b == d),
{
    assert(0 <= a as int * 0x1_0000_0000 + b as int <= u64::MAX) by (nonlinear_arith);
    assert(0 <= c as int * 0x1_0000_0000 + d as int <= u64::MAX) by (nonlinear_arith);
    if a != c {
        assert(a as int * 0x1_0000_0000 + b as int != c as int * 0x1_0000_0000 + d as int) by (nonlinear_arith)
            requires
                a != c,
                0 <= b < 0x1_0000_0000,
                0 <= d < 0x1_0000_0000,
        ;
    }
}

fn arc_key_of(a: u32, b: u32) -> (r: u64)
    ensures
        r == arc_key(a, b),
{
    proof {
        assert(0 <= a as int * 0x1_0000_0000 + b as int <= u64::MAX) by (nonlinear_arith);
    }
    (a as u64) * 0x1_0000_0000 + (b as u64)
}

/// Whether the pairs `raw[..m]` hold the arc `a -> b` (or, undirected, `b -> a`).
pub open spec fn raw_arc(raw: Seq<(u32, u32)>, m: int, directed: bool, a: u32, b: u32) -> bool {
    exists|k: int| 0 <= k < m && (#[trigger] raw[k] == (a, b) || (!directed && raw[k] == (b, a)))
}

/// Whether the edge list holds the edge `a -> b` (or, undirected, either way)
/// between the labels at positions `a` and `b`.
pub open spec fn lists_arc(
    edges: Seq<(Seq<char>, Seq<char>)>,
    labels: Seq<Seq<char>>,
    directed: bool,
    a: int,
    b: int,
) -> bool {
    exists|k: int| 0 <= k < edges.len() && ((#[trigger] edges[k] == (labels[a], labels[b])) || (!directed && edges[k] == (labels[b], labels[a])))
}

/// The arcs of `edges` as node-id pairs, a label's id being its position in `labels`.
pub open spec fn edge_ids(edges: Seq<(Seq<char>, Seq<char>)>, labels: Seq<Seq<char>>) -> Seq<(u32, u32)> {
    edges.map_values(|p: (Seq<char>, Seq<char>)| (labels.index_of(p.0) as u32, labels.index_of(p.1) as u32))
}

/// The heads of the arcs leaving `a`, in the order the arcs come: for each
/// pair `(u, v)`, `v` when `u == a`, then (undirected) `u` when `v == a`.
pub open spec fn arc_targets(arcs: Seq<(u32, u32)>, directed: bool, a: u32) -> Seq<u32>
    decreases arcs.len(),
{
    if arcs.len() == 0 {
        Seq::empty()
    } else {
        let prev = arc_targets(arcs.drop_last(), directed, a);
        let (u, v) = arcs.last();
        let forward = if u == a {
            prev.push(v)
        } else {
            prev
        };
        if !directed && v == a {
            forward.push(u)
        } else {
            forward
        }
    }
}

/// Adjacency lists for `n` nodes holding exactly the arcs of `raw`, each once.
fn build_succ(raw: &Vec<(u32, u32)>, n: usize, directed: bool) -> (succ: Vec<Vec<u32>>)
    requires
        forall|k: int| 0 <= k < raw@.len() ==> (#[trigger] raw@[k]).0 < n && raw@[k].1 < n,
    ensures
        succ@.len() == n,
        forall|a: int, j: int| 0 <= a < n && 0 <= j < succ@[a]@.len() ==> #[trigger] succ@[a]@[j] < n,
        forall|a: int| 0 <= a < n ==> (#[trigger] succ@[a]@).no_duplicates(),
        forall|a: u32, b: u32| a < n && b < n ==> (#[trigger] succ@[a as int]@.contains(b) <==> raw_arc(raw@, raw@.len() as int, directed, a, b)),
        forall|a: u32| a < n ==> #[trigger] succ@[a as int]@ == first_seen(arc_targets(raw@, directed, a)),
{
    let mut succ: Vec<Vec<u32>> = Vec::with_capacity(n);
    let mut i: usize = 0;
    while i < n
        invariant
            i <= n,
            succ@.len() == i,
            forall|a: int| 0 <= a < i ==> (#[trigger] succ@[a]@).len() == 0,
        decreases n - i,
    {
        succ.push(Vec::new());
        i = i + 1;
    }
    let mut seen: HashSet<u64> = HashSet::new();
    let mut m: usize = 0;
    proof {
        assert forall|a: u32| a < n implies #[trigger] succ@[a as int]@ == first_seen(arc_targets(raw@.take(0), directed, a)) by {
            assert(raw@.take(0) =~= Seq::<(u32, u32)>::empty());
            assert(succ@[a as int]@ =~= Seq::<u32>::empty());
        }
    }
    while m < raw.len()
        invariant
            forall|k: int| 0 <= k < raw@.len() ==> (#[trigger] raw@[k]).0 < n && raw@[k].1 < n,
            m <= raw@.len(),
            succ@.len() == n,
            forall|a: int, j: int| 0 <= a < n && 0 <= j < succ@[a]@.len() ==> #[trigger] succ@[a]@[j] < n,
            forall|a: int| 0 <= a < n ==> (#[trigger] succ@[a]@).no_duplicates(),
            forall|a: u32, b: u32| a < n && b < n ==> (#[trigger] succ@[a as int]@.contains(b) <==> raw_arc(raw@, m as int, directed, a, b)),
            forall|a: u32, b: u32| a < n && b < n ==> (#[trigger] seen@.contains(arc_key(a, b)) <==> raw_arc(raw@, m as int, directed, a, b)),
            forall|a: u32| a < n ==> #[trigger] succ@[a as int]@ == first_seen(arc_targets(raw@.take(m as int), directed, a)),
        decreases raw@.len() - m,
    {
        let (u, v) = raw[m];
        let ghost s0 = succ@;
        let ghost k0 = seen@;
        let key = arc_key_of(u, v);
        let fresh = seen.insert(key);
        if fresh {
            proof {
                assert(!s0[u as int]@.contains(v)) by {
                    if s0[u as int]@.contains(v) {
                        assert(k0.contains(arc_key(u, v)));
                    }
                }
            }
            succ[u as usize].push(v);
        }
        proof {
            assert forall|a: u32, b: u32| a < n && b < n implies (#[trigger] succ@[a as int]@.contains(b)
                <==> (raw_arc(raw@, m as int, directed, a, b) || (a == u && b == v))) && (seen@.contains(arc_key(a, b))
                <==> (raw_arc(raw@, m as int, directed, a, b) || (a == u && b == v))) by {
                lemma_arc_key_injective(a, b, u, v);
                assert(s0[a as int]@.contains(b) <==> raw_arc(raw@, m as int, directed, a, b));
                assert(k0.contains(arc_key(a, b)) <==> raw_arc(raw@, m as int, directed, a, b));
                assert(k0.contains(arc_key(u, v)) <==> raw_arc(raw@, m as int, directed, u, v));
                assert(s0[u as int]@.contains(v) <==> raw_arc(raw@, m as int, directed, u, v));
                if a != u {
                    assert(succ@[a as int] == s0[a as int]);
                } else if fresh {
                    assert(succ@[a as int]@ == s0[a as int]@.push(v));
                    assert(succ@[a as int]@.contains(b) <==> (s0[a as int]@.contains(b) || b == v)) by {
                        if b == v {
                            assert(succ@[a as int]@[s0[a as int]@.len() as int] == v);
                        }
                        if succ@[a as int]@.contains(b) && b != v {
                            let j = choose|j: int| 0 <= j < succ@[a as int]@.len() && succ@[a as int]@[j] == b;
                            assert(s0[a as int]@[j] == b);
                        }
                        if s0[a as int]@.contains(b) {
                            let j = choose|j: int| 0 <= j < s0[a as int]@.len() && s0[a as int]@[j] == b;
                            assert(succ@[a as int]@[j] == b);
                        }
                    }
                } else {
                    assert(succ@[a as int] == s0[a as int]);
                }
            }
            assert forall|a: int, j: int| 0 <= a < n && 0 <= j < succ@[a]@.len() implies #[trigger] succ@[a]@[j] < n by {
                if a != u || j < s0[a]@.len() {
                    assert(succ@[a]@[j] == s0[a]@[j]);
                }
            }
            assert forall|a: int| 0 <= a < n implies (#[trigger] succ@[a]@).no_duplicates() by {
                if a != u {
                    assert(succ@[a] == s0[a]);
                }
            }
        }
        let ghost s1 = succ@;
        let ghost k1 = seen@;
        if !directed {
            let rkey = arc_key_of(v, u);
            let rfresh = seen.insert(rkey);
            if rfresh {
                proof {
                    assert(!s1[v as int]@.contains(u)) by {
                        if s1[v as int]@.contains(u) {
                            assert(k1.contains(arc_key(v, u)));
                        }
                    }
                }
                succ[v as usize].push(u);
            }
            proof {
                assert forall|a: u32, b: u32| a < n && b < n implies (#[trigger] succ@[a as int]@.contains(b)
                    <==> (raw_arc(raw@, m as int, directed, a, b) || (a == u && b == v) || (a == v && b == u)))
                    && (seen@.contains(arc_key(a, b)) <==> (raw_arc(raw@, m as int, directed, a, b) || (
                    a == u && b == v) || (a == v && b == u))) by {
                    lemma_arc_key_injective(a, b, v, u);
                    assert(s1[a as int]@.contains(b) <==> (raw_arc(raw@, m as int, directed, a, b) || (a == u && b == v)));
                    assert(k1.contains(arc_key(a, b)) <==> (raw_arc(raw@, m as int, directed, a, b) || (a == u && b == v)));
                    assert(k1.contains(arc_key(v, u)) <==> (raw_arc(raw@, m as int, directed, v, u) || (v == u && u == v)));
                    assert(s1[v as int]@.contains(u) <==> (raw_arc(raw@, m as int, directed, v, u) || (v == u && u == v)));
                    if a != v {
                        assert(succ@[a as int] == s1[a as int]);
                    } else if rfresh {
                        assert(succ@[a as int]@ == s1[a as int]@.push(u));
                        assert(succ@[a as int]@.contains(b) <==> (s1[a as int]@.contains(b) || b == u)) by {
                            if b == u {
                                assert(succ@[a as int]@[s1[a as int]@.len() as int] == u);
                            }
                            if succ@[a as int]@.contains(b) && b != u {
                                let j = choose|j: int| 0 <= j < succ@[a as int]@.len() && succ@[a as int]@[j] == b;
                                assert(s1[a as int]@[j] == b);
                            }
                            if s1[a as int]@.contains(b) {
                                let j = choose|j: int| 0 <= j < s1[a as int]@.len() && s1[a as int]@[j] == b;
                                assert(succ@[a as int]@[j] == b);
                            }
                        }
                    } else {
                        assert(succ@[a as int] == s1[a as int]);
                    }
                }
                assert forall|a: int, j: int| 0 <= a < n && 0 <= j < succ@[a]@.len() implies #[trigger] succ@[a]@[j] < n by {
                    if a != v || j < s1[a]@.len() {
                        assert(succ@[a]@[j] == s1[a]@[j]);
                    }
                }
                assert forall|a: int| 0 <= a < n implies (#[trigger] succ@[a]@).no_duplicates() by {
                    if a != v {
                        assert(succ@[a] == s1[a]);
                    }
                }
            }
        }
        proof {
            assert forall|a: u32, b: u32| a < n && b < n implies raw_arc(raw@, m + 1, directed, a, b) <==> (
                raw_arc(raw@, m as int, directed, a, b) || (a == u && b == v) || (!directed && a == v && b == u)) by {
                if raw_arc(raw@, m + 1, directed, a, b) && !raw_arc(raw@, m as int, directed, a, b) {
                    let k = choose|k: int| 0 <= k < m + 1 && (#[trigger] raw@[k] == (a, b) || (!directed && raw@[k] == (b, a)));
                    assert(k == m);
                }
                if (a == u && b == v) || (!directed && a == v && b == u) {
                    assert(raw@[m as int] == (u, v));
                }
            }
            assert(raw@.take(m + 1).drop_last() =~= raw@.take(m as int));
            assert(raw@.take(m + 1).last() == (u, v));
            assert forall|a: u32| a < n implies #[trigger] succ@[a as int]@ == first_seen(arc_targets(raw@.take(m + 1), directed, a)) by {
                let prev = arc_targets(raw@.take(m as int), directed, a);
                let forward = if u == a { prev.push(v) } else { prev };
                assert(s0[a as int]@ == first_seen(prev));
                if u == a {
                    assert(prev.push(v).drop_last() =~= prev);
                    assert(s0[u as int]@.contains(v) <==> raw_arc(raw@, m as int, directed, u, v));
                    assert(k0.contains(arc_key(u, v)) <==> raw_arc(raw@, m as int, directed, u, v));
                }
                assert(s1[a as int]@ == first_seen(forward));
                if !directed && v == a {
                    assert(forward.push(u).drop_last() =~= forward);
                    assert(s1[v as int]@.contains(u) <==> (raw_arc(raw@, m as int, directed, v, u) || (v == u && u == v)));
                    assert(k1.contains(arc_key(v, u)) <==> (raw_arc(raw@, m as int, directed, v, u) || (v == u && u == v)));
                } else {
                    assert(succ@[a as int] == s1[a as int]);
                }
            }
        }
        m = m + 1;
    }
    proof {
        assert(raw@.take(m as int) =~= raw@);
    }
    succ
}

/// The distinct labels of an edge-list text, in first-seen order.
pub open spec fn text_labels(text: Seq<char>) -> Seq<Seq<char>> {
    first_seen(endpoints(edges_of(text)))
}

/// `g` is the graph of the edge-list `text` read with `directed`:
/// labels in first-seen order, and each adjacency list holding the heads of
/// the node's arcs in the order the lines give them, each once. As
/// consequences: which arcs exist, no duplicates, no self-loops, and an
/// undirected read is symmetric.
pub open spec fn parsed_from(g: Graph, text: Seq<char>, directed: bool) -> bool {
    &&& g.wf()
    &&& g.directed == directed
    &&& label_texts(g.labels@) == text_labels(text)
    &&& forall|a: u32| a < g.node_count() ==> #[trigger] g.succ@[a as int]@ == first_seen(
        arc_targets(edge_ids(edges_of(text), label_texts(g.labels@)), directed, a),
    )
    &&& forall|a: u32, b: u32| a < g.node_count() && b < g.node_count() ==> (#[trigger] g.succ@[a as int]@.contains(b)
        <==> lists_arc(edges_of(text), label_texts(g.labels@), directed, a as int, b as int))
    &&& forall|a: int| 0 <= a < g.node_count() ==> (#[trigger] g.succ@[a]@).no_duplicates()
    &&& forall|a: int| 0 <= a < g.node_count() ==> !has_edge(g.adj(), a, a)
    &&& !directed ==> symmetric(g.adj())
}

proof fn lemma_endpoints_concat(a: Seq<(Seq<char>, Seq<char>)>, b: Seq<(Seq<char>, Seq<char>)>)
    ensures
        endpoints(a + b) == endpoints(a) + endpoints(b),
    decreases b.len(),
{
    if b.len() == 0 {
        assert(a + b =~= a);
        assert(endpoints(a) + endpoints(b) =~= endpoints(a));
    } else {
        lemma_endpoints_concat(a, b.drop_last());
        assert((a + b).drop_last() =~= a + b.drop_last());
        assert((a + b).last() == b.last());
        assert(endpoints(a + b) =~= endpoints(a) + endpoints(b));
    }
}

proof fn lemma_first_seen_grows<A>(s: Seq<A>, t: Seq<A>)
    ensures
        first_seen(s).len() <= first_seen(s + t).len(),
    decreases t.len(),
{
    if t.len() == 0 {
        assert(s + t =~= s);
    } else {
        lemma_first_seen_grows(s, t.drop_last());
        assert((s + t).drop_last() =~= s + t.drop_last());
    }
}

/// The graph of an edge-list text (format: see [`crate::text`]), or `None`
/// when the text has too many distinct labels for 32-bit node ids.
///
/// Labels are numbered in first-seen order; `u v` adds the arc `u -> v`
/// and, when `directed` is false, `v -> u` as well. Self-loops are dropped
/// and parallel edges collapse, so every adjacency list holds each neighbour
/// once and never the node itself.
pub fn parse_edges(text: &str, directed: bool) -> (r: Option<Graph>)
    ensures
        r is None <==> text_labels(text@).len() >= u32::MAX,
        r matches Some(g) ==> parsed_from(g, text@, directed),
{
    let chars = text_chars(text);
    let len = chars.len();
    let mut labels: Vec<String> = Vec::new();
    let mut index: StringHashMap<u32> = StringHashMap::new();
    let mut raw: Vec<(u32, u32)> = Vec::new();
    let ghost mut done: Seq<(Seq<char>, Seq<char>)> = Seq::empty();
    let mut p: usize = 0;
    proof {
        assert(chars@.skip(0) =~= chars@);
        assert(label_texts(labels@) =~= first_seen(endpoints(done)));
    }
    while p < len
        invariant
            chars@ == text@,
            len == chars@.len(),
            p <= len,
            edges_of(chars@) == done + edges_of(chars@.skip(p as int)),
            raw@.len() == done.len(),
            forall|k: int| 0 <= k < raw@.len() ==> (#[trigger] raw@[k]).0 < labels@.len() && raw@[k].1 < labels@.len()
                && label_texts(labels@)[raw@[k].0 as int] == done[k].0 && label_texts(labels@)[raw@[k].1 as int]
                == done[k].1,
            forall|k: int| 0 <= k < done.len() ==> (#[trigger] done[k]).0 != done[k].1,
            label_texts(labels@) == first_seen(endpoints(done)),
            interned(labels@, index@),
            labels@.len() < u32::MAX,
        decreases len - p,
    {
        let e = scan_forward(&chars, p, len, CharClass::NotNewline);
        let ghost t = chars@.skip(p as int);
        let ghost line = chars@.subrange(p as int, e as int);
        proof {
            assert(t =~= chars@.subrange(p as int, len as int));
            assert(t.take(e - p) =~= line);
            if e < len {
                assert(t.skip(e - p + 1) =~= chars@.skip(e + 1));
            }
        }
        let ghost rest = if e < len { edges_of(chars@.skip(e + 1)) } else { Seq::empty() };
        let ghost before = done;
        match line_tokens(&chars, p, e) {
            Some((u0, u1, v0, v1)) => {
                let us = make_label(text, &chars, u0, u1);
                let vs = make_label(text, &chars, v0, v1);
                if !(us == vs) {
                    let ghost lt0 = label_texts(labels@);
                    let ghost e0 = endpoints(before);
                    proof {
                        assert(line_edge(line) == Some((us@, vs@)));
                        assert(edges_of(t) == seq![(us@, vs@)] + rest);
                        assert(edges_of(chars@) =~= before.push((us@, vs@)) + rest);
                        lemma_endpoints_concat(before.push((us@, vs@)), rest);
                        assert(before.push((us@, vs@)).drop_last() =~= before);
                        assert(endpoints(before.push((us@, vs@))) == e0.push(us@).push(vs@));
                        lemma_first_seen_grows(e0.push(us@).push(vs@), endpoints(rest));
                        assert(e0.push(us@).push(vs@).drop_last() =~= e0.push(us@));
                        assert(e0.push(us@).drop_last() =~= e0);
                        assert(first_seen(e0.push(us@)).len() <= first_seen(e0.push(us@).push(vs@)).len());
                        assert(first_seen(e0.push(us@).push(vs@)).len() <= text_labels(text@).len());
                    }
                    let u = intern(&mut labels, &mut index, us.as_str());
                    let ghost lt1 = label_texts(labels@);
                    proof {
                        assert(lt1.len() == labels@.len());
                        assert(first_seen(e0.push(us@)) == lt1);
                    }
                    if labels.len() >= u32::MAX as usize {
                        return None;
                    }
                    let v = intern(&mut labels, &mut index, vs.as_str());
                    let ghost lt2 = label_texts(labels@);
                    proof {
                        assert(lt2.len() == labels@.len());
                        assert(first_seen(e0.push(us@).push(vs@)) == lt2);
                    }
                    if labels.len() >= u32::MAX as usize {
                        return None;
                    }
                    let ghost raw0 = raw@;
                    raw.push((u, v));
                    proof {
                        done = done.push((us@, vs@));
                        assert(done.drop_last() =~= before);
                        assert(endpoints(done) == e0.push(us@).push(vs@));
                        assert(label_texts(labels@) == first_seen(endpoints(done)));
                        assert(lt1[u as int] == us@);
                        assert(lt2[u as int] == us@);
                        assert(lt2[v as int] == vs@);
                        assert forall|k: int| 0 <= k < raw@.len() implies (#[trigger] raw@[k]).0 < labels@.len()
                            && raw@[k].1 < labels@.len() && label_texts(labels@)[raw@[k].0 as int] == done[k].0
                            && label_texts(labels@)[raw@[k].1 as int] == done[k].1 by {
                            if k < before.len() {
                                assert(raw@[k] == raw0[k]);
                                assert(lt0[raw@[k].0 as int] == lt2[raw@[k].0 as int]);
                                assert(lt0[raw@[k].1 as int] == lt2[raw@[k].1 as int]);
                            }
                        }
                        assert(edges_of(chars@) =~= done + rest);
                    }
                } else {
                    proof {
                        assert(line_edge(line).is_none());
                        assert(edges_of(t) == rest);
                    }
                }
            },
            None => {
                proof {
                    assert(line_edge(line).is_none());
                    assert(edges_of(t) == rest);
                }
            },
        }
        p = if e < len {
            e + 1
        } else {
            len
        };
        proof {
            if e == len {
                assert(chars@.skip(p as int) =~= Seq::<char>::empty());
                assert(edges_of(Seq::<char>::empty()) =~= Seq::empty()) by {
                    assert(line_edge(Seq::<char>::empty()).is_none()) by {
                        reveal_with_fuel(crate::text::leading, 1);
                    }
                }
            }
        }
    }
    proof {
        assert(chars@.skip(len as int) =~= Seq::<char>::empty());
        assert(edges_of(Seq::<char>::empty()) =~= Seq::empty()) by {
            assert(line_edge(Seq::<char>::empty()).is_none());
        }
        assert(edges_of(chars@) =~= done);
    }
    let n = labels.len();
    let succ = build_succ(&raw, n, directed);
    let g = Graph { labels, succ, directed };
    proof {
        let lt = label_texts(g.labels@);
        assert forall|k: int| 0 <= k < raw@.len() implies #[trigger] edge_ids(done, lt)[k] == raw@[k] by {
            let (ra, rb) = raw@[k];
            let ia = lt.index_of(done[k].0);
            let ib = lt.index_of(done[k].1);
            assert(lt[ra as int] == done[k].0);
            assert(lt[rb as int] == done[k].1);
            lemma_interned_distinct(g.labels@, index@, ra as int, ia);
            lemma_interned_distinct(g.labels@, index@, rb as int, ib);
        }
        assert(edge_ids(done, lt) =~= raw@);
        assert forall|a: u32, b: u32| a < n && b < n implies (#[trigger] g.succ@[a as int]@.contains(b) <==> lists_arc(
            done, lt, directed, a as int, b as int)) by {
            if raw_arc(raw@, raw@.len() as int, directed, a, b) {
                let k = choose|k: int| 0 <= k < raw@.len() && (#[trigger] raw@[k] == (a, b) || (!directed && raw@[k] == (b, a)));
                assert(done[k] == (lt[a as int], lt[b as int]) || (!directed && done[k] == (lt[b as int], lt[a as int])));
            }
            if lists_arc(done, lt, directed, a as int, b as int) {
                let k = choose|k: int| 0 <= k < done.len() && ((#[trigger] done[k] == (lt[a as int], lt[b as int])) || (!directed
                    && done[k] == (lt[b as int], lt[a as int])));
                let (ra, rb) = raw@[k];
                lemma_interned_distinct(g.labels@, index@, ra as int, a as int);
                lemma_interned_distinct(g.labels@, index@, rb as int, b as int);
                lemma_interned_distinct(g.labels@, index@, ra as int, b as int);
                lemma_interned_distinct(g.labels@, index@, rb as int, a as int);
                assert(raw@[k] == (a, b) || (!directed && raw@[k] == (b, a)));
            }
        }
        assert forall|a: int| 0 <= a < n implies !has_edge(g.adj(), a, a) by {
            if has_edge(g.adj(), a, a) {
                let j = choose|j: int| 0 <= j < g.adj()[a].len() && g.adj()[a][j] == a;
                assert(g.succ@[a]@.contains(a as u32));
                let k = choose|k: int| 0 <= k < done.len() && ((#[trigger] done[k] == (lt[a], lt[a])) || (!directed
                    && done[k] == (lt[a], lt[a])));
            }
        }
        if !directed {
            assert forall|a: int, b: int| #[trigger] has_edge(g.adj(), a, b) implies has_edge(g.adj(), b, a) by {
                let j = choose|j: int| 0 <= j < g.adj()[a].len() && g.adj()[a][j] == b;
                assert(g.succ@[a]@.contains(b as u32));
                assert(0 <= b < n);
                let k = choose|k: int| 0 <= k < done.len() && ((#[trigger] done[k] == (lt[a], lt[b])) || (!directed
                    && done[k] == (lt[b], lt[a])));
                assert(lists_arc(done, lt, directed, b, a));
                assert(g.succ@[b]@.contains(a as u32));
                let i = choose|i: int| 0 <= i < g.succ@[b]@.len() && g.succ@[b]@[i] == a as u32;
                assert(g.adj()[b][i] == a);
            }
        }
    }
    Some(g)
}

/// Reading a text undirected gives the same labels as reading it directed,
/// and the arcs of the directed read together with all their reversals.
pub proof fn lemma_undirected_read_adds_reversals(text: Seq<char>, gd: Graph, gu: Graph)
    requires
        parsed_from(gd, text, true),
        parsed_from(gu, text, false),
    ensures
        label_texts(gu.labels@) == label_texts(gd.labels@),
        gu.node_count() == gd.node_count(),
        forall|a: u32, b: u32| a < gd.node_count() && b < gd.node_count() ==> (#[trigger] gu.succ@[a as int]@.contains(b)
            <==> gd.succ@[a as int]@.contains(b) || gd.succ@[b as int]@.contains(a)),
{
    let e = edges_of(text);
    let l = label_texts(gd.labels@);
    assert(gu.labels@.len() == label_texts(gu.labels@).len());
    assert forall|a: u32, b: u32| a < gd.node_count() && b < gd.node_count() implies (#[trigger] gu.succ@[a as int]@.contains(b)
        <==> gd.succ@[a as int]@.contains(b) || gd.succ@[b as int]@.contains(a)) by {
        assert(gu.succ@[a as int]@.contains(b) <==> lists_arc(e, l, false, a as int, b as int));
        assert(gd.succ@[a as int]@.contains(b) <==> lists_arc(e, l, true, a as int, b as int));
        assert(gd.succ@[b as int]@.contains(a) <==> lists_arc(e, l, true, b as int, a as int));
        if lists_arc(e, l, false, a as int, b as int) {
            let k = choose|k: int| 0 <= k < e.len() && ((#[trigger] e[k] == (l[a as int], l[b as int])) || (!false && e[k] == (l[b as int], l[a as int])));
            assert(lists_arc(e, l, true, a as int, b as int) || lists_arc(e, l, true, b as int, a as int));
        }
        if lists_arc(e, l, true, a as int, b as int) {
            let k = choose|k: int| 0 <= k < e.len() && ((#[trigger] e[k] == (l[a as int], l[b as int])) || (!true && e[k] == (l[b as int], l[a as int])));
            assert(lists_arc(e, l, false, a as int, b as int));
        }
        if lists_arc(e, l, true, b as int, a as int) {
            let k = choose|k: int| 0 <= k < e.len() && ((#[trigger] e[k] == (l[b as int], l[a as int])) || (!true && e[k] == (l[a as int], l[b as int])));
            assert(lists_arc(e, l, false, a as int, b as int));
        }
    }
}

/// For a map with a finite domain, `interned` is the same as: every label
/// maps to its position, and the map has exactly as many entries as there
/// are labels.
pub proof fn lemma_interned_by_count(labels: Seq<String>, index: Map<Seq<char>, u32>)
    requires
        index.dom().finite(),
    ensures
        interned(labels, index) <==> ((forall|i: int| 0 <= i < labels.len() ==> #[trigger] index.contains_key(labels[i]@)
            && index[labels[i]@] == i) && index.len() == labels.len()),
{
    let lt = label_texts(labels);
    let fwd = forall|i: int| 0 <= i < labels.len() ==> #[trigger] index.contains_key(labels[i]@) && index[labels[i]@] == i;
    if fwd {
        assert(lt.no_duplicates()) by {
            assert forall|i: int, j: int| 0 <= i < lt.len() && 0 <= j < lt.len() && i != j implies lt[i] != lt[j] by {
                assert(index.contains_key(labels[i]@));
                assert(index.contains_key(labels[j]@));
            }
        }
        lt.unique_seq_to_set();
        assert(lt.to_set().subset_of(index.dom())) by {
            assert forall|k: Seq<char>| lt.to_set().contains(k) implies index.dom().contains(k) by {
                let i = choose|i: int| 0 <= i < lt.len() && lt[i] == k;
                assert(index.contains_key(labels[i]@));
            }
        }
        if interned(labels, index) {
            assert(index.dom() =~= lt.to_set()) by {
                assert forall|k: Seq<char>| index.dom().contains(k) implies lt.to_set().contains(k) by {
                    assert(index.contains_key(k));
                    assert(lt[index[k] as int] == k);
                }
            }
        }
        if index.len() == labels.len() {
            vstd::set_lib::lemma_subset_equality(lt.to_set(), index.dom());
            assert forall|k: Seq<char>| #[trigger] index.contains_key(k) implies 0 <= index[k] < labels.len()
                && labels[index[k] as int]@ == k by {
                assert(lt.to_set().contains(k));
                let i = choose|i: int| 0 <= i < lt.len() && lt[i] == k;
                assert(index.contains_key(labels[i]@));
            }
        }
    }
}

/// The graph of a one-line text `u sep v` (two plain tokens): the two labels
/// verbatim, in that order, and the arc `u -> v` (plus `v -> u` when read
/// undirected), nothing else.
pub proof fn lemma_plain_line_graph(u: Seq<char>, sep: Seq<char>, v: Seq<char>, g: Graph, directed: bool)
    requires
        plain_token(u),
        plain_token(v),
        plain_separator(sep),
        u != v,
        parsed_from(g, u + sep + v + seq!['\n'], directed),
    ensures
        label_texts(g.labels@) == seq![u, v],
        g.node_count() == 2,
        g.succ@[0]@ == seq![1u32],
        g.succ@[1]@ == (if directed { Seq::<u32>::empty() } else { seq![0u32] }),
{
    let text = u + sep + v + seq!['\n'];
    lemma_plain_line_text(u, sep, v);
    let e = seq![(u, v)];
    assert(edges_of(text) == e);
    assert(e.drop_last() =~= Seq::<(Seq<char>, Seq<char>)>::empty());
    assert(endpoints(Seq::<(Seq<char>, Seq<char>)>::empty()) =~= Seq::<Seq<char>>::empty());
    assert(e.last() == (u, v));
    assert(endpoints(e) =~= seq![u, v]);
    let pts = seq![u, v];
    assert(pts.drop_last() =~= seq![u]);
    assert(seq![u].drop_last() =~= Seq::<Seq<char>>::empty());
    assert(first_seen(Seq::<Seq<char>>::empty()) =~= Seq::<Seq<char>>::empty());
    assert(first_seen(seq![u]) =~= seq![u]);
    assert(!seq![u].contains(v)) by {
        if seq![u].contains(v) {
            let i = choose|i: int| 0 <= i < 1 && seq![u][i] == v;
        }
    }
    assert(first_seen(pts) =~= seq![u, v]);
    let l = label_texts(g.labels@);
    assert(l == seq![u, v]);
    assert(g.labels@.len() == l.len());
    assert(l.index_of(u) == 0) by {
        let i = choose|i: int| 0 <= i < l.len() && l[i] == u;
        assert(l[0] == u);
    }
    assert(l.index_of(v) == 1) by {
        let i = choose|i: int| 0 <= i < l.len() && l[i] == v;
        assert(l[1] == v);
    }
    let ids = edge_ids(e, l);
    assert(ids =~= seq![(0u32, 1u32)]);
    assert(ids.drop_last() =~= Seq::<(u32, u32)>::empty());
    assert(ids.last() == (0u32, 1u32));
    assert(arc_targets(Seq::<(u32, u32)>::empty(), directed, 0u32) =~= Seq::<u32>::empty());
    assert(arc_targets(Seq::<(u32, u32)>::empty(), directed, 1u32) =~= Seq::<u32>::empty());
    assert(arc_targets(ids, directed, 0) =~= seq![1u32]);
    assert(first_seen(seq![1u32]) =~= seq![1u32]) by {
        assert(seq![1u32].drop_last() =~= Seq::<u32>::empty());
        assert(first_seen(Seq::<u32>::empty()) =~= Seq::<u32>::empty());
    }
    assert(g.succ@[0]@ == first_seen(arc_targets(ids, directed, 0u32)));
    if directed {
        assert(arc_targets(ids, directed, 1) =~= Seq::<u32>::empty());
        assert(g.succ@[1]@ == first_seen(arc_targets(ids, directed, 1u32)));
    } else {
        assert(Seq::<u32>::empty().push(0u32) =~= seq![0u32]);
        assert(arc_targets(ids, directed, 1) =~= seq![0u32]);
        assert(first_seen(seq![0u32]) =~= seq![0u32]) by {
            assert(seq![0u32].drop_last() =~= Seq::<u32>::empty());
            assert(first_seen(Seq::<u32>::empty()) =~= Seq::<u32>::empty());
        }
        assert(g.succ@[1]@ == first_seen(arc_targets(ids, directed, 1u32)));
    }
}

} // verus!
