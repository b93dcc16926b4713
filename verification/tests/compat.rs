//! Value-exact compatibility against networkx 3.6.1
//! `global_reaching_centrality` / `local_reaching_centrality`
//! (weight=None, normalized=True).
//!
//! Golden values were produced once with networkx 3.6.1 and are hardcoded as
//! 17-significant-figure constants. The library yields the reach counts and
//! distance layers; the helpers below turn them into the centrality values
//! the same way the command-line tool does (Neumaier-compensated sums).

use rsomics_reaching_centrality::io::{parse_edges, Graph};
use rsomics_reaching_centrality::reaching::{level_sizes_all, reach_counts, Bfs};

const EPS: f64 = 1e-12;

#[derive(Clone, Copy)]
struct Neumaier {
    sum: f64,
    comp: f64,
}

impl Neumaier {
    fn new() -> Self {
        Neumaier { sum: 0.0, comp: 0.0 }
    }

    fn add(&mut self, x: f64) {
        let t = self.sum + x;
        if self.sum.abs() >= x.abs() {
            self.comp += (self.sum - t) + x;
        } else {
            self.comp += (x - t) + self.sum;
        }
        self.sum = t;
    }

    fn total(self) -> f64 {
        self.sum + self.comp
    }
}

fn inverse_distance_sum(levels: &[usize]) -> f64 {
    let mut acc = Neumaier::new();
    for (i, &k) in levels.iter().enumerate() {
        let inv = 1.0 / f64::from((i + 1) as u32);
        for _ in 0..k {
            acc.add(inv);
        }
    }
    acc.total()
}

fn local_all(g: &Graph) -> Vec<f64> {
    let denom = (g.n() - 1) as f64;
    if g.directed {
        reach_counts(g).into_iter().map(|c| c as f64 / denom).collect()
    } else {
        level_sizes_all(g).iter().map(|l| inverse_distance_sum(l) / denom).collect()
    }
}

fn local_one(g: &Graph, v: u32) -> f64 {
    let denom = (g.n() - 1) as f64;
    let mut bfs = Bfs::new(g.n());
    if g.directed {
        bfs.reachable_count(g, v) as f64 / denom
    } else {
        inverse_distance_sum(&bfs.level_sizes(g, v)) / denom
    }
}

/// Global reaching centrality of an edge-list text, from the library's counts.
fn global_reaching_centrality_from_edge_list(text: &str, directed: bool) -> Result<f64, ()> {
    let g = parse_edges(text, directed).unwrap();
    let lrc = local_all(&g);
    let max = lrc.iter().copied().fold(f64::NEG_INFINITY, f64::max);
    let mut acc = Neumaier::new();
    for &c in &lrc {
        acc.add(max - c);
    }
    Ok(acc.total() / (g.n() - 1) as f64)
}

/// `(label, local reaching centrality)` per node, in first-seen order.
fn local_reaching_centrality_from_edge_list(text: &str, directed: bool) -> Result<Vec<(String, f64)>, ()> {
    let g = parse_edges(text, directed).unwrap();
    let vals = local_all(&g);
    Ok(g.labels.into_iter().zip(vals).collect())
}

fn local_sorted(text: &str, directed: bool) -> Vec<(String, f64)> {
    let mut v = local_reaching_centrality_from_edge_list(text, directed).unwrap();
    v.sort_by(|a, b| a.0.cmp(&b.0));
    v
}

fn assert_close(got: f64, want: f64, label: &str) {
    let ulps = got.to_bits().abs_diff(want.to_bits());
    assert!(
        (got - want).abs() <= EPS && ulps <= 1,
        "{label}: got {got:.17e} want {want:.17e} (|Δ|={:.3e}, ulps={ulps})",
        (got - want).abs()
    );
}

fn assert_local(got: &[(String, f64)], want: &[(&str, f64)], label: &str) {
    assert_eq!(got.len(), want.len(), "{label}: node count mismatch");
    for (i, ((gn, gv), (wn, wv))) in got.iter().zip(want.iter()).enumerate() {
        assert_eq!(gn, wn, "{label}[{i}]: label mismatch");
        assert_close(*gv, *wv, &format!("{label}[{gn}]"));
    }
}

// ── directed hand graphs ─────────────────────────────────────────────

const PATH4: &str = "a b\nb c\nc d\n";
const STAROUT5: &str = "s a\ns b\ns c\ns d\n";
const DAG6: &str = "a b\na c\nb d\nc d\nd e\nd f\n";
const CYCLE4: &str = "a b\nb c\nc d\nd a\n";

#[test]
fn path4_directed() {
    assert_close(
        global_reaching_centrality_from_edge_list(PATH4, true).unwrap(),
        0.6666666666666666,
        "path4 global",
    );
    assert_local(
        &local_sorted(PATH4, true),
        &[
            ("a", 1.0),
            ("b", 0.6666666666666666),
            ("c", 0.3333333333333333),
            ("d", 0.0),
        ],
        "path4 local",
    );
}

#[test]
fn starout5_directed() {
    assert_close(
        global_reaching_centrality_from_edge_list(STAROUT5, true).unwrap(),
        1.0,
        "starout5 global",
    );
    assert_local(
        &local_sorted(STAROUT5, true),
        &[("a", 0.0), ("b", 0.0), ("c", 0.0), ("d", 0.0), ("s", 1.0)],
        "starout5 local",
    );
}

#[test]
fn dag6_directed() {
    assert_close(
        global_reaching_centrality_from_edge_list(DAG6, true).unwrap(),
        0.6799999999999999,
        "dag6 global",
    );
    assert_local(
        &local_sorted(DAG6, true),
        &[
            ("a", 1.0),
            ("b", 0.6),
            ("c", 0.6),
            ("d", 0.4),
            ("e", 0.0),
            ("f", 0.0),
        ],
        "dag6 local",
    );
}

#[test]
fn cycle4_directed() {
    assert_close(
        global_reaching_centrality_from_edge_list(CYCLE4, true).unwrap(),
        0.0,
        "cycle4 global",
    );
    assert_local(
        &local_sorted(CYCLE4, true),
        &[("a", 1.0), ("b", 1.0), ("c", 1.0), ("d", 1.0)],
        "cycle4 local",
    );
}

// ── karate club as a real DiGraph (both-way edges) ───────────────────

const KARATE_DIRECTED: &str = "0 1\n1 0\n0 2\n2 0\n0 3\n3 0\n0 4\n4 0\n0 5\n5 0\n0 6\n6 0\n0 7\n7 0\n0 8\n8 0\n0 10\n10 0\n0 11\n11 0\n0 12\n12 0\n0 13\n13 0\n0 17\n17 0\n0 19\n19 0\n0 21\n21 0\n0 31\n31 0\n1 2\n2 1\n1 3\n3 1\n1 7\n7 1\n1 13\n13 1\n1 17\n17 1\n1 19\n19 1\n1 21\n21 1\n1 30\n30 1\n2 3\n3 2\n2 7\n7 2\n2 8\n8 2\n2 9\n9 2\n2 13\n13 2\n2 27\n27 2\n2 28\n28 2\n2 32\n32 2\n3 7\n7 3\n3 12\n12 3\n3 13\n13 3\n4 6\n6 4\n4 10\n10 4\n5 6\n6 5\n5 10\n10 5\n5 16\n16 5\n6 16\n16 6\n8 30\n30 8\n8 32\n32 8\n8 33\n33 8\n9 33\n33 9\n13 33\n33 13\n14 32\n32 14\n14 33\n33 14\n15 32\n32 15\n15 33\n33 15\n18 32\n32 18\n18 33\n33 18\n19 33\n33 19\n20 32\n32 20\n20 33\n33 20\n22 32\n32 22\n22 33\n33 22\n23 25\n25 23\n23 27\n27 23\n23 29\n29 23\n23 32\n32 23\n23 33\n33 23\n24 25\n25 24\n24 27\n27 24\n24 31\n31 24\n25 31\n31 25\n26 29\n29 26\n26 33\n33 26\n27 33\n33 27\n28 31\n31 28\n28 33\n33 28\n29 32\n32 29\n29 33\n33 29\n30 32\n32 30\n30 33\n33 30\n31 32\n32 31\n31 33\n33 31\n32 33\n33 32\n";

#[test]
fn karate_directed() {
    // Strongly connected → every node reaches all others → all local = 1, global = 0.
    assert_close(
        global_reaching_centrality_from_edge_list(KARATE_DIRECTED, true).unwrap(),
        0.0,
        "karate_directed global",
    );
    let got = local_sorted(KARATE_DIRECTED, true);
    assert_eq!(got.len(), 34);
    for (n, v) in &got {
        assert_close(*v, 1.0, &format!("karate_directed[{n}]"));
    }
}

// ── undirected reads (nx average-edge-weight branch) ─────────────────

const KARATE_UNDIRECTED: &str = "0 1\n0 2\n0 3\n0 4\n0 5\n0 6\n0 7\n0 8\n0 10\n0 11\n0 12\n0 13\n0 17\n0 19\n0 21\n0 31\n1 2\n1 3\n1 7\n1 13\n1 17\n1 19\n1 21\n1 30\n2 3\n2 7\n2 8\n2 9\n2 13\n2 27\n2 28\n2 32\n3 7\n3 12\n3 13\n4 6\n4 10\n5 6\n5 10\n5 16\n6 16\n8 30\n8 32\n8 33\n9 33\n13 33\n14 32\n14 33\n15 32\n15 33\n18 32\n18 33\n19 33\n20 32\n20 33\n22 32\n22 33\n23 25\n23 27\n23 29\n23 32\n23 33\n24 25\n24 27\n24 31\n25 31\n26 29\n26 33\n27 33\n28 31\n28 33\n29 32\n29 33\n30 32\n30 33\n31 32\n31 33\n32 33\n";

#[test]
fn path4_undirected() {
    assert_close(
        global_reaching_centrality_from_edge_list(PATH4, false).unwrap(),
        0.14814814814814822,
        "path4_undirected global",
    );
    assert_local(
        &local_sorted(PATH4, false),
        &[
            ("a", 0.611111111111111),
            ("b", 0.8333333333333334),
            ("c", 0.8333333333333334),
            ("d", 0.611111111111111),
        ],
        "path4_undirected local",
    );
}

#[test]
fn karate_undirected() {
    assert_close(
        global_reaching_centrality_from_edge_list(KARATE_UNDIRECTED, false).unwrap(),
        0.21897765534129174,
        "karate_undirected global",
    );
    assert_local(
        &local_sorted(KARATE_UNDIRECTED, false),
        &[
            ("0", 0.7020202020202021),
            ("1", 0.5808080808080809),
            ("10", 0.4444444444444444),
            ("11", 0.4090909090909091),
            ("12", 0.42424242424242425),
            ("13", 0.5606060606060606),
            ("14", 0.4303030303030303),
            ("15", 0.4303030303030303),
            ("16", 0.33636363636363636),
            ("17", 0.4292929292929293),
            ("18", 0.4303030303030303),
            ("19", 0.5303030303030303),
            ("2", 0.6363636363636364),
            ("20", 0.4303030303030303),
            ("21", 0.4292929292929293),
            ("22", 0.4303030303030303),
            ("23", 0.48585858585858593),
            ("24", 0.4217171717171717),
            ("25", 0.4217171717171717),
            ("26", 0.42272727272727273),
            ("27", 0.5126262626262627),
            ("28", 0.4974747474747475),
            ("29", 0.46565656565656566),
            ("3", 0.5353535353535354),
            ("30", 0.5126262626262627),
            ("31", 0.5858585858585859),
            ("32", 0.6338383838383839),
            ("33", 0.7045454545454546),
            ("4", 0.4444444444444444),
            ("5", 0.45959595959595956),
            ("6", 0.45959595959595956),
            ("7", 0.4974747474747475),
            ("8", 0.5606060606060606),
            ("9", 0.47222222222222227),
        ],
        "karate_undirected local",
    );
}

// ── key-set / structural sanity ──────────────────────────────────────

#[test]
fn single_source_local_matches_batch() {
    let batch = local_reaching_centrality_from_edge_list(DAG6, true).unwrap();
    let g = parse_edges(DAG6, true).unwrap();
    for (i, (_, want)) in batch.iter().enumerate() {
        let one = local_one(&g, i as u32);
        assert_close(one, *want, "local_one vs local_all");
    }
}
