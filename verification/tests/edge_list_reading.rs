use rsomics_reaching_centrality::io::{intern, parse_edges, Graph};
use rsomics_reaching_centrality::order::label_order;
use rsomics_reaching_centrality::Scope;

fn arcs(g: &Graph) -> Vec<(String, String)> {
    let mut out = Vec::new();
    for (u, list) in g.succ.iter().enumerate() {
        for &v in list {
            out.push((g.labels[u].clone(), g.labels[v as usize].clone()));
        }
    }
    out.sort();
    out
}

fn pair(a: &str, b: &str) -> (String, String) {
    (a.to_string(), b.to_string())
}

#[test]
fn labels_in_first_seen_order() {
    let g = parse_edges("c a\nb c\na d\n", true).unwrap();
    assert_eq!(g.labels, vec!["c", "a", "b", "d"]);
    assert_eq!(g.n(), 4);
    assert!(g.directed);
}

#[test]
fn self_loop_line_adds_nothing() {
    // The self-loop's label is never interned.
    let g = parse_edges("x x\na b\n", true).unwrap();
    assert_eq!(g.labels, vec!["a", "b"]);
    assert_eq!(arcs(&g), vec![pair("a", "b")]);
}

#[test]
fn parallel_edges_collapse() {
    let g = parse_edges("a b\na b\nb a\n", true).unwrap();
    assert_eq!(g.succ, vec![vec![1], vec![0]]);
    let u = parse_edges("a b\na b\nb a\n", false).unwrap();
    assert_eq!(u.succ, vec![vec![1], vec![0]]);
    assert!(!u.directed);
}

#[test]
fn undirected_read_adds_reverse_arcs() {
    let g = parse_edges("a b\nb c\n", false).unwrap();
    assert_eq!(
        arcs(&g),
        vec![pair("a", "b"), pair("b", "a"), pair("b", "c"), pair("c", "b")]
    );
}

#[test]
fn blank_comment_and_short_lines_skipped() {
    let g = parse_edges("\n# header\n   \nlonely\na b # trailing\n\t#x y\n", true).unwrap();
    assert_eq!(g.labels, vec!["a", "b"]);
    assert_eq!(arcs(&g), vec![pair("a", "b")]);
}

#[test]
fn extra_tokens_ignored_and_ascii_whitespace_separates() {
    let g = parse_edges("a\tb weight=3 x\r\nc  \x0c d\r\n", true).unwrap();
    assert_eq!(g.labels, vec!["a", "b", "c", "d"]);
    assert_eq!(arcs(&g), vec![pair("a", "b"), pair("c", "d")]);
}

#[test]
fn last_line_without_newline_is_read() {
    let g = parse_edges("a b\nc d", true).unwrap();
    assert_eq!(arcs(&g), vec![pair("a", "b"), pair("c", "d")]);
}

#[test]
fn unicode_whitespace_trimmed_only_at_line_ends() {
    // No-break space (U+00A0) is trimmed at the ends of a line but does not
    // separate tokens inside it.
    let g = parse_edges("\u{a0}a b\u{a0}\nc\u{a0}d e\n", true).unwrap();
    assert_eq!(g.labels, vec!["a", "b", "c\u{a0}d", "e"]);
}

#[test]
fn empty_text_gives_empty_graph() {
    let g = parse_edges("", false).unwrap();
    assert_eq!(g.n(), 0);
    assert!(g.succ.is_empty());
}

#[test]
fn intern_reuses_known_labels() {
    let mut labels: Vec<String> = Vec::new();
    let mut index = vstd::hash_map::StringHashMap::<u32>::new();
    assert_eq!(intern(&mut labels, &mut index, "x"), 0);
    assert_eq!(intern(&mut labels, &mut index, "y"), 1);
    assert_eq!(intern(&mut labels, &mut index, "x"), 0);
    assert_eq!(labels, vec!["x", "y"]);
}

#[test]
fn scope_variants_differ() {
    assert_eq!(Scope::Global, Scope::Global);
    assert_ne!(Scope::Global, Scope::Local);
}

#[test]
fn label_order_sorts_by_code_point() {
    let labels: Vec<String> = ["b", "a10", "a2", "B", "é", "a", ""]
        .iter()
        .map(|s| s.to_string())
        .collect();
    let order = label_order(&labels);
    let sorted: Vec<&str> = order.iter().map(|&i| labels[i].as_str()).collect();
    let mut expected: Vec<&str> = labels.iter().map(|s| s.as_str()).collect();
    expected.sort();
    assert_eq!(sorted, expected);
    assert_eq!(order, vec![6, 3, 5, 1, 2, 0, 4]);
}

#[test]
fn label_order_breaks_ties_by_index() {
    let labels: Vec<String> = ["x", "a", "x", "a"].iter().map(|s| s.to_string()).collect();
    assert_eq!(label_order(&labels), vec![1, 3, 0, 2]);
}

#[test]
fn undirected_read_is_directed_plus_reversals() {
    let text = "a b\nb c\nc a\nd b\n";
    let gd = parse_edges(text, true).unwrap();
    let gu = parse_edges(text, false).unwrap();
    assert_eq!(gu.labels, gd.labels);
    for u in 0..gd.n() {
        for v in 0..gd.n() {
            let (u32u, u32v) = (u as u32, v as u32);
            assert_eq!(
                gu.succ[u].contains(&u32v),
                gd.succ[u].contains(&u32v) || gd.succ[v].contains(&u32u)
            );
        }
    }
}
