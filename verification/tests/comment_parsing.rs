//! `nx.parse_edgelist` treats `#` as a comment anywhere on a line: text from the
//! first `#` is dropped before tokenising. An inline `#` must not leak into a node
//! label, and a line left with fewer than two tokens is skipped.

use rsomics_reaching_centrality::io::parse_edges;
use rsomics_reaching_centrality::reaching::{level_sizes_all, reach_counts};

fn sorted_labels(text: &str, directed: bool) -> Vec<String> {
    let mut labels: Vec<String> = parse_edges(text, directed).unwrap().labels;
    labels.sort();
    labels
}

#[test]
fn inline_comment_matches_comment_free_graph() {
    // "1 2#c" -> edge (1,2), not a node "2#c"; "0 #x" -> single token -> skipped.
    let commented = "0 1\n1 2#c\n2 3\n0 #x\n";
    let clean = "0 1\n1 2\n2 3\n";

    assert_eq!(sorted_labels(commented, true), sorted_labels(clean, true));
    assert_eq!(
        sorted_labels(commented, true),
        vec!["0", "1", "2", "3"],
        "inline '#' must not create a spurious node"
    );

    // The reaching centralities are functions of the node order and of these
    // counts, so equal counts mean equal global reaching centrality.
    for directed in [true, false] {
        let a = parse_edges(commented, directed).unwrap();
        let b = parse_edges(clean, directed).unwrap();
        assert_eq!(a.labels, b.labels);
        assert_eq!(
            reach_counts(&a),
            reach_counts(&b),
            "reach counts diverge with an inline comment (directed={directed})"
        );
        assert_eq!(
            level_sizes_all(&a),
            level_sizes_all(&b),
            "distance layers diverge with an inline comment (directed={directed})"
        );
    }
}

#[test]
fn hash_stripped_mid_token() {
    // A single "u v#comment" line is one edge between exactly two nodes.
    let g = parse_edges("1 2#note\n", true).unwrap();
    let mut labels: Vec<&str> = g.labels.iter().map(|l| l.as_str()).collect();
    labels.sort();
    assert_eq!(labels, vec!["1", "2"]);
}
