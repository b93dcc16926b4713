use rsomics_reaching_centrality::io::parse_edges;
use rsomics_reaching_centrality::reaching::{level_sizes_all, reach_counts, Bfs};

#[test]
fn path_reach_counts_directed() {
    // a -> b -> c -> d
    let g = parse_edges("a b\nb c\nc d\n", true).unwrap();
    assert_eq!(reach_counts(&g), vec![3, 2, 1, 0]);
}

#[test]
fn dag_reach_counts_directed() {
    let g = parse_edges("a b\na c\nb d\nc d\nd e\nd f\n", true).unwrap();
    // labels: a b c d e f
    assert_eq!(reach_counts(&g), vec![5, 3, 3, 2, 0, 0]);
}

#[test]
fn cycle_reaches_everything() {
    let g = parse_edges("a b\nb c\nc d\nd a\n", true).unwrap();
    assert_eq!(reach_counts(&g), vec![3, 3, 3, 3]);
}

#[test]
fn path_distance_layers_undirected() {
    let g = parse_edges("a b\nb c\nc d\n", false).unwrap();
    assert_eq!(
        level_sizes_all(&g),
        vec![vec![1, 1, 1], vec![2, 1], vec![2, 1], vec![1, 1, 1]]
    );
}

#[test]
fn star_distance_layers_directed() {
    let g = parse_edges("s a\ns b\ns c\ns d\n", true).unwrap();
    assert_eq!(
        level_sizes_all(&g),
        vec![vec![4], vec![], vec![], vec![], vec![]]
    );
}

#[test]
fn layers_add_up_to_reach_count() {
    let g = parse_edges("a b\na c\nb d\nc d\nd e\nd f\ne a\n", true).unwrap();
    let counts = reach_counts(&g);
    let layers = level_sizes_all(&g);
    for (c, l) in counts.iter().zip(layers.iter()) {
        assert_eq!(*c, l.iter().sum::<usize>());
    }
}

#[test]
fn undirected_reach_is_symmetric() {
    // Two components: {a, b, c} and {x, y}.
    let g = parse_edges("a b\nb c\nx y\n", false).unwrap();
    assert_eq!(reach_counts(&g), vec![2, 2, 2, 1, 1]);
}

#[test]
fn single_source_count_matches_batch() {
    let g = parse_edges("a b\na c\nb d\nc d\nd e\nd f\n", true).unwrap();
    let batch = reach_counts(&g);
    let layers = level_sizes_all(&g);
    let mut shared = Bfs::new(g.n());
    for v in 0..g.n() {
        let mut fresh = Bfs::new(g.n());
        assert_eq!(fresh.reachable_count(&g, v as u32), batch[v]);
        assert_eq!(shared.reachable_count(&g, v as u32), batch[v]);
        assert_eq!(shared.level_sizes(&g, v as u32), layers[v]);
    }
}
