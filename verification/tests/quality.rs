use swindex::betweenness::{pick_sources, shortest_paths, simple_adjacency};
use swindex::quality::{contingency, nmi_terms, NmiTerms};
use swindex::{
    Edge, EdgeKind, GmlSource, Graph, GraphSource, Node, NodeKind, Partition, SliceSource,
};

/// Zachary's karate club: the friendships of its 34 members, by their numbers.
const KARATE: [(usize, &[usize]); 26] = [
    (1, &[2, 3, 4, 5, 6, 7, 8, 9, 11, 12, 13, 14, 18, 20, 22, 32]),
    (2, &[3, 4, 8, 14, 18, 20, 22, 31]),
    (3, &[4, 8, 9, 10, 14, 28, 29, 33]),
    (4, &[8, 13, 14]),
    (5, &[7, 11]),
    (6, &[7, 11, 17]),
    (7, &[17]),
    (9, &[31, 33, 34]),
    (10, &[34]),
    (14, &[34]),
    (15, &[33, 34]),
    (16, &[33, 34]),
    (19, &[33, 34]),
    (20, &[34]),
    (21, &[33, 34]),
    (23, &[33, 34]),
    (24, &[26, 28, 30, 33, 34]),
    (25, &[26, 28, 32]),
    (26, &[32]),
    (27, &[30, 34]),
    (28, &[34]),
    (29, &[32, 34]),
    (30, &[33, 34]),
    (31, &[33, 34]),
    (32, &[33, 34]),
    (33, &[34]),
];

/// The karate club as a GML document.
fn karate_gml() -> String {
    let mut text = String::from("Creator \"karate club\"\ngraph [\n  directed 0\n");
    for id in 1..=34 {
        text.push_str(&format!("  node [ id {id} ]\n"));
    }
    for (a, friends) in KARATE {
        for b in friends {
            text.push_str(&format!("  edge [ source {b} target {a} ]\n"));
        }
    }
    text.push_str("]\n");
    text
}

/// The karate club, loaded.
fn karate() -> GmlSource {
    match GmlSource::from_str(&karate_gml(), &NodeKind::new("member"), &EdgeKind::new("friendship")) {
        Ok(source) => source,
        Err(e) => panic!("{}", e.to_string()),
    }
}

fn graph<G: GraphSource>(source: &G) -> Graph {
    match Graph::from_source(source) {
        Ok(g) => g,
        Err(e) => panic!("{}", e.to_string()),
    }
}

/// Normalized mutual information, from its integer terms.
fn nmi(a: &Partition, b: &Partition) -> f64 {
    let table = match nmi_terms(a, b) {
        NmiTerms::Full => return 1.0,
        NmiTerms::Zero => return 0.0,
        NmiTerms::Table(table) => table,
    };
    let n = table.nodes as f64;
    let entropy = |counts: &[usize]| -> f64 {
        let parts = counts.iter().filter(|&&m| m > 0).map(|&m| m as f64 / n);
        parts.map(|p| -p * p.ln()).sum()
    };
    let mut mi = 0.0;
    for (i, row) in table.table.iter().enumerate() {
        for (j, &c) in row.iter().enumerate() {
            if c > 0 {
                let c = c as f64;
                mi += c / n * (c * n / (table.rows[i] as f64 * table.columns[j] as f64)).ln();
            }
        }
    }
    (2.0 * mi / (entropy(&table.rows) + entropy(&table.columns))).clamp(0.0, 1.0)
}

/// Betweenness of each node: Brandes' dependencies, added up over the sources picked.
fn approximate_betweenness(graph: &Graph, samples: usize, seed: u64) -> Vec<f64> {
    let n = graph.node_count();
    let adj = simple_adjacency(graph);
    let sources = pick_sources(n, samples, seed);
    let mut centrality = vec![0.0_f64; n];
    for &s in &sources {
        let paths = shortest_paths(&adj, s);
        let mut sigma = vec![0.0_f64; n];
        let mut delta = vec![0.0_f64; n];
        sigma[s] = 1.0;
        for &w in &paths.order {
            for &v in &paths.preds[w] {
                sigma[w] += sigma[v];
            }
        }
        for &w in paths.order.iter().rev() {
            let coeff = (1.0 + delta[w]) / sigma[w];
            for &v in &paths.preds[w] {
                delta[v] += sigma[v] * coeff;
            }
            if w != s {
                centrality[w] += delta[w];
            }
        }
    }
    if !sources.is_empty() && sources.len() < n {
        let scale = n as f64 / sources.len() as f64;
        for c in &mut centrality {
            *c *= scale;
        }
    }
    centrality
}

#[test]
fn identical_partitions_score_one() {
    let a = Partition::new(vec![0, 0, 0, 1, 1, 1, 2, 2, 2]);
    let b = Partition::new(vec![0, 0, 0, 1, 1, 1, 2, 2, 2]);
    assert!((nmi(&a, &b) - 1.0).abs() < 1e-12);
}

#[test]
fn relabeled_partition_scores_one() {
    let a = Partition::new(vec![0, 0, 1, 1, 2, 2]);
    let b = Partition::new(vec![9, 9, 7, 7, 3, 3]);
    assert!((nmi(&a, &b) - 1.0).abs() < 1e-12);
}

#[test]
fn is_symmetric() {
    let a = Partition::new(vec![0, 0, 1, 1, 2, 0]);
    let b = Partition::new(vec![0, 1, 0, 1, 1, 1]);
    assert!((nmi(&a, &b) - nmi(&b, &a)).abs() < 1e-12);
}

#[test]
fn both_trivial_partitions_score_one() {
    let a = Partition::new(vec![0; 10]);
    let b = Partition::new(vec![0; 10]);
    assert!((nmi(&a, &b) - 1.0).abs() < 1e-12);
}

#[test]
fn one_trivial_one_split_scores_zero() {
    let a = Partition::new(vec![0; 10]);
    let b = Partition::new(vec![0, 0, 0, 0, 0, 1, 1, 1, 1, 1]);
    assert!(nmi(&a, &b).abs() < 1e-12);
}

#[test]
fn known_two_by_two_case() {
    let a = Partition::new(vec![0, 0, 1, 1]);
    let b = Partition::new(vec![0, 1, 0, 1]);
    let score = nmi(&a, &b);
    assert!(
        score.abs() < 1e-12,
        "expected NMI of 0 for orthogonal 2x2 split, got {score}"
    );
}

#[test]
fn nested_partition_scores_between_zero_and_one() {
    let a = Partition::new(vec![0, 0, 0, 0, 1, 1, 1, 1]);
    let b = Partition::new(vec![0, 0, 1, 1, 2, 2, 3, 3]);
    let score = nmi(&a, &b);
    assert!(
        score > 0.0 && score < 1.0,
        "expected 0 < NMI < 1 for refinement, got {score}"
    );
}

#[test]
fn vacuous_partitions_score_one() {
    let a = Partition::new(Vec::<usize>::new());
    let b = Partition::new(Vec::<usize>::new());
    assert!((nmi(&a, &b) - 1.0).abs() < 1e-12);
}

#[test]
fn contingency_counts_shared_members() {
    let a = Partition::new(vec![0, 0, 0, 1, 1]);
    let b = Partition::new(vec![0, 1, 1, 1, 2]);
    let c = contingency(&a, &b);
    assert_eq!(c.table, vec![vec![1, 2, 0], vec![0, 1, 1]]);
    assert_eq!(c.rows, vec![3, 2]);
    assert_eq!(c.columns, vec![1, 3, 1]);
    assert_eq!(c.nodes, 5);
}

fn bridge_of_two_cliques(clique_size: usize) -> (Vec<Node>, Vec<Edge>, usize) {
    let mut nodes: Vec<Node> = Vec::new();
    let mut edges: Vec<Edge> = Vec::new();

    for _ in 0..clique_size {
        nodes.push(Node::fresh(NodeKind::new("a")));
    }
    for _ in 0..clique_size {
        nodes.push(Node::fresh(NodeKind::new("b")));
    }
    let bridge_idx = 2 * clique_size;
    nodes.push(Node::fresh(NodeKind::new("bridge")));

    let kind = EdgeKind::new("e");
    for i in 0..clique_size {
        for j in (i + 1)..clique_size {
            edges.push(Edge::fresh(nodes[i].id, nodes[j].id, kind.clone()));
        }
    }
    for i in clique_size..2 * clique_size {
        for j in (i + 1)..2 * clique_size {
            edges.push(Edge::fresh(nodes[i].id, nodes[j].id, kind.clone()));
        }
    }
    edges.push(Edge::fresh(nodes[0].id, nodes[bridge_idx].id, kind.clone()));
    edges.push(Edge::fresh(
        nodes[clique_size].id,
        nodes[bridge_idx].id,
        kind.clone(),
    ));

    (nodes, edges, bridge_idx)
}

#[test]
fn empty_graph_yields_empty_scores() {
    let src = SliceSource::new(&[], &[]);
    let g = graph(&src);
    let scores = approximate_betweenness(&g, 10, 42);
    assert!(scores.is_empty());
}

#[test]
fn zero_samples_yields_all_zero_scores() {
    let (nodes, edges, _) = bridge_of_two_cliques(4);
    let src = SliceSource::new(&nodes, &edges);
    let g = graph(&src);
    let scores = approximate_betweenness(&g, 0, 42);
    assert_eq!(scores.len(), g.node_count());
    assert!(scores.iter().all(|&s| s == 0.0));
}

#[test]
fn bridge_node_has_max_betweenness_but_not_max_degree() {
    let (nodes, edges, bridge_local) = bridge_of_two_cliques(4);
    let src = SliceSource::new(&nodes, &edges);
    let g = graph(&src);
    let bridge = g.index_of(nodes[bridge_local].id).unwrap();

    let scores = approximate_betweenness(&g, g.node_count(), 0);

    let max_idx = (0..g.node_count())
        .max_by(|&a, &b| scores[a].partial_cmp(&scores[b]).unwrap())
        .unwrap();
    assert_eq!(
        max_idx, bridge,
        "bridge node {bridge} should have the highest betweenness, got {max_idx}"
    );

    let bridge_degree = g.degree(bridge);
    assert_eq!(bridge_degree, 2);
    for i in 0..g.node_count() {
        if i != bridge {
            assert!(
                g.degree(i) > bridge_degree,
                "every clique node should out-degree the bridge"
            );
        }
    }
}

#[test]
fn exact_run_is_seed_independent() {
    let (nodes, edges, _) = bridge_of_two_cliques(5);
    let src = SliceSource::new(&nodes, &edges);
    let g = graph(&src);
    let a = approximate_betweenness(&g, g.node_count(), 1);
    let b = approximate_betweenness(&g, g.node_count(), 999);
    assert_eq!(a, b);
}

#[test]
fn sampled_run_is_deterministic_for_a_fixed_seed() {
    let src = karate();
    let g = graph(&src);
    let a = approximate_betweenness(&g, 10, 12345);
    let b = approximate_betweenness(&g, 10, 12345);
    assert_eq!(a, b);
    let c = approximate_betweenness(&g, 10, 67890);
    assert_ne!(a, c);
}

#[test]
fn zachary_leaders_top_betweenness() {
    let src = karate();
    let g = graph(&src);
    let scores = approximate_betweenness(&g, g.node_count(), 0);

    let mut by_deg: Vec<(usize, u64)> = (0..g.node_count()).map(|i| (i, g.degree(i))).collect();
    by_deg.sort_by(|a, b| b.1.cmp(&a.1));
    let leader1 = by_deg[0].0;
    let leader2 = by_deg[1].0;

    let mut by_btw: Vec<(usize, f64)> = (0..g.node_count()).map(|i| (i, scores[i])).collect();
    by_btw.sort_by(|a, b| b.1.partial_cmp(&a.1).unwrap());
    let top4: Vec<usize> = by_btw.iter().take(4).map(|&(i, _)| i).collect();

    assert!(
        top4.contains(&leader1) && top4.contains(&leader2),
        "both community leaders ({leader1}, {leader2}) should be top-4 by betweenness; top4 = {top4:?}"
    );
}

#[test]
fn sources_are_distinct_and_ascending() {
    assert_eq!(pick_sources(5, 9, 3), vec![0, 1, 2, 3, 4]);
    assert_eq!(pick_sources(5, 0, 3), Vec::<usize>::new());
    let sources = pick_sources(100, 10, 7);
    assert_eq!(sources.len(), 10);
    assert!(sources.windows(2).all(|w| w[0] < w[1]));
    assert!(sources.iter().all(|&s| s < 100));
    assert_eq!(sources, pick_sources(100, 10, 7));
}

#[test]
fn shortest_paths_list_every_predecessor() {
    let kind = NodeKind::new("v");
    let nodes: Vec<Node> = (0..5).map(|_| Node::fresh(kind.clone())).collect();
    let mut edges = Vec::new();
    for (a, b) in [(0, 1), (0, 2), (1, 3), (2, 3), (1, 0), (3, 3)] {
        edges.push(Edge::fresh(nodes[a].id, nodes[b].id, EdgeKind::new("e")));
    }
    let adj = simple_adjacency(&graph(&SliceSource::new(&nodes, &edges)));
    assert_eq!(adj[3], vec![(1, 1), (2, 1)]);
    let paths = shortest_paths(&adj, 0);
    assert_eq!(paths.order, vec![0, 1, 2, 3]);
    assert_eq!(paths.dist, vec![Some(0), Some(1), Some(1), Some(2), None]);
    assert_eq!(paths.preds[3], vec![1, 2]);
    assert_eq!(paths.preds[4], Vec::<usize>::new());
}
