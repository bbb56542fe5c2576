use swindex::betweenness::{pick_sources, shortest_paths, simple_adjacency};
use swindex::{
    Edge, EdgeKind, Fraction, GmlSource, Graph, GraphSource, HubSet, Node, NodeKind, SliceSource,
};

/// Zachary's karate club: the friendships of its 34 members, by their numbers.
const KARATE: [(usize, &[usize]); 26] = [
    (1, &[2, 3, 4, 5, 6, 7, 8, 9, 11, 12, 13, 14, 18, 20, 22, 32]),
    (2, &[3, 4, 8, 14, 18, 20, 22, 31]),
    (3, &[4, 8, 9, 10, 14, 28, 29, 33]),
    (4, &[8, 13, 14]),
    (5, &[7, 11]),
    (6, &[7, 11, 17]),
    (7, &[17]),
    (9, &[31, 33, 34]),
    (10, &[34]),
    (14, &[34]),
    (15, &[33, 34]),
    (16, &[33, 34]),
    (19, &[33, 34]),
    (20, &[34]),
    (21, &[33, 34]),
    (23, &[33, 34]),
    (24, &[26, 28, 30, 33, 34]),
    (25, &[26, 28, 32]),
    (26, &[32]),
    (27, &[30, 34]),
    (28, &[34]),
    (29, &[32, 34]),
    (30, &[33, 34]),
    (31, &[33, 34]),
    (32, &[33, 34]),
    (33, &[34]),
];

/// The karate club as a GML document.
fn karate_gml() -> String {
    let mut text = String::from("Creator \"karate club\"\ngraph [\n  directed 0\n");
    for id in 1..=34 {
        text.push_str(&format!("  node [ id {id} ]\n"));
    }
    for (a, friends) in KARATE {
        for b in friends {
            text.push_str(&format!("  edge [ source {b} target {a} ]\n"));
        }
    }
    text.push_str("]\n");
    text
}

/// The karate club, loaded.
fn karate() -> GmlSource {
    match GmlSource::from_str(&karate_gml(), &NodeKind::new("member"), &EdgeKind::new("friendship")) {
        Ok(source) => source,
        Err(e) => panic!("{}", e.to_string()),
    }
}

fn graph<G: GraphSource>(source: &G) -> Graph {
    match Graph::from_source(source) {
        Ok(g) => g,
        Err(e) => panic!("{}", e.to_string()),
    }
}

/// Betweenness of each node: Brandes' dependencies, added up over the sources picked.
fn approximate_betweenness(graph: &Graph, samples: usize, seed: u64) -> Vec<f64> {
    let n = graph.node_count();
    let adj = simple_adjacency(graph);
    let sources = pick_sources(n, samples, seed);
    let mut centrality = vec![0.0_f64; n];
    for &s in &sources {
        let paths = shortest_paths(&adj, s);
        let mut sigma = vec![0.0_f64; n];
        let mut delta = vec![0.0_f64; n];
        sigma[s] = 1.0;
        for &w in &paths.order {
            for &v in &paths.preds[w] {
                sigma[w] += sigma[v];
            }
        }
        for &w in paths.order.iter().rev() {
            let coeff = (1.0 + delta[w]) / sigma[w];
            for &v in &paths.preds[w] {
                delta[v] += sigma[v] * coeff;
            }
            if w != s {
                centrality[w] += delta[w];
            }
        }
    }
    if !sources.is_empty() && sources.len() < n {
        let scale = n as f64 / sources.len() as f64;
        for c in &mut centrality {
            *c *= scale;
        }
    }
    centrality
}

fn fraction(numerator: u64, denominator: u64) -> Fraction {
    Fraction { numerator, denominator }
}

fn tenth() -> Fraction {
    fraction(1, 10)
}

/// The hubs by betweenness over all sources: the bits of a float that is not negative
/// order as the float does.
fn centrality_hubs_of(graph: &Graph, fraction: Fraction) -> HubSet {
    let scores = approximate_betweenness(graph, graph.node_count(), 0);
    let bits: Vec<u64> = scores.iter().map(|s| s.to_bits()).collect();
    HubSet::from_centrality(graph, &bits, fraction)
}

fn star_graph(spokes: usize) -> (Vec<Node>, Vec<Edge>) {
    let center = Node::fresh(NodeKind::new("hub"));
    let mut nodes = vec![center.clone()];
    let mut edges = Vec::new();
    for _ in 0..spokes {
        let leaf = Node::fresh(NodeKind::new("leaf"));
        edges.push(Edge::fresh(center.id, leaf.id, EdgeKind::new("connects")));
        nodes.push(leaf);
    }
    (nodes, edges)
}

#[test]
fn empty_graph_has_no_hubs() {
    let src = SliceSource::new(&[], &[]);
    let g = graph(&src);
    let hubs = HubSet::from_top_fraction(&g, tenth());
    assert!(hubs.is_empty());
    assert_eq!(hubs.len(), 0);
}

#[test]
fn zero_fraction_yields_empty_set() {
    let (nodes, edges) = star_graph(10);
    let src = SliceSource::new(&nodes, &edges);
    let g = graph(&src);
    let hubs = HubSet::from_top_fraction(&g, fraction(0, 1));
    assert!(hubs.is_empty());
}

#[test]
fn full_fraction_yields_every_node() {
    let (nodes, edges) = star_graph(10);
    let src = SliceSource::new(&nodes, &edges);
    let g = graph(&src);
    let hubs = HubSet::from_top_fraction(&g, fraction(1, 1));
    assert_eq!(hubs.len(), g.node_count());
    for i in 0..g.node_count() {
        assert!(hubs.contains(i));
    }
}

#[test]
fn small_fraction_rounds_up_to_at_least_one() {
    let (nodes, edges) = star_graph(9);
    let src = SliceSource::new(&nodes, &edges);
    let g = graph(&src);
    let hubs = HubSet::from_top_fraction(&g, fraction(1, 100));
    assert_eq!(hubs.len(), 1);
}

#[test]
fn star_center_is_the_first_hub() {
    let (nodes, edges) = star_graph(20);
    let src = SliceSource::new(&nodes, &edges);
    let g = graph(&src);

    let center_idx = g.index_of(nodes[0].id).unwrap();
    assert_eq!(g.degree(center_idx), 20);

    let hubs = HubSet::from_top_fraction(&g, tenth());
    assert!(
        hubs.contains(center_idx),
        "star center must be in the top 10% by degree"
    );
}

#[test]
fn degree_threshold_filters_by_absolute_value() {
    let (nodes, edges) = star_graph(5);
    let src = SliceSource::new(&nodes, &edges);
    let g = graph(&src);
    let hubs = HubSet::from_degree_threshold(&g, 3);
    assert_eq!(hubs.len(), 1);
    let all = HubSet::from_degree_threshold(&g, 0);
    assert_eq!(all.len(), g.node_count());
}

#[test]
fn iter_is_sorted() {
    let hubs = HubSet::from_indices(&[5, 1, 9, 3, 1]);
    let collected: Vec<usize> = hubs.iter();
    assert_eq!(collected, vec![1, 3, 5, 9]);
}

#[test]
fn from_indices_deduplicates() {
    let hubs = HubSet::from_indices(&[2, 2, 5, 5, 5, 1]);
    assert_eq!(hubs.len(), 3);
    let collected: Vec<usize> = hubs.iter();
    assert_eq!(collected, vec![1, 2, 5]);
}

#[test]
fn zachary_top_hubs_include_mr_hi_and_officer() {
    let src = karate();
    let g = graph(&src);
    assert_eq!(g.node_count(), 34);

    let mut by_deg: Vec<(usize, u64)> = (0..g.node_count()).map(|i| (i, g.degree(i))).collect();
    by_deg.sort_by(|a, b| b.1.cmp(&a.1));
    let top1 = by_deg[0].0;
    let top2 = by_deg[1].0;
    assert!(
        by_deg[0].1 >= 16,
        "expected top degree >= 16, got {}",
        by_deg[0].1
    );

    let hubs = HubSet::from_top_fraction(&g, tenth());
    assert_eq!(
        hubs.len(),
        4,
        "expected 4 hubs at top 10%, got {}",
        hubs.len()
    );
    assert!(
        hubs.contains(top1) && hubs.contains(top2),
        "the two highest-degree nodes must be in the hub set"
    );
}

#[test]
fn zachary_centrality_hubs_agree_with_degree_hubs() {
    let src = karate();
    let g = graph(&src);

    let degree_hubs = HubSet::from_top_fraction(&g, fraction(1, 3));
    let centrality_hubs = centrality_hubs_of(&g, fraction(1, 3));

    assert_eq!(
        degree_hubs.len(),
        centrality_hubs.len(),
        "both criteria round to the same cut size"
    );
    let k = degree_hubs.len();
    let overlap = centrality_hubs
        .iter()
        .into_iter()
        .filter(|&i| degree_hubs.contains(i))
        .count();
    let agreement = overlap as f64 / k as f64;
    assert!(
        agreement >= 0.80,
        "centrality/degree hub agreement on Zachary was {agreement:.2} ({overlap}/{k}); expected at least 0.80"
    );
}

#[test]
fn bridge_node_is_a_centrality_hub_but_not_a_degree_hub() {
    let mut nodes: Vec<Node> = Vec::new();
    let mut edges: Vec<Edge> = Vec::new();
    let kind = EdgeKind::new("e");
    for _ in 0..10 {
        nodes.push(Node::fresh(NodeKind::new("clique")));
    }
    let bridge = Node::fresh(NodeKind::new("bridge"));
    for (lo, hi) in [(0, 5), (5, 10)] {
        for i in lo..hi {
            for j in (i + 1)..hi {
                edges.push(Edge::fresh(nodes[i].id, nodes[j].id, kind.clone()));
            }
        }
    }
    edges.push(Edge::fresh(nodes[0].id, bridge.id, kind.clone()));
    edges.push(Edge::fresh(nodes[5].id, bridge.id, kind.clone()));
    nodes.push(bridge.clone());

    let src = SliceSource::new(&nodes, &edges);
    let g = graph(&src);
    let bridge_idx = g.index_of(bridge.id).unwrap();

    let degree_hub = HubSet::from_top_fraction(&g, fraction(1, 20));
    let centrality_hub = centrality_hubs_of(&g, fraction(1, 20));
    assert_eq!(degree_hub.len(), 1);
    assert_eq!(centrality_hub.len(), 1);

    assert!(
        centrality_hub.contains(bridge_idx),
        "betweenness must pick the bridge node as the #1 hub"
    );
    assert!(
        !degree_hub.contains(bridge_idx),
        "degree must NOT pick the (lowest-degree) bridge node"
    );
}

#[test]
fn top_fraction_breaks_ties_by_index() {
    let (nodes, edges) = star_graph(9);
    let src = SliceSource::new(&nodes, &edges);
    let g = graph(&src);
    assert_eq!(HubSet::from_top_fraction(&g, fraction(3, 10)).iter(), vec![0, 1, 2]);
    assert_eq!(HubSet::from_top_fraction(&g, fraction(31, 100)).iter(), vec![0, 1, 2, 3]);
    assert_eq!(HubSet::from_top_fraction(&g, fraction(5, 1)).len(), 10);
}

#[test]
fn both_criteria_choose_hubs_together() {
    let nodes: Vec<Node> = (0..5).map(|_| Node::fresh(NodeKind::new("v"))).collect();
    let edges: Vec<Edge> = [(0, 1), (0, 2), (0, 3), (3, 4)]
        .iter()
        .map(|&(a, b)| Edge::fresh(nodes[a].id, nodes[b].id, EdgeKind::new("e")))
        .collect();
    let src = SliceSource::new(&nodes, &edges);
    let g = Graph::from_source(&src).unwrap();
    let fifth = Fraction { numerator: 1, denominator: 5 };
    let scores = vec![0, 0, 0, 0, 9];
    assert_eq!(HubSet::from_degree_and_centrality(&g, &scores, fifth).iter(), vec![0, 4]);
    let same = vec![9, 0, 0, 0, 0];
    assert_eq!(HubSet::from_degree_and_centrality(&g, &same, fifth).iter(), vec![0]);
    let none = Fraction { numerator: 0, denominator: 1 };
    assert!(HubSet::from_degree_and_centrality(&g, &scores, none).is_empty());
}
