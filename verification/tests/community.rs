use std::collections::{BTreeSet, VecDeque};
use swindex::community::{local_moving_from, louvain_one_level, refine_partition};
use swindex::modularity::{modularity_internal, Ratio};
use swindex::weighted::WeightedGraph;
use swindex::{
    cluster_adjacency, leiden, leiden_seeded, louvain, louvain_seeded, modularity, Edge, EdgeKind,
    GmlSource, Graph, GraphSource, Node, NodeKind, Partition, SliceSource,
};

/// Zachary's karate club: the friendships of its 34 members, by their numbers.
const KARATE: [(usize, &[usize]); 26] = [
    (1, &[2, 3, 4, 5, 6, 7, 8, 9, 11, 12, 13, 14, 18, 20, 22, 32]),
    (2, &[3, 4, 8, 14, 18, 20, 22, 31]),
    (3, &[4, 8, 9, 10, 14, 28, 29, 33]),
    (4, &[8, 13, 14]),
    (5, &[7, 11]),
    (6, &[7, 11, 17]),
    (7, &[17]),
    (9, &[31, 33, 34]),
    (10, &[34]),
    (14, &[34]),
    (15, &[33, 34]),
    (16, &[33, 34]),
    (19, &[33, 34]),
    (20, &[34]),
    (21, &[33, 34]),
    (23, &[33, 34]),
    (24, &[26, 28, 30, 33, 34]),
    (25, &[26, 28, 32]),
    (26, &[32]),
    (27, &[30, 34]),
    (28, &[34]),
    (29, &[32, 34]),
    (30, &[33, 34]),
    (31, &[33, 34]),
    (32, &[33, 34]),
    (33, &[34]),
];

/// The karate club as a GML document.
fn karate_gml() -> String {
    let mut text = String::from("Creator \"karate club\"\ngraph [\n  directed 0\n");
    for id in 1..=34 {
        text.push_str(&format!("  node [ id {id} ]\n"));
    }
    for (a, friends) in KARATE {
        for b in friends {
            text.push_str(&format!("  edge [ source {b} target {a} ]\n"));
        }
    }
    text.push_str("]\n");
    text
}

/// The karate club, loaded.
fn karate() -> GmlSource {
    match GmlSource::from_str(&karate_gml(), &NodeKind::new("member"), &EdgeKind::new("friendship")) {
        Ok(source) => source,
        Err(e) => panic!("{}", e.to_string()),
    }
}

fn graph<G: GraphSource>(source: &G) -> Graph {
    match Graph::from_source(source) {
        Ok(g) => g,
        Err(e) => panic!("{}", e.to_string()),
    }
}

/// A ratio as a float; the ratio of an empty graph is zero.
fn quotient(q: Ratio) -> f64 {
    q.numerator as f64 / q.denominator as f64
}

fn community_is_connected(graph: &Graph, members: &[usize]) -> bool {
    if members.len() <= 1 {
        return true;
    }
    let member_set: BTreeSet<usize> = members.iter().copied().collect();
    let mut visited: BTreeSet<usize> = BTreeSet::new();
    let mut queue: VecDeque<usize> = VecDeque::new();
    queue.push_back(members[0]);
    visited.insert(members[0]);
    while let Some(u) = queue.pop_front() {
        for &(v, _) in graph.neighbors(u) {
            if member_set.contains(&v) && !visited.contains(&v) {
                visited.insert(v);
                queue.push_back(v);
            }
        }
    }
    visited.len() == members.len()
}

fn triangle() -> (Vec<Node>, Vec<Edge>) {
    let a = Node::fresh(NodeKind::new("v"));
    let b = Node::fresh(NodeKind::new("v"));
    let c = Node::fresh(NodeKind::new("v"));
    let edges = vec![
        Edge::fresh(a.id, b.id, EdgeKind::new("e")),
        Edge::fresh(b.id, c.id, EdgeKind::new("e")),
        Edge::fresh(c.id, a.id, EdgeKind::new("e")),
    ];
    (vec![a, b, c], edges)
}

fn two_disjoint_triangles() -> (Vec<Node>, Vec<Edge>) {
    let (mut n1, e1) = triangle();
    let (n2, e2) = triangle();
    n1.extend(n2);
    let edges: Vec<Edge> = e1.into_iter().chain(e2).collect();
    (n1, edges)
}

#[test]
fn empty_graph_has_zero_modularity() {
    let src = SliceSource::new(&[], &[]);
    let g = graph(&src);
    let p = Partition::new(Vec::new());
    assert_eq!(quotient(modularity(&g, &p)), 0.0);
}

#[test]
fn singleton_partition_of_triangle_has_negative_modularity() {
    let (nodes, edges) = triangle();
    let src = SliceSource::new(&nodes, &edges);
    let g = graph(&src);
    let p = Partition::new(vec![0, 1, 2]);
    let q = quotient(modularity(&g, &p));
    assert!(q < 0.0, "expected Q<0 for singleton partition, got {q}");
    assert!((q - (-1.0 / 3.0)).abs() < 1e-9, "expected Q of -1/3, got {q}");
}

#[test]
fn all_in_one_partition_of_triangle_has_zero_modularity() {
    let (nodes, edges) = triangle();
    let src = SliceSource::new(&nodes, &edges);
    let g = graph(&src);
    let p = Partition::new(vec![0, 0, 0]);
    let q = quotient(modularity(&g, &p));
    assert!((q - 0.0).abs() < 1e-9, "expected Q of 0, got {q}");
}

#[test]
fn two_disjoint_triangles_optimal_partition_has_q_half() {
    let (nodes, edges) = two_disjoint_triangles();
    let src = SliceSource::new(&nodes, &edges);
    let g = graph(&src);
    let p = Partition::new(vec![0, 0, 0, 1, 1, 1]);
    let q = quotient(modularity(&g, &p));
    assert!((q - 0.5).abs() < 1e-9, "expected Q of 0.5, got {q}");
}

#[test]
fn partition_renumbering_is_contiguous() {
    let p = Partition::new(vec![5, 17, 5, 99, 17]);
    assert_eq!(p.community_count(), 3);
    assert_eq!(p.community_of(0), 0);
    assert_eq!(p.community_of(1), 1);
    assert_eq!(p.community_of(2), 0);
    assert_eq!(p.community_of(3), 2);
    assert_eq!(p.community_of(4), 1);
}

#[test]
fn louvain_on_two_disjoint_triangles_finds_two_communities() {
    let (nodes, edges) = two_disjoint_triangles();
    let src = SliceSource::new(&nodes, &edges);
    let g = graph(&src);
    let p = louvain(&g);
    assert_eq!(p.community_count(), 2);
    let q = quotient(modularity(&g, &p));
    assert!(q > 0.49, "expected Q>0.49 for two-triangle case, got {q}");
}

#[test]
fn louvain_is_deterministic_for_a_fixed_seed() {
    let (nodes, edges) = two_disjoint_triangles();
    let src = SliceSource::new(&nodes, &edges);
    let g = graph(&src);
    let a = louvain_seeded(&g, 1234);
    let b = louvain_seeded(&g, 1234);
    assert_eq!(a, b);
}

#[test]
fn aggregation_preserves_modularity_exactly() {
    let (nodes, edges) = two_disjoint_triangles();
    let src = SliceSource::new(&nodes, &edges);
    let g = graph(&src);

    let original_p = Partition::new(vec![0, 0, 0, 1, 1, 1]);
    let original_q = quotient(modularity(&g, &original_p));

    let wg = WeightedGraph::from_graph(&g);
    let aggregated = wg.aggregate(&original_p);
    let singleton = Partition::new((0..aggregated.node_count()).collect());
    let aggregated_q = quotient(modularity_internal(&aggregated, &singleton));

    assert!(
        (original_q - aggregated_q).abs() < 1e-9,
        "modularity must be preserved by aggregation: original={original_q}, aggregated={aggregated_q}"
    );
}

#[test]
fn louvain_on_zachary_karate_club() {
    let src = karate();
    let g = graph(&src);
    assert_eq!(g.node_count(), 34);

    let p = louvain(&g);
    let q = quotient(modularity(&g, &p));

    assert!(
        q >= 0.38,
        "multi-level Louvain on Zachary should yield Q of at least 0.38, got Q = {q}"
    );

    assert!(
        (2..=6).contains(&p.community_count()),
        "expected 2..=6 communities after aggregation, got {}",
        p.community_count()
    );

    let seen: BTreeSet<usize> = p.iter().into_iter().collect();
    assert_eq!(seen.len(), p.community_count());
    assert_eq!(*seen.iter().min().unwrap(), 0);
    assert_eq!(*seen.iter().max().unwrap(), p.community_count() - 1);
}


#[test]
fn leiden_on_two_disjoint_triangles_finds_two_connected_communities() {
    let (nodes, edges) = two_disjoint_triangles();
    let src = SliceSource::new(&nodes, &edges);
    let g = graph(&src);
    let p = leiden(&g);
    assert_eq!(p.community_count(), 2);
    let q = quotient(modularity(&g, &p));
    assert!(q > 0.49, "expected Q>0.49, got {q}");
    for bucket in p.buckets() {
        assert!(community_is_connected(&g, &bucket));
    }
}

#[test]
fn leiden_is_deterministic_for_a_fixed_seed() {
    let (nodes, edges) = two_disjoint_triangles();
    let src = SliceSource::new(&nodes, &edges);
    let g = graph(&src);
    let a = leiden_seeded(&g, 1234);
    let b = leiden_seeded(&g, 1234);
    assert_eq!(a, b);
}

#[test]
fn leiden_on_zachary_karate_club() {
    let src = karate();
    let g = graph(&src);

    let p = leiden(&g);
    let q = quotient(modularity(&g, &p));

    assert!(
        q >= 0.38,
        "Leiden on Zachary should yield Q of at least 0.38, got Q = {q}"
    );
    assert!(
        (2..=6).contains(&p.community_count()),
        "expected 2..=6 communities, got {}",
        p.community_count()
    );

    for (cid, bucket) in p.buckets().iter().enumerate() {
        assert!(
            community_is_connected(&g, bucket),
            "Leiden community {cid} (size {}) is not internally connected",
            bucket.len()
        );
    }
}

#[test]
fn refine_partition_produces_subset_of_p() {
    let src = karate();
    let g = graph(&src);
    let wg = WeightedGraph::from_graph(&g);

    let p_labels = louvain_one_level(&wg, 42);
    let p = Partition::new(p_labels);
    let r = refine_partition(&wg, &p, 42);

    for (r_cid, r_members) in r.buckets().iter().enumerate() {
        if r_members.is_empty() {
            continue;
        }
        let first_p = p.community_of(r_members[0]);
        for &u in &r_members[1..] {
            assert_eq!(
                p.community_of(u),
                first_p,
                "R-community {r_cid} straddles P-communities ({first_p} vs {})",
                p.community_of(u)
            );
        }
    }
}

#[test]
fn cluster_adjacency_hand_computed_on_bridged_triangles() {
    let mk = |k: &str| Node::fresh(NodeKind::new(k));
    let nodes: Vec<Node> = (0..6).map(|_| mk("v")).collect();
    let e = EdgeKind::new("e");
    let mut edges = vec![
        Edge::fresh(nodes[0].id, nodes[1].id, e.clone()),
        Edge::fresh(nodes[1].id, nodes[2].id, e.clone()),
        Edge::fresh(nodes[2].id, nodes[0].id, e.clone()),
        Edge::fresh(nodes[3].id, nodes[4].id, e.clone()),
        Edge::fresh(nodes[4].id, nodes[5].id, e.clone()),
        Edge::fresh(nodes[5].id, nodes[3].id, e.clone()),
    ];
    edges.push(Edge::fresh(nodes[0].id, nodes[3].id, e.clone()));
    let src = SliceSource::new(&nodes, &edges);
    let g = graph(&src);
    let p = Partition::new(vec![0, 0, 0, 1, 1, 1]);

    let adj = cluster_adjacency(&g, &p);
    assert_eq!(adj.len(), 2);
    assert_eq!(adj[0], vec![(1, 1)]);
    assert_eq!(adj[1], vec![(0, 1)]);
}

#[test]
fn cluster_adjacency_disjoint_clusters_have_no_neighbors() {
    let mk = |k: &str| Node::fresh(NodeKind::new(k));
    let nodes: Vec<Node> = (0..6).map(|_| mk("v")).collect();
    let e = EdgeKind::new("e");
    let edges = vec![
        Edge::fresh(nodes[0].id, nodes[1].id, e.clone()),
        Edge::fresh(nodes[1].id, nodes[2].id, e.clone()),
        Edge::fresh(nodes[2].id, nodes[0].id, e.clone()),
        Edge::fresh(nodes[3].id, nodes[4].id, e.clone()),
        Edge::fresh(nodes[4].id, nodes[5].id, e.clone()),
        Edge::fresh(nodes[5].id, nodes[3].id, e.clone()),
    ];
    let src = SliceSource::new(&nodes, &edges);
    let g = graph(&src);
    let p = Partition::new(vec![0, 0, 0, 1, 1, 1]);

    let adj = cluster_adjacency(&g, &p);
    assert!(adj.iter().all(Vec::is_empty));
}

#[test]
fn cluster_adjacency_symmetric_and_complete_on_zachary() {
    let src = karate();
    let g = graph(&src);
    let p = leiden(&g);
    let adj = cluster_adjacency(&g, &p);

    for (c, ns) in adj.iter().enumerate() {
        for &(d, w) in ns {
            let (_, back) = adj[d]
                .iter()
                .find(|&&(e_, _)| e_ == c)
                .unwrap_or_else(|| panic!("edge {c}->{d} has no mirror"));
            assert_eq!(*back, w, "asymmetric weight {c}<->{d}");
        }
    }

    let mut inter: u64 = 0;
    for u in 0..g.node_count() {
        for &(v, w) in g.neighbors(u) {
            if v > u && p.community_of(u) != p.community_of(v) {
                inter += w;
            }
        }
    }
    let adj_total: u64 = adj.iter().flatten().map(|&(_, w)| w).sum();
    assert_eq!(adj_total, 2 * inter);
    assert!(inter > 0);
}

#[test]
fn modularity_is_an_exact_ratio() {
    let (nodes, edges) = triangle();
    let src = SliceSource::new(&nodes, &edges);
    let g = graph(&src);
    let q = modularity(&g, &Partition::new(vec![0, 1, 2]));
    assert_eq!((q.numerator, q.denominator), (-12, 36));
    let q = modularity(&g, &Partition::new(vec![0, 0, 1]));
    assert_eq!((q.numerator, q.denominator), (-8, 36));
    let q = modularity(&graph(&SliceSource::new(&[], &[])), &Partition::new(vec![]));
    assert_eq!((q.numerator, q.denominator), (0, 1));
}

#[test]
fn clustering_does_not_lose_modularity() {
    let g = graph(&karate());
    let singletons = Partition::new((0..g.node_count()).collect());
    let start = quotient(modularity(&g, &singletons));
    assert!(quotient(modularity(&g, &louvain(&g))) >= start);
    assert!(quotient(modularity(&g, &leiden(&g))) >= start);
}

#[test]
fn communities_stay_inside_components() {
    let (mut nodes, mut edges) = two_disjoint_triangles();
    let (more_nodes, more_edges) = triangle();
    nodes.extend(more_nodes);
    edges.extend(more_edges);
    let src = SliceSource::new(&nodes, &edges);
    let g = graph(&src);
    for seed in 0..20 {
        for p in [leiden_seeded(&g, seed), louvain_seeded(&g, seed)] {
            for bucket in p.buckets() {
                assert!(bucket.iter().all(|&u| u / 3 == bucket[0] / 3));
            }
        }
    }
}

#[test]
fn renumbering_is_idempotent() {
    let p = Partition::new(vec![4, 4, 0, 9, 0]);
    assert_eq!(p.iter(), vec![0, 0, 1, 2, 1]);
    assert_eq!(Partition::new(p.iter()), p);
    assert_eq!(p.buckets(), vec![vec![0, 1], vec![2, 4], vec![3]]);
    assert_eq!(p.node_count(), 5);
}

#[test]
fn aggregation_counts_inner_edges_as_self_loops() {
    let (nodes, edges) = triangle();
    let src = SliceSource::new(&nodes, &edges);
    let wg = WeightedGraph::from_graph(&graph(&src));
    let coarse = wg.aggregate(&Partition::new(vec![0, 0, 1]));
    assert_eq!(coarse.node_count(), 2);
    assert_eq!(coarse.twice_total_weight(), wg.twice_total_weight());
    assert_eq!(coarse.self_loop(0), 2);
    assert_eq!(coarse.neighbors(1), &vec![(0, 2)]);
}

#[test]
fn a_community_whose_link_left_is_divided() {
    let pairs = [
        (0, 9), (0, 13), (0, 14), (1, 7), (1, 9), (2, 8), (2, 9), (2, 14), (3, 8), (3, 9), (4, 9),
        (4, 11), (4, 14), (5, 10), (6, 8), (6, 13), (6, 15), (8, 10), (8, 11), (8, 13), (9, 10),
        (9, 12), (9, 14),
    ];
    let nodes: Vec<Node> = (0..16).map(|_| Node::fresh(NodeKind::new("v"))).collect();
    let edges: Vec<Edge> = pairs
        .iter()
        .map(|&(a, b)| Edge::fresh(nodes[a].id, nodes[b].id, EdgeKind::new("e")))
        .collect();
    let src = SliceSource::new(&nodes, &edges);
    let g = graph(&src);
    let buckets = leiden(&g).buckets();
    assert_eq!(
        buckets,
        vec![
            vec![0, 2, 3, 9, 12, 14],
            vec![1, 7],
            vec![4, 11],
            vec![5, 10],
            vec![6, 8, 13, 15],
        ]
    );
    for seed in 0..50 {
        for bucket in leiden_seeded(&g, seed).buckets() {
            assert!(community_is_connected(&g, &bucket), "seed {seed}: {bucket:?}");
        }
    }
}

#[test]
fn local_moving_starts_from_any_labels() {
    let (nodes, edges) = two_disjoint_triangles();
    let src = SliceSource::new(&nodes, &edges);
    let g = graph(&src);
    let wg = WeightedGraph::from_graph(&g);
    let initial = vec![usize::MAX, 7, 1_000_000, 3, 3, usize::MAX - 1];
    let before = quotient(modularity(&g, &Partition::new(initial.clone())));
    for seed in 0..10 {
        let labels = local_moving_from(&wg, initial.clone(), seed);
        assert_eq!(labels.len(), initial.len());
        assert!(labels.iter().all(|label| initial.contains(label)));
        let p = Partition::new(labels);
        assert!(quotient(modularity(&g, &p)) >= before);
        assert_eq!(p.iter(), vec![0, 0, 0, 1, 1, 1]);
    }
}

#[test]
fn local_moving_moves_nothing_without_edges() {
    let nodes: Vec<Node> = (0..4).map(|_| Node::fresh(NodeKind::new("v"))).collect();
    let src = SliceSource::new(&nodes, &[]);
    let wg = WeightedGraph::from_graph(&graph(&src));
    let initial = vec![9, usize::MAX, 0, 9];
    assert_eq!(local_moving_from(&wg, initial.clone(), 42), initial);
}

#[test]
fn refined_communities_are_connected_and_inside() {
    let g = graph(&karate());
    let wg = WeightedGraph::from_graph(&g);
    let all = Partition::new(vec![0; g.node_count()]);
    let halves = Partition::new((0..g.node_count()).map(|u| u % 2).collect());
    for p in [all, halves] {
        for seed in 0..30 {
            let r = refine_partition(&wg, &p, seed);
            for bucket in r.buckets() {
                assert!(community_is_connected(&g, &bucket), "seed {seed}: {bucket:?}");
                assert!(bucket.iter().all(|&u| p.community_of(u) == p.community_of(bucket[0])));
            }
        }
    }
}
