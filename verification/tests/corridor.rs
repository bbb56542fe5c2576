use swindex::{
    bfs_distance, cluster_adjacency, cluster_corridor, evaluate_corridor, leiden, Edge, EdgeKind,
    GmlSource, Graph, GraphSource, Node, NodeKind, Partition, SliceSource,
};

/// Zachary's karate club: the friendships of its 34 members, by their numbers.
const KARATE: [(usize, &[usize]); 26] = [
    (1, &[2, 3, 4, 5, 6, 7, 8, 9, 11, 12, 13, 14, 18, 20, 22, 32]),
    (2, &[3, 4, 8, 14, 18, 20, 22, 31]),
    (3, &[4, 8, 9, 10, 14, 28, 29, 33]),
    (4, &[8, 13, 14]),
    (5, &[7, 11]),
    (6, &[7, 11, 17]),
    (7, &[17]),
    (9, &[31, 33, 34]),
    (10, &[34]),
    (14, &[34]),
    (15, &[33, 34]),
    (16, &[33, 34]),
    (19, &[33, 34]),
    (20, &[34]),
    (21, &[33, 34]),
    (23, &[33, 34]),
    (24, &[26, 28, 30, 33, 34]),
    (25, &[26, 28, 32]),
    (26, &[32]),
    (27, &[30, 34]),
    (28, &[34]),
    (29, &[32, 34]),
    (30, &[33, 34]),
    (31, &[33, 34]),
    (32, &[33, 34]),
    (33, &[34]),
];

/// The karate club as a GML document.
fn karate_gml() -> String {
    let mut text = String::from("Creator \"karate club\"\ngraph [\n  directed 0\n");
    for id in 1..=34 {
        text.push_str(&format!("  node [ id {id} ]\n"));
    }
    for (a, friends) in KARATE {
        for b in friends {
            text.push_str(&format!("  edge [ source {b} target {a} ]\n"));
        }
    }
    text.push_str("]\n");
    text
}

/// The karate club, loaded.
fn karate() -> GmlSource {
    match GmlSource::from_str(&karate_gml(), &NodeKind::new("member"), &EdgeKind::new("friendship")) {
        Ok(source) => source,
        Err(e) => panic!("{}", e.to_string()),
    }
}

fn graph<G: GraphSource>(source: &G) -> Graph {
    match Graph::from_source(source) {
        Ok(g) => g,
        Err(e) => panic!("{}", e.to_string()),
    }
}

fn triangle_chain(count: usize) -> (Vec<Node>, Vec<Edge>) {
    let mk = |k: &str| Node::fresh(NodeKind::new(k));
    let e = EdgeKind::new("e");
    let nodes: Vec<Node> = (0..3 * count).map(|_| mk("v")).collect();
    let mut edges = Vec::new();
    for t in 0..count {
        let b = 3 * t;
        edges.push(Edge::fresh(nodes[b].id, nodes[b + 1].id, e.clone()));
        edges.push(Edge::fresh(nodes[b + 1].id, nodes[b + 2].id, e.clone()));
        edges.push(Edge::fresh(nodes[b + 2].id, nodes[b].id, e.clone()));
        if t > 0 {
            edges.push(Edge::fresh(nodes[3 * (t - 1)].id, nodes[b].id, e.clone()));
        }
    }
    (nodes, edges)
}

fn chain_partition(count: usize) -> Partition {
    let mut labels = Vec::with_capacity(3 * count);
    for t in 0..count {
        labels.extend([t, t, t]);
    }
    Partition::new(labels)
}

#[test]
fn two_bridged_triangles_hand_computed() {
    let (nodes, edges) = triangle_chain(2);
    let src = SliceSource::new(&nodes, &edges);
    let g = graph(&src);
    let p = chain_partition(2);

    let adj = cluster_adjacency(&g, &p);
    let corridor = cluster_corridor(&adj, 0, 1).unwrap();
    assert_eq!(corridor, vec![0, 1]);

    assert_eq!(bfs_distance(&g, 1, 4), Some(3));
    let report = evaluate_corridor(&g, &p, &corridor, 1, 4).unwrap();
    assert_eq!(report.member_count, 6);
    assert_eq!(report.global_dist, 3);
    assert_eq!(report.corridor_dist, Some(3));
    assert!(report.connected());
    assert!(report.optimal());
}

#[test]
fn three_cluster_chain_requires_the_middle() {
    let (nodes, edges) = triangle_chain(3);
    let src = SliceSource::new(&nodes, &edges);
    let g = graph(&src);
    let p = chain_partition(3);

    let adj = cluster_adjacency(&g, &p);
    let corridor = cluster_corridor(&adj, 0, 2).unwrap();
    assert_eq!(corridor, vec![0, 1, 2]);

    let full = evaluate_corridor(&g, &p, &corridor, 1, 7).unwrap();
    assert!(full.connected() && full.optimal());
    assert_eq!(full.member_count, 9);

    let gutted = evaluate_corridor(&g, &p, &vec![0, 2], 1, 7).unwrap();
    assert!(!gutted.connected());
    assert!(!gutted.optimal());
}

#[test]
fn disconnected_clusters_yield_no_corridor() {
    let (nodes, mut edges) = triangle_chain(2);
    edges.pop();
    let src = SliceSource::new(&nodes, &edges);
    let g = graph(&src);
    let p = chain_partition(2);

    let adj = cluster_adjacency(&g, &p);
    assert_eq!(cluster_corridor(&adj, 0, 1), None);
    assert_eq!(evaluate_corridor(&g, &p, &vec![0, 1], 0, 3), None);
    assert_eq!(bfs_distance(&g, 0, 3), None);
}

#[test]
fn same_cluster_pair_is_a_single_cluster_corridor() {
    let (nodes, edges) = triangle_chain(2);
    let src = SliceSource::new(&nodes, &edges);
    let g = graph(&src);
    let p = chain_partition(2);

    let adj = cluster_adjacency(&g, &p);
    let corridor = cluster_corridor(&adj, 1, 1).unwrap();
    assert_eq!(corridor, vec![1]);
    let report = evaluate_corridor(&g, &p, &corridor, 3, 5).unwrap();
    assert!(report.optimal());
    assert_eq!(report.member_count, 3);
}

#[test]
fn zachary_baseline_corridor_always_connected() {
    let src = karate();
    let g = graph(&src);
    let p = leiden(&g);
    let adj = cluster_adjacency(&g, &p);

    let n = g.node_count();
    let mut pairs = 0_usize;
    let mut optimal = 0_usize;
    for from in 0..n {
        for to in (from + 1)..n {
            let (cf, ct) = (p.community_of(from), p.community_of(to));
            if cf == ct {
                continue;
            }
            let corridor = cluster_corridor(&adj, cf, ct)
                .unwrap_or_else(|| panic!("no corridor {cf}->{ct} on connected Zachary"));
            let report =
                evaluate_corridor(&g, &p, &corridor, from, to).expect("Zachary is connected");
            assert!(
                report.connected(),
                "corridor {corridor:?} disconnects pair ({from},{to})"
            );
            pairs += 1;
            if report.optimal() {
                optimal += 1;
            }
        }
    }
    assert!(
        pairs > 100,
        "expected many cross-cluster pairs, got {pairs}"
    );
    let rate = optimal as f64 / pairs as f64;
    assert!(
        rate >= 0.70,
        "baseline optimal rate regressed: {optimal}/{pairs} = {rate:.3}"
    );
}

#[test]
fn distances_are_symmetric() {
    let g = graph(&karate());
    for u in 0..g.node_count() {
        for v in 0..g.node_count() {
            assert_eq!(bfs_distance(&g, u, v), bfs_distance(&g, v, u));
        }
    }
    assert_eq!(bfs_distance(&g, 5, 5), Some(0));
}

#[test]
fn corridor_prefers_the_lowest_cluster() {
    let adjacency = vec![vec![(1, 1), (2, 9)], vec![(0, 1), (3, 1)], vec![(0, 9), (3, 9)], vec![
        (1, 1),
        (2, 9),
    ]];
    assert_eq!(cluster_corridor(&adjacency, 0, 3), Some(vec![0, 1, 3]));
    assert_eq!(cluster_corridor(&adjacency, 2, 2), Some(vec![2]));
}

#[test]
fn a_corridor_is_no_shortcut() {
    let g = graph(&karate());
    let p = leiden(&g);
    let all: Vec<usize> = (0..p.community_count()).collect();
    for from in 0..g.node_count() {
        for to in 0..g.node_count() {
            let own = vec![p.community_of(from), p.community_of(to)];
            let report = evaluate_corridor(&g, &p, &own, from, to).unwrap();
            if let Some(steps) = report.corridor_dist {
                assert!(steps >= report.global_dist);
            }
            assert!(evaluate_corridor(&g, &p, &all, from, to).unwrap().optimal());
        }
    }
}
