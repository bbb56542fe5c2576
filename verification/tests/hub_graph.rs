use swindex::{
    leiden, regions_from_clusters, Edge, EdgeKind, Fraction, GmlSource, Graph, GraphSource,
    HubGraph, HubSet, Node, NodeKind, Partition, RegionGraph, SliceSource,
};

/// Zachary's karate club: the friendships of its 34 members, by their numbers.
const KARATE: [(usize, &[usize]); 26] = [
    (1, &[2, 3, 4, 5, 6, 7, 8, 9, 11, 12, 13, 14, 18, 20, 22, 32]),
    (2, &[3, 4, 8, 14, 18, 20, 22, 31]),
    (3, &[4, 8, 9, 10, 14, 28, 29, 33]),
    (4, &[8, 13, 14]),
    (5, &[7, 11]),
    (6, &[7, 11, 17]),
    (7, &[17]),
    (9, &[31, 33, 34]),
    (10, &[34]),
    (14, &[34]),
    (15, &[33, 34]),
    (16, &[33, 34]),
    (19, &[33, 34]),
    (20, &[34]),
    (21, &[33, 34]),
    (23, &[33, 34]),
    (24, &[26, 28, 30, 33, 34]),
    (25, &[26, 28, 32]),
    (26, &[32]),
    (27, &[30, 34]),
    (28, &[34]),
    (29, &[32, 34]),
    (30, &[33, 34]),
    (31, &[33, 34]),
    (32, &[33, 34]),
    (33, &[34]),
];

/// The karate club as a GML document.
fn karate_gml() -> String {
    let mut text = String::from("Creator \"karate club\"\ngraph [\n  directed 0\n");
    for id in 1..=34 {
        text.push_str(&format!("  node [ id {id} ]\n"));
    }
    for (a, friends) in KARATE {
        for b in friends {
            text.push_str(&format!("  edge [ source {b} target {a} ]\n"));
        }
    }
    text.push_str("]\n");
    text
}

/// The karate club, loaded.
fn karate() -> GmlSource {
    match GmlSource::from_str(&karate_gml(), &NodeKind::new("member"), &EdgeKind::new("friendship")) {
        Ok(source) => source,
        Err(e) => panic!("{}", e.to_string()),
    }
}

fn graph<G: GraphSource>(source: &G) -> Graph {
    match Graph::from_source(source) {
        Ok(g) => g,
        Err(e) => panic!("{}", e.to_string()),
    }
}

fn tenth() -> Fraction {
    Fraction { numerator: 1, denominator: 10 }
}

/// Each link with its weight, the inverse of its hops.
fn weighted(links: &[(usize, usize)]) -> Vec<(usize, f64)> {
    links.iter().map(|&(hub, hops)| (hub, 1.0 / hops as f64)).collect()
}

fn path_graph(n: usize) -> (Vec<Node>, Vec<Edge>) {
    let nodes: Vec<Node> = (0..n).map(|_| Node::fresh(NodeKind::new("p"))).collect();
    let edges: Vec<Edge> = (0..n.saturating_sub(1))
        .map(|i| Edge::fresh(nodes[i].id, nodes[i + 1].id, EdgeKind::new("e")))
        .collect();
    (nodes, edges)
}

#[test]
fn empty_hub_set_yields_empty_hub_graph() {
    let (nodes, edges) = path_graph(5);
    let src = SliceSource::new(&nodes, &edges);
    let g = graph(&src);
    let hubs = HubSet::empty();
    let hg = HubGraph::build(&g, &hubs, 3);
    assert!(hg.is_empty());
    assert_eq!(hg.hub_count(), 0);
    assert_eq!(hg.edge_count(), 0);
}

#[test]
fn single_hub_has_no_neighbors() {
    let (nodes, edges) = path_graph(5);
    let src = SliceSource::new(&nodes, &edges);
    let g = graph(&src);
    let only = g.index_of(nodes[2].id).unwrap();
    let hubs = HubSet::from_indices(&[only]);
    let hg = HubGraph::build(&g, &hubs, 3);
    assert_eq!(hg.hub_count(), 1);
    assert!(hg.contains(only));
    assert_eq!(hg.neighbors(only).len(), 0);
    assert_eq!(hg.edge_count(), 0);
}

#[test]
fn directly_adjacent_hubs_have_weight_one() {
    let (nodes, edges) = path_graph(2);
    let src = SliceSource::new(&nodes, &edges);
    let g = graph(&src);
    let a = g.index_of(nodes[0].id).unwrap();
    let b = g.index_of(nodes[1].id).unwrap();
    let hubs = HubSet::from_indices(&[a, b]);
    let hg = HubGraph::build(&g, &hubs, 3);

    let a_neighbors = weighted(&hg.neighbors(a));
    assert_eq!(a_neighbors, vec![(b, 1.0)]);
    let b_neighbors = weighted(&hg.neighbors(b));
    assert_eq!(b_neighbors, vec![(a, 1.0)]);
}

#[test]
fn hubs_with_one_intermediate_have_weight_one_half() {
    let (nodes, edges) = path_graph(3);
    let src = SliceSource::new(&nodes, &edges);
    let g = graph(&src);
    let a = g.index_of(nodes[0].id).unwrap();
    let c = g.index_of(nodes[2].id).unwrap();
    let hubs = HubSet::from_indices(&[a, c]);
    let hg = HubGraph::build(&g, &hubs, 3);

    let a_neighbors = weighted(&hg.neighbors(a));
    assert_eq!(a_neighbors, vec![(c, 0.5)]);
    let c_neighbors = weighted(&hg.neighbors(c));
    assert_eq!(c_neighbors, vec![(a, 0.5)]);
}

#[test]
fn hubs_beyond_k_hop_are_not_connected() {
    let (nodes, edges) = path_graph(5);
    let src = SliceSource::new(&nodes, &edges);
    let g = graph(&src);
    let a = g.index_of(nodes[0].id).unwrap();
    let e = g.index_of(nodes[4].id).unwrap();
    let hubs = HubSet::from_indices(&[a, e]);
    let hg = HubGraph::build(&g, &hubs, 3);

    assert_eq!(hg.hub_count(), 2);
    assert_eq!(hg.neighbors(a).len(), 0);
    assert_eq!(hg.neighbors(e).len(), 0);
    assert_eq!(hg.edge_count(), 0);
}

#[test]
fn k_hop_zero_yields_isolated_hubs() {
    let (nodes, edges) = path_graph(3);
    let src = SliceSource::new(&nodes, &edges);
    let g = graph(&src);
    let a = g.index_of(nodes[0].id).unwrap();
    let c = g.index_of(nodes[2].id).unwrap();
    let hubs = HubSet::from_indices(&[a, c]);
    let hg = HubGraph::build(&g, &hubs, 0);
    assert_eq!(hg.hub_count(), 2);
    assert_eq!(hg.edge_count(), 0);
}

#[test]
fn hub_graph_is_symmetric() {
    let src = karate();
    let g = graph(&src);
    let hubs = HubSet::from_top_fraction(&g, tenth());
    let hg = HubGraph::build(&g, &hubs, 3);

    for h in hg.iter_hubs() {
        for (n, w) in weighted(&hg.neighbors(h)) {
            let reverse = weighted(&hg.neighbors(n));
            let found = reverse.iter().find(|&&(x, _)| x == h);
            assert!(
                found.is_some(),
                "asymmetry: {h}->{n} weight {w} but reverse missing"
            );
            let (_, rw) = *found.unwrap();
            assert_eq!(rw, w, "asymmetric weights: {h}->{n}={w} vs {n}->{h}={rw}");
        }
    }
}

#[test]
fn zachary_hub_graph_is_fully_connected_within_three_hops() {
    let src = karate();
    let g = graph(&src);
    let hubs = HubSet::from_top_fraction(&g, tenth());
    let hg = HubGraph::build(&g, &hubs, 3);

    assert_eq!(hubs.len(), 4);
    assert_eq!(hg.hub_count(), 4);
    assert_eq!(hg.edge_count(), 12);
    for h in hubs.iter() {
        assert_eq!(
            hg.neighbors(h).len(),
            3,
            "hub {h} should connect to 3 other hubs"
        );
    }
}

#[test]
fn links_count_the_hops_of_a_shortest_path() {
    let (nodes, mut edges) = path_graph(4);
    edges.push(Edge::fresh(nodes[0].id, nodes[3].id, EdgeKind::new("e")));
    let src = SliceSource::new(&nodes, &edges);
    let g = graph(&src);
    let hubs = HubSet::from_indices(&[0, 2, 3]);
    let hg = HubGraph::build(&g, &hubs, 2);
    assert_eq!(hg.iter_hubs(), vec![0, 2, 3]);
    assert_eq!(hg.neighbors(0), vec![(2, 2), (3, 1)]);
    assert_eq!(hg.neighbors(2), vec![(0, 2), (3, 1)]);
    assert_eq!(hg.neighbors(1), Vec::new());
    assert_eq!(hg.edge_count(), 6);
    assert!(!hg.contains(1));
}

fn triangle() -> (Vec<Node>, Vec<Edge>) {
    let a = Node::fresh(NodeKind::new("v"));
    let b = Node::fresh(NodeKind::new("v"));
    let c = Node::fresh(NodeKind::new("v"));
    let edges = vec![
        Edge::fresh(a.id, b.id, EdgeKind::new("e")),
        Edge::fresh(b.id, c.id, EdgeKind::new("e")),
        Edge::fresh(c.id, a.id, EdgeKind::new("e")),
    ];
    (vec![a, b, c], edges)
}

fn two_disjoint_triangles() -> (Vec<Node>, Vec<Edge>) {
    let (mut n1, e1) = triangle();
    let (n2, e2) = triangle();
    n1.extend(n2);
    let edges: Vec<Edge> = e1.into_iter().chain(e2).collect();
    (n1, edges)
}

#[test]
fn empty_partition_yields_empty_region_graph() {
    let src = SliceSource::new(&[], &[]);
    let g = graph(&src);
    let p = Partition::new(Vec::new());
    let r = RegionGraph::build(&g, &p);
    assert_eq!(r.cluster_count(), 0);
    assert_eq!(r.region_count(), 0);
    assert!(r.region_of_cluster(0).is_none());
}

#[test]
fn single_cluster_yields_single_region() {
    let (nodes, edges) = triangle();
    let src = SliceSource::new(&nodes, &edges);
    let g = graph(&src);
    let p = Partition::new(vec![0, 0, 0]);
    let r = RegionGraph::build(&g, &p);
    assert_eq!(r.cluster_count(), 1);
    assert_eq!(r.region_count(), 1);
    assert_eq!(r.region_of_cluster(0), Some(0));
}

#[test]
fn two_disjoint_clusters_with_no_inter_edges_yield_two_regions() {
    let (nodes, edges) = two_disjoint_triangles();
    let src = SliceSource::new(&nodes, &edges);
    let g = graph(&src);
    let p = Partition::new(vec![0, 0, 0, 1, 1, 1]);
    let r = RegionGraph::build(&g, &p);
    assert_eq!(r.cluster_count(), 2);
    assert_eq!(r.region_count(), 2);
    assert_ne!(
        r.region_of_cluster(0).unwrap(),
        r.region_of_cluster(1).unwrap()
    );
}

#[test]
fn out_of_range_cluster_returns_none() {
    let (nodes, edges) = triangle();
    let src = SliceSource::new(&nodes, &edges);
    let g = graph(&src);
    let p = Partition::new(vec![0, 0, 0]);
    let r = RegionGraph::build(&g, &p);
    assert!(r.region_of_cluster(999).is_none());
}

#[test]
fn is_deterministic_for_a_fixed_seed() {
    let (nodes, edges) = two_disjoint_triangles();
    let src = SliceSource::new(&nodes, &edges);
    let g = graph(&src);
    let p = Partition::new(vec![0, 0, 0, 1, 1, 1]);
    let a = RegionGraph::build_seeded(&g, &p, 1234);
    let b = RegionGraph::build_seeded(&g, &p, 1234);
    assert_eq!(a.cluster_count(), b.cluster_count());
    assert_eq!(a.region_count(), b.region_count());
    for c in 0..a.cluster_count() {
        assert_eq!(a.region_of_cluster(c), b.region_of_cluster(c));
    }
}

#[test]
fn regions_on_zachary_partitions_the_4_clusters() {
    let src = karate();
    let g = graph(&src);
    let clusters = leiden(&g);
    assert_eq!(clusters.community_count(), 4);

    let r = RegionGraph::build(&g, &clusters);
    assert_eq!(r.cluster_count(), 4);
    let n_regions = r.region_count();
    assert!(
        (1..=4).contains(&n_regions),
        "expected 1..=4 regions for 4 Zachary clusters, got {n_regions}"
    );

    for c in 0..4 {
        assert!(r.region_of_cluster(c).is_some());
    }

    let buckets = r.clusters_by_region();
    assert_eq!(buckets.len(), n_regions);
    let total: usize = buckets.iter().map(Vec::len).sum();
    assert_eq!(total, 4);
}

#[test]
fn wrapper_matches_bare_function() {
    let (nodes, edges) = two_disjoint_triangles();
    let src = SliceSource::new(&nodes, &edges);
    let g = graph(&src);
    let p = Partition::new(vec![0, 0, 0, 1, 1, 1]);
    let bare = regions_from_clusters(&g, &p, 42);
    let wrapped = RegionGraph::build_seeded(&g, &p, 42);
    for c in 0..p.community_count() {
        assert_eq!(bare.community_of(c), wrapped.region_of_cluster(c).unwrap());
    }
}

#[test]
fn regions_are_listed_by_cluster() {
    let (nodes, edges) = two_disjoint_triangles();
    let src = SliceSource::new(&nodes, &edges);
    let g = graph(&src);
    let p = Partition::new(vec![0, 0, 0, 1, 1, 1]);
    let r = RegionGraph::build(&g, &p);
    assert_eq!(r.iter_assignments(), vec![0, 1]);
    assert_eq!(r.clusters_by_region(), vec![vec![0], vec![1]]);
}
