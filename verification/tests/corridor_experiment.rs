use swindex::{
    bfs_distance, cluster_adjacency, cluster_corridor, evaluate_corridor, leiden, Edge, EdgeKind,
    Graph, GraphSource, Node, NodeKind, Partition, SliceSource,
};

fn graph<G: GraphSource>(source: &G) -> Graph {
    match Graph::from_source(source) {
        Ok(g) => g,
        Err(e) => panic!("{}", e.to_string()),
    }
}

fn xorshift64(state: &mut u64) -> u64 {
    let mut x = *state;
    x ^= x << 13;
    x ^= x >> 7;
    x ^= x << 17;
    *state = x;
    x
}

fn unit_uniform(state: &mut u64) -> f64 {
    let r = xorshift64(state);
    ((r >> 11) as f64) / ((1_u64 << 53) as f64)
}


struct PlantedGraph {
    nodes: Vec<Node>,
    edges: Vec<Edge>,
    planted: Partition,
}

impl PlantedGraph {
    fn edge_count(&self) -> usize {
        self.edges.len()
    }
}

fn generate_sbm(n_nodes: usize, k: usize, p_in: f64, p_out: f64, seed: u64) -> PlantedGraph {
    assert!(n_nodes > 0, "generate_sbm: n_nodes must be > 0");
    assert!(k > 0, "generate_sbm: k must be > 0");
    assert!(
        (0.0..=1.0).contains(&p_in),
        "generate_sbm: p_in out of range"
    );
    assert!(
        (0.0..=1.0).contains(&p_out),
        "generate_sbm: p_out out of range"
    );

    let mut state = if seed == 0 { 1 } else { seed };

    let nodes: Vec<Node> = (0..n_nodes)
        .map(|_| Node::fresh(NodeKind::new("v")))
        .collect();

    let cluster_of: Vec<usize> = (0..n_nodes).map(|i| i % k).collect();

    let mut edges = Vec::new();
    for i in 0..n_nodes {
        for j in (i + 1)..n_nodes {
            let same_cluster = cluster_of[i] == cluster_of[j];
            let p = if same_cluster { p_in } else { p_out };
            if unit_uniform(&mut state) < p {
                edges.push(Edge::fresh(nodes[i].id, nodes[j].id, EdgeKind::new("e")));
            }
        }
    }

    PlantedGraph {
        nodes,
        edges,
        planted: Partition::new(cluster_of),
    }
}

/// Up to `count` pairs of nodes in different clusters, drawn from a seed.
fn sample_cross_cluster_pairs(
    n: usize,
    partition: &Partition,
    count: usize,
    seed: u64,
) -> Vec<(usize, usize)> {
    let mut state = if seed == 0 { 1 } else { seed };
    let mut pairs = Vec::new();
    for _ in 0..20 * count {
        if pairs.len() == count {
            break;
        }
        let from = (xorshift64(&mut state) % n as u64) as usize;
        let to = (xorshift64(&mut state) % n as u64) as usize;
        if partition.community_of(from) != partition.community_of(to) {
            pairs.push((from, to));
        }
    }
    pairs
}

#[derive(Debug, PartialEq)]
struct Aggregate {
    pairs: usize,
    connected: usize,
    optimal: usize,
    mean_member_fraction: f64,
}

fn run_baseline(graph: &Graph, partition: &Partition, pairs: &[(usize, usize)]) -> Aggregate {
    let adjacency = cluster_adjacency(graph, partition);
    let n = graph.node_count();
    let mut agg = Aggregate {
        pairs: 0,
        connected: 0,
        optimal: 0,
        mean_member_fraction: 0.0,
    };
    let mut fraction_sum = 0.0_f64;
    for &(from, to) in pairs {
        let cf = partition.community_of(from);
        let ct = partition.community_of(to);
        let Some(corridor) = cluster_corridor(&adjacency, cf, ct) else {
            if bfs_distance(graph, from, to).is_some() {
                agg.pairs += 1;
            }
            continue;
        };
        let Some(report) = evaluate_corridor(graph, partition, &corridor, from, to) else {
            continue;
        };
        agg.pairs += 1;
        if report.connected() {
            agg.connected += 1;
        }
        if report.optimal() {
            agg.optimal += 1;
        }
        {
            fraction_sum += report.member_count as f64 / n as f64;
        }
    }
    if agg.pairs > 0 {
        {
            agg.mean_member_fraction = fraction_sum / agg.pairs as f64;
        }
    }
    agg
}

fn sbm_with_leiden(n: usize, k: usize, p_in: f64, p_out: f64, seed: u64) -> (Graph, Partition) {
    let pg = generate_sbm(n, k, p_in, p_out, seed);
    let src = SliceSource::new(&pg.nodes, &pg.edges);
    let g = graph(&src);
    let p = leiden(&g);
    (g, p)
}

#[test]
fn sbm_easy_baseline_quality() {
    let (g, p) = sbm_with_leiden(400, 8, 0.40, 0.01, 0x00C0_FFEE);
    let pairs = sample_cross_cluster_pairs(g.node_count(), &p, 100, 0xFEED_BEEF);
    assert!(pairs.len() >= 90, "sampler starved: {} pairs", pairs.len());

    let agg = run_baseline(&g, &p, &pairs);
    assert_eq!(
        agg.connected, agg.pairs,
        "baseline corridor disconnected a pair: {agg:?}"
    );
    let optimal_rate = agg.optimal as f64 / agg.pairs as f64;
    assert!(
        optimal_rate >= 0.80,
        "optimal rate regressed: {agg:?} (rate {optimal_rate:.3})"
    );
    assert!(
        agg.mean_member_fraction < 0.55,
        "corridors degenerating toward whole-graph fetches: {agg:?}"
    );
}

#[test]
fn sbm_medium_baseline_quality() {
    let (g, p) = sbm_with_leiden(300, 6, 0.25, 0.025, 0x00C0_FFEE);
    let pairs = sample_cross_cluster_pairs(g.node_count(), &p, 100, 0xFEED_BEEF);
    assert!(pairs.len() >= 90, "sampler starved: {} pairs", pairs.len());

    let agg = run_baseline(&g, &p, &pairs);
    assert_eq!(
        agg.connected, agg.pairs,
        "baseline corridor disconnected a pair: {agg:?}"
    );
    let optimal_rate = agg.optimal as f64 / agg.pairs as f64;
    assert!(
        optimal_rate >= 0.80,
        "optimal rate regressed: {agg:?} (rate {optimal_rate:.3})"
    );
    assert!(
        agg.mean_member_fraction < 0.75,
        "corridors degenerating toward whole-graph fetches: {agg:?}"
    );
}

#[test]
fn harness_is_deterministic() {
    let (g, p) = sbm_with_leiden(300, 6, 0.25, 0.025, 0x00C0_FFEE);
    let pairs_a = sample_cross_cluster_pairs(g.node_count(), &p, 60, 42);
    let pairs_b = sample_cross_cluster_pairs(g.node_count(), &p, 60, 42);
    assert_eq!(pairs_a, pairs_b);

    let agg_a = run_baseline(&g, &p, &pairs_a);
    let agg_b = run_baseline(&g, &p, &pairs_b);
    assert_eq!(agg_a, agg_b);

    let pairs_c = sample_cross_cluster_pairs(g.node_count(), &p, 60, 4242);
    assert_ne!(pairs_a, pairs_c);
}
