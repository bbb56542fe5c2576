use fjall::{Config, Keyspace, PartitionCreateOptions, PartitionHandle, PersistMode};
use std::path::Path;
use swindex::betweenness::{pick_sources, shortest_paths, simple_adjacency};
use swindex::index::{Table, Write};
use swindex::layout;
use swindex::quality::{nmi_terms, NmiTerms};
use swindex::query::Query;
use swindex::{
    leiden, BuildStats, Edge, EdgeKind, Graph, GraphSource, Node, NodeKind, Partition, QueryKind,
    QueryResult, SliceSource, SwIndexError, Uuid7,
};
use tempfile::TempDir;

fn graph<G: GraphSource>(source: &G) -> Graph {
    match Graph::from_source(source) {
        Ok(g) => g,
        Err(e) => panic!("{}", e.to_string()),
    }
}

/// Normalized mutual information, from its integer terms.
fn nmi(a: &Partition, b: &Partition) -> f64 {
    let table = match nmi_terms(a, b) {
        NmiTerms::Full => return 1.0,
        NmiTerms::Zero => return 0.0,
        NmiTerms::Table(table) => table,
    };
    let n = table.nodes as f64;
    let entropy = |counts: &[usize]| -> f64 {
        let parts = counts.iter().filter(|&&m| m > 0).map(|&m| m as f64 / n);
        parts.map(|p| -p * p.ln()).sum()
    };
    let mut mi = 0.0;
    for (i, row) in table.table.iter().enumerate() {
        for (j, &c) in row.iter().enumerate() {
            if c > 0 {
                let c = c as f64;
                mi += c / n * (c * n / (table.rows[i] as f64 * table.columns[j] as f64)).ln();
            }
        }
    }
    (2.0 * mi / (entropy(&table.rows) + entropy(&table.columns))).clamp(0.0, 1.0)
}

/// The betweenness of the nodes of a source, from some of them, as integers that order
/// them as it does.
fn centrality<G: GraphSource>(source: &G) -> Vec<u64> {
    let graph = graph(source);
    let n = graph.node_count();
    let adj = simple_adjacency(&graph);
    let mut scores = vec![0.0_f64; n];
    for s in pick_sources(n, 64, 42) {
        let paths = shortest_paths(&adj, s);
        let mut sigma = vec![0.0_f64; n];
        let mut delta = vec![0.0_f64; n];
        sigma[s] = 1.0;
        for &w in &paths.order {
            for &v in &paths.preds[w] {
                sigma[w] += sigma[v];
            }
        }
        for &w in paths.order.iter().rev() {
            let share = (1.0 + delta[w]) / sigma[w];
            for &v in &paths.preds[w] {
                delta[v] += sigma[v] * share;
            }
            if w != s {
                scores[w] += delta[w];
            }
        }
    }
    scores.iter().map(|score| score.to_bits()).collect()
}

/// An index kept in a key-value store.
struct SwIndex {
    keyspace: Keyspace,
}

impl SwIndex {
    fn open(path: &Path) -> Result<SwIndex, fjall::Error> {
        let keyspace = Config::new(path).open()?;
        Ok(SwIndex { keyspace })
    }

    fn table(&self, table: Table) -> PartitionHandle {
        let options = PartitionCreateOptions::default();
        self.keyspace.open_partition(table.name(), options).unwrap()
    }

    fn read(&self, table: Table, key: &[u8]) -> Option<Vec<u8>> {
        self.table(table).get(key).unwrap().map(|value| value.to_vec())
    }

    fn apply(&self, writes: Vec<Write>) {
        let mut batch = self.keyspace.batch();
        for write in writes {
            batch.insert(&self.table(write.table), write.key, write.value);
        }
        batch.commit().unwrap();
        self.keyspace.persist(PersistMode::SyncAll).unwrap();
    }

    fn build_from_source<G: GraphSource>(&mut self, source: &G) -> Result<BuildStats, SwIndexError> {
        let built = layout::build_from_source(source, &centrality(source))?;
        self.apply(built.writes);
        Ok(built.stats)
    }

    fn query(&self, kind: QueryKind) -> Result<QueryResult, SwIndexError> {
        let mut query = Query::new(kind);
        while let Some((table, key)) = query.wanted() {
            query = query.answer(self.read(table, &key).as_deref());
        }
        query.result()
    }
}

fn xorshift64(state: &mut u64) -> u64 {
    let mut x = *state;
    x ^= x << 13;
    x ^= x >> 7;
    x ^= x << 17;
    *state = x;
    x
}

fn unit_uniform(state: &mut u64) -> f64 {
    let r = xorshift64(state);
    ((r >> 11) as f64) / ((1_u64 << 53) as f64)
}


struct PlantedGraph {
    nodes: Vec<Node>,
    edges: Vec<Edge>,
    planted: Partition,
}

impl PlantedGraph {
    fn edge_count(&self) -> usize {
        self.edges.len()
    }
}

fn generate_sbm(n_nodes: usize, k: usize, p_in: f64, p_out: f64, seed: u64) -> PlantedGraph {
    assert!(n_nodes > 0, "generate_sbm: n_nodes must be > 0");
    assert!(k > 0, "generate_sbm: k must be > 0");
    assert!(
        (0.0..=1.0).contains(&p_in),
        "generate_sbm: p_in out of range"
    );
    assert!(
        (0.0..=1.0).contains(&p_out),
        "generate_sbm: p_out out of range"
    );

    let mut state = if seed == 0 { 1 } else { seed };

    let nodes: Vec<Node> = (0..n_nodes)
        .map(|_| Node::fresh(NodeKind::new("v")))
        .collect();

    let cluster_of: Vec<usize> = (0..n_nodes).map(|i| i % k).collect();

    let mut edges = Vec::new();
    for i in 0..n_nodes {
        for j in (i + 1)..n_nodes {
            let same_cluster = cluster_of[i] == cluster_of[j];
            let p = if same_cluster { p_in } else { p_out };
            if unit_uniform(&mut state) < p {
                edges.push(Edge::fresh(nodes[i].id, nodes[j].id, EdgeKind::new("e")));
            }
        }
    }

    PlantedGraph {
        nodes,
        edges,
        planted: Partition::new(cluster_of),
    }
}

struct Recovery {
    nmi: f64,
    recovered_communities: usize,
    planted_communities: usize,
    edges: usize,
}

fn recover(pg: &PlantedGraph) -> Recovery {
    let src = SliceSource::new(&pg.nodes, &pg.edges);
    let graph = graph(&src);
    let recovered = leiden(&graph);
    Recovery {
        nmi: nmi(&recovered, &pg.planted),
        recovered_communities: recovered.community_count(),
        planted_communities: pg.planted.community_count(),
        edges: pg.edge_count(),
    }
}

fn assert_recovery(label: &str, pg: &PlantedGraph, floor: f64) {
    let r = recover(pg);
    assert!(
        r.nmi >= floor,
        "{label}: NMI {nmi:.4} < floor {floor:.4} \
         (recovered {rk} communities vs planted {pk}, {edges} edges). \
         Either clustering quality regressed, or the SBM parameters drifted into a \
         too-noisy regime for this fixture.",
        nmi = r.nmi,
        rk = r.recovered_communities,
        pk = r.planted_communities,
        edges = r.edges,
    );
}


#[test]
fn sbm_easy_high_contrast_clusters_recover_above_0_95() {
    let pg = generate_sbm(
        400,
        8,
        0.40,
        0.01,
        0xC0FF_EEC0_FFEE,
    );
    assert!(pg.edge_count() > 200);
    assert_eq!(pg.planted.community_count(), 8);

    assert_recovery("sbm_easy", &pg, 0.95);
}


#[test]
fn sbm_medium_moderate_contrast_clusters_recover_above_0_85() {
    let pg = generate_sbm(
        300,
        6,
        0.25,
        0.025,
        0xDECA_FBAD,
    );
    assert!(pg.edge_count() > 200);
    assert_eq!(pg.planted.community_count(), 6);

    assert_recovery("sbm_medium", &pg, 0.85);
}


#[test]
fn sbm_hard_low_contrast_large_graph_recovers_above_0_70() {
    let pg = generate_sbm(
        500,
        5,
        0.10,
        0.015,
        0xFEED_FACE,
    );
    assert!(pg.edge_count() > 1000);
    assert_eq!(pg.planted.community_count(), 5);

    assert_recovery("sbm_hard", &pg, 0.70);
}


#[test]
fn recovery_is_reproducible_under_same_seed() {
    let pg1 = generate_sbm(200, 4, 0.30, 0.02, 0x00AB_CDEF);
    let pg2 = generate_sbm(200, 4, 0.30, 0.02, 0x00AB_CDEF);
    let r1 = recover(&pg1);
    let r2 = recover(&pg2);
    assert!(
        (r1.nmi - r2.nmi).abs() < 1e-12,
        "reproducibility: same seed produced different NMI ({} vs {})",
        r1.nmi,
        r2.nmi,
    );
    assert_eq!(r1.recovered_communities, r2.recovered_communities);
}


fn query_precision_at_k(
    idx: &SwIndex,
    pg: &PlantedGraph,
    seed: Uuid7,
    seed_planted: usize,
    limit: usize,
) -> f64 {
    let result = idx
        .query(QueryKind::Similar { start: seed, limit })
        .expect("query should not fail");
    if result.uuids.is_empty() {
        return 0.0;
    }

    let planted_of = |u: Uuid7| -> Option<usize> {
        pg.nodes
            .iter()
            .position(|n| n.id == u)
            .map(|i| pg.planted.community_of(i))
    };

    let same: usize = result
        .uuids
        .iter()
        .filter(|&&u| planted_of(u) == Some(seed_planted))
        .count();
    let p = same as f64 / result.uuids.len() as f64;
    p
}

#[test]
fn similar_query_returns_planted_community_members() {
    let pg = generate_sbm(
        400,
        8,
        0.40,
        0.01,
        0xC0FF_EEC0_FFEE,
    );

    let dir = TempDir::new().unwrap();
    let mut idx = SwIndex::open(dir.path()).unwrap();
    let src = SliceSource::new(&pg.nodes, &pg.edges);
    idx.build_from_source(&src).unwrap();

    let mut total_precision = 0.0;
    let mut empty_results = 0;
    let n_seeds = 10;
    for seed_idx in (0..pg.nodes.len())
        .step_by(pg.nodes.len() / n_seeds)
        .take(n_seeds)
    {
        let seed_uuid = pg.nodes[seed_idx].id;
        let seed_planted = pg.planted.community_of(seed_idx);
        let result = idx
            .query(QueryKind::Similar {
                start: seed_uuid,
                limit: 20,
            })
            .unwrap();
        if result.uuids.is_empty() {
            empty_results += 1;
            continue;
        }
        total_precision += query_precision_at_k(&idx, &pg, seed_uuid, seed_planted, 20);
    }

    assert_eq!(empty_results, 0, "no seed should return empty results");

    let avg_precision = total_precision / n_seeds as f64;
    assert!(
        avg_precision >= 0.85,
        "Similar(seed) average precision@20 was {avg_precision:.3} — \
         expected at least 0.85 on a high-contrast SBM. \
         Either the query planner is returning irrelevant results, or the \
         clustering has regressed enough to break the planted-community recovery."
    );
}

#[test]
fn same_cluster_query_returns_only_planted_community_members() {
    let pg = generate_sbm(400, 8, 0.40, 0.01, 0xC0FF_EEC0_FFEE);
    let dir = TempDir::new().unwrap();
    let mut idx = SwIndex::open(dir.path()).unwrap();
    let src = SliceSource::new(&pg.nodes, &pg.edges);
    idx.build_from_source(&src).unwrap();

    let seed_idx = 0;
    let seed_uuid = pg.nodes[seed_idx].id;
    let seed_planted = pg.planted.community_of(seed_idx);

    let result = idx
        .query(QueryKind::SameCluster { start: seed_uuid })
        .unwrap();

    assert!(!result.uuids.is_empty(), "SameCluster returned nothing");

    let p = query_precision_at_k(
        &idx,
        &pg,
        seed_uuid,
        seed_planted,
        result.uuids.len(),
    );
    assert!(
        p >= 0.95,
        "SameCluster(seed) precision was {p:.3} — expected at least 0.95 on a \
         high-contrast SBM where detected is nearly planted."
    );
}


#[test]
fn round_trip_preserves_query_relevance() {
    let pg = generate_sbm(200, 5, 0.30, 0.02, 0x1234_5678);

    let dir = TempDir::new().unwrap();

    {
        let mut idx = SwIndex::open(dir.path()).unwrap();
        let src = SliceSource::new(&pg.nodes, &pg.edges);
        idx.build_from_source(&src).unwrap();
    }
    let reopened = SwIndex::open(dir.path()).unwrap();

    let seed_idx = 0;
    let seed_uuid = pg.nodes[seed_idx].id;
    let seed_planted = pg.planted.community_of(seed_idx);

    let p = query_precision_at_k(&reopened, &pg, seed_uuid, seed_planted, 20);
    assert!(
        p >= 0.70,
        "Round-tripped Similar(seed) precision was {p:.3} — \
         expected at least 0.70. If this fails after the close/reopen but not before, \
         persistence may have lost or corrupted partition data."
    );
}
