use fjall::{Config, Keyspace, PartitionCreateOptions, PartitionHandle, PersistMode};
use std::path::Path;
use swindex::betweenness::{pick_sources, shortest_paths, simple_adjacency};
use swindex::codec::{
    decode_cluster_drift, decode_cluster_meta, decode_hub_neighbors, decode_u32, decode_uuid_vec,
    encode_cluster_drift, encode_cluster_meta, encode_hub_neighbors, encode_u32, encode_uuid_vec,
    uuid_key, FORMAT_V1,
};
use swindex::index::{self, Table, Write};
use swindex::insert::Insert;
use swindex::labels;
use swindex::layout;
use swindex::neighbors;
use swindex::listing::{
    drift_listing, joined_labels, sorted_labels, table_listing, ClusterListing,
};
use swindex::query::Query;
use swindex::{
    cluster_adjacency, leiden, BuildStats, ClusterDrift, DriftReport, Edge, EdgeKind, GmlSource,
    Graph, GraphError, GraphSource,
    MaintenancePolicy, MaintenanceReport, NeverRebalance, Node, NodeKind, QueryKind, QueryResult,
    SliceSource, SqlDumpSource, SwIndexError, SwStats, Uuid7,
};
use tempfile::TempDir;

/// Zachary's karate club: the friendships of its 34 members, by their numbers.
const KARATE: [(usize, &[usize]); 26] = [
    (1, &[2, 3, 4, 5, 6, 7, 8, 9, 11, 12, 13, 14, 18, 20, 22, 32]),
    (2, &[3, 4, 8, 14, 18, 20, 22, 31]),
    (3, &[4, 8, 9, 10, 14, 28, 29, 33]),
    (4, &[8, 13, 14]),
    (5, &[7, 11]),
    (6, &[7, 11, 17]),
    (7, &[17]),
    (9, &[31, 33, 34]),
    (10, &[34]),
    (14, &[34]),
    (15, &[33, 34]),
    (16, &[33, 34]),
    (19, &[33, 34]),
    (20, &[34]),
    (21, &[33, 34]),
    (23, &[33, 34]),
    (24, &[26, 28, 30, 33, 34]),
    (25, &[26, 28, 32]),
    (26, &[32]),
    (27, &[30, 34]),
    (28, &[34]),
    (29, &[32, 34]),
    (30, &[33, 34]),
    (31, &[33, 34]),
    (32, &[33, 34]),
    (33, &[34]),
];

/// The karate club as a GML document.
fn karate_gml() -> String {
    let mut text = String::from("Creator \"karate club\"\ngraph [\n  directed 0\n");
    for id in 1..=34 {
        text.push_str(&format!("  node [ id {id} ]\n"));
    }
    for (a, friends) in KARATE {
        for b in friends {
            text.push_str(&format!("  edge [ source {b} target {a} ]\n"));
        }
    }
    text.push_str("]\n");
    text
}

/// The karate club, loaded.
fn karate() -> GmlSource {
    match GmlSource::from_str(&karate_gml(), &NodeKind::new("member"), &EdgeKind::new("friendship")) {
        Ok(source) => source,
        Err(e) => panic!("{}", e.to_string()),
    }
}

/// The betweenness of the nodes of a source, from every node, as integers that order
/// them as it does.
fn centrality<G: GraphSource>(source: &G) -> Vec<u64> {
    let Ok(graph) = Graph::from_source(source) else {
        let mut ids: Vec<Uuid7> = source.nodes().iter().map(|n| n.id).collect();
        ids.sort();
        ids.dedup();
        return vec![0; ids.len()];
    };
    let n = graph.node_count();
    let adj = simple_adjacency(&graph);
    let mut scores = vec![0.0_f64; n];
    for s in pick_sources(n, n, 0) {
        let paths = shortest_paths(&adj, s);
        let mut sigma = vec![0.0_f64; n];
        let mut delta = vec![0.0_f64; n];
        sigma[s] = 1.0;
        for &w in &paths.order {
            for &v in &paths.preds[w] {
                sigma[w] += sigma[v];
            }
        }
        for &w in paths.order.iter().rev() {
            let share = (1.0 + delta[w]) / sigma[w];
            for &v in &paths.preds[w] {
                delta[v] += sigma[v] * share;
            }
            if w != s {
                scores[w] += delta[w];
            }
        }
    }
    scores.iter().map(|score| score.to_bits()).collect()
}

/// An index kept in a key-value store.
struct SwIndex {
    keyspace: Keyspace,
}

impl SwIndex {
    fn open(path: &Path) -> Result<SwIndex, fjall::Error> {
        let keyspace = Config::new(path).open()?;
        Ok(SwIndex { keyspace })
    }

    fn table(&self, table: Table) -> PartitionHandle {
        let options = PartitionCreateOptions::default();
        self.keyspace.open_partition(table.name(), options).unwrap()
    }

    fn read(&self, table: Table, key: &[u8]) -> Option<Vec<u8>> {
        self.table(table).get(key).unwrap().map(|value| value.to_vec())
    }

    fn apply(&self, writes: Vec<Write>) {
        let mut batch = self.keyspace.batch();
        for write in writes {
            batch.insert(&self.table(write.table), write.key, write.value);
        }
        batch.commit().unwrap();
        self.keyspace.persist(PersistMode::SyncAll).unwrap();
    }

    fn build_from_source<G: GraphSource>(&mut self, source: &G) -> Result<BuildStats, SwIndexError> {
        let built = layout::build_from_source(source, &centrality(source))?;
        self.apply(built.writes);
        Ok(built.stats)
    }

    fn query(&self, kind: QueryKind) -> Result<QueryResult, SwIndexError> {
        let mut query = Query::new(kind);
        while let Some((table, key)) = query.wanted() {
            query = query.answer(self.read(table, &key).as_deref());
        }
        query.result()
    }

    fn stats(&self) -> SwStats {
        SwStats {
            nodes: self.table(Table::UuidToCluster).approximate_len(),
            clusters: self.table(Table::ClusterMembers).approximate_len(),
            hubs: self.table(Table::HubNeighbors).approximate_len(),
        }
    }

    fn cluster_of(&self, id: Uuid7) -> Result<Option<u32>, SwIndexError> {
        index::cluster_of(self.read(Table::UuidToCluster, &uuid_key(&id)).as_deref())
    }

    fn region_of(&self, id: Uuid7) -> Result<Option<u32>, SwIndexError> {
        index::region_of(self.read(Table::UuidToRegion, &uuid_key(&id)).as_deref())
    }

    fn is_hub(&self, id: Uuid7) -> Result<bool, SwIndexError> {
        Ok(index::is_hub(self.read(Table::UuidIsHub, &uuid_key(&id)).as_deref()))
    }

    fn hub_neighbors(&self, id: Uuid7) -> Result<Vec<(Uuid7, u32)>, SwIndexError> {
        index::hub_neighbors(self.read(Table::HubNeighbors, &uuid_key(&id)).as_deref())
    }

    fn cluster_members(&self, cluster: u32) -> Result<Option<Vec<Uuid7>>, SwIndexError> {
        index::cluster_members(self.read(Table::ClusterMembers, &encode_u32(cluster)).as_deref())
    }

    fn cluster_meta(&self, cluster: u32) -> Result<Option<(u32, u32)>, SwIndexError> {
        index::cluster_meta(self.read(Table::ClusterMeta, &encode_u32(cluster)).as_deref())
    }

    fn cluster_drift(&self, cluster: u32) -> Result<(u64, u32), SwIndexError> {
        index::cluster_drift(self.read(Table::ClusterDrift, &encode_u32(cluster)).as_deref())
    }

    fn insert_node(&mut self, node: &Node, seeds: &[Uuid7]) -> Result<u32, SwIndexError> {
        let mut insert = Insert::new(node, seeds);
        loop {
            if let Some((table, key)) = insert.wanted() {
                insert = insert.answer(self.read(table, &key).as_deref());
            } else if let Some(table) = insert.keys_wanted() {
                let keys = self.table(table).keys();
                let keys: Vec<Vec<u8>> = keys.map(|key| key.unwrap().to_vec()).collect();
                insert = insert.answer_keys(&keys);
            } else {
                break;
            }
        }
        let inserted = insert.result()?;
        self.apply(inserted.writes);
        Ok(inserted.cluster)
    }

    fn drift_report(&self) -> Result<DriftReport, SwIndexError> {
        let mut rows = Vec::new();
        for row in self.table(Table::ClusterDrift).iter() {
            let (key, value) = row.unwrap();
            rows.push((key.to_vec(), value.to_vec()));
        }
        index::drift_report(&rows)
    }

    fn maintain<P: MaintenancePolicy>(&mut self, policy: &P) -> Result<MaintenanceReport, SwIndexError> {
        Ok(index::maintain(policy, &self.drift_report()?))
    }
}

fn two_disjoint_triangles() -> (Vec<Node>, Vec<Edge>) {
    let mk = |k: &str| Node::fresh(NodeKind::new(k));
    let a1 = mk("v");
    let b1 = mk("v");
    let c1 = mk("v");
    let a2 = mk("v");
    let b2 = mk("v");
    let c2 = mk("v");
    let edges = vec![
        Edge::fresh(a1.id, b1.id, EdgeKind::new("e")),
        Edge::fresh(b1.id, c1.id, EdgeKind::new("e")),
        Edge::fresh(c1.id, a1.id, EdgeKind::new("e")),
        Edge::fresh(a2.id, b2.id, EdgeKind::new("e")),
        Edge::fresh(b2.id, c2.id, EdgeKind::new("e")),
        Edge::fresh(c2.id, a2.id, EdgeKind::new("e")),
    ];
    (vec![a1, b1, c1, a2, b2, c2], edges)
}

#[test]
fn open_creates_keyspace_directory() {
    let dir = TempDir::new().unwrap();
    let _idx = SwIndex::open(dir.path()).unwrap();
}

#[test]
fn build_populates_all_six_partitions_and_returns_stats() {
    let dir = TempDir::new().unwrap();
    let mut idx = SwIndex::open(dir.path()).unwrap();
    let (nodes, edges) = two_disjoint_triangles();
    let src = SliceSource::new(&nodes, &edges);

    let stats = idx.build_from_source(&src).unwrap();
    assert_eq!(
        stats,
        BuildStats {
            nodes: 6,
            clusters: 2,
            regions: 2,
            hubs: 1,
        }
    );

    let cluster_a = idx.cluster_of(nodes[0].id).unwrap().unwrap();
    let cluster_b = idx.cluster_of(nodes[3].id).unwrap().unwrap();
    assert_eq!(idx.cluster_of(nodes[1].id).unwrap().unwrap(), cluster_a);
    assert_eq!(idx.cluster_of(nodes[2].id).unwrap().unwrap(), cluster_a);
    assert_eq!(idx.cluster_of(nodes[4].id).unwrap().unwrap(), cluster_b);
    assert_eq!(idx.cluster_of(nodes[5].id).unwrap().unwrap(), cluster_b);
    assert_ne!(cluster_a, cluster_b);

    let members_a = idx.cluster_members(cluster_a).unwrap().unwrap();
    assert_eq!(members_a.len(), 3);
    let expected_a: std::collections::BTreeSet<_> = [nodes[0].id, nodes[1].id, nodes[2].id]
        .into_iter()
        .collect();
    let got_a: std::collections::BTreeSet<_> = members_a.into_iter().collect();
    assert_eq!(got_a, expected_a);

    let (size_a, hub_count_a) = idx.cluster_meta(cluster_a).unwrap().unwrap();
    assert_eq!(size_a, 3);
    assert!(hub_count_a <= 1);

    let region_a = idx.region_of(nodes[0].id).unwrap().unwrap();
    let region_b = idx.region_of(nodes[3].id).unwrap().unwrap();
    assert_ne!(region_a, region_b);

    let total_hubs: usize = nodes
        .iter()
        .map(|n| usize::from(idx.is_hub(n.id).unwrap()))
        .sum();
    assert_eq!(total_hubs, 1);
}

#[test]
fn round_trip_via_close_and_reopen() {
    let dir = TempDir::new().unwrap();
    let (nodes, edges) = two_disjoint_triangles();
    let src = SliceSource::new(&nodes, &edges);

    let original_stats;
    let original_cluster_0;
    let original_region_0;
    {
        let mut idx = SwIndex::open(dir.path()).unwrap();
        original_stats = idx.build_from_source(&src).unwrap();
        original_cluster_0 = idx.cluster_of(nodes[0].id).unwrap().unwrap();
        original_region_0 = idx.region_of(nodes[0].id).unwrap().unwrap();
    }

    let reopened = SwIndex::open(dir.path()).unwrap();
    assert_eq!(
        reopened.cluster_of(nodes[0].id).unwrap().unwrap(),
        original_cluster_0
    );
    assert_eq!(
        reopened.region_of(nodes[0].id).unwrap().unwrap(),
        original_region_0
    );
    for n in &nodes {
        assert!(reopened.cluster_of(n.id).unwrap().is_some());
        assert!(reopened.region_of(n.id).unwrap().is_some());
    }
    let members = reopened
        .cluster_members(original_cluster_0)
        .unwrap()
        .unwrap();
    assert_eq!(members.len(), 3);
    let _ = original_stats;
}

#[test]
fn unknown_uuid_returns_none() {
    let dir = TempDir::new().unwrap();
    let mut idx = SwIndex::open(dir.path()).unwrap();
    let (nodes, edges) = two_disjoint_triangles();
    let src = SliceSource::new(&nodes, &edges);
    idx.build_from_source(&src).unwrap();

    let random = Uuid7::now();
    assert!(idx.cluster_of(random).unwrap().is_none());
    assert!(idx.region_of(random).unwrap().is_none());
    assert!(!idx.is_hub(random).unwrap());
    assert_eq!(idx.hub_neighbors(random).unwrap(), Vec::new());
}

#[test]
fn zachary_build_and_round_trip() {
    let dir = TempDir::new().unwrap();
    let src = karate();

    let mut idx = SwIndex::open(dir.path()).unwrap();
    let stats = idx.build_from_source(&src).unwrap();
    assert_eq!(stats.nodes, 34);
    assert_eq!(stats.clusters, 4);
    assert_eq!(stats.hubs, 4);

    let original_answers: Vec<(u32, u32, bool)> = src
        .nodes()
        .iter()
        .map(|n| {
            (
                idx.cluster_of(n.id).unwrap().unwrap(),
                idx.region_of(n.id).unwrap().unwrap(),
                idx.is_hub(n.id).unwrap(),
            )
        })
        .collect();

    drop(idx);
    let reopened = SwIndex::open(dir.path()).unwrap();
    let reopened_answers: Vec<(u32, u32, bool)> = src
        .nodes()
        .iter()
        .map(|n| {
            (
                reopened.cluster_of(n.id).unwrap().unwrap(),
                reopened.region_of(n.id).unwrap().unwrap(),
                reopened.is_hub(n.id).unwrap(),
            )
        })
        .collect();

    assert_eq!(original_answers, reopened_answers);

    let clusters_u32 = u32::try_from(stats.clusters).expect("cluster count fits in u32");
    for cid in 0..clusters_u32 {
        let members = reopened.cluster_members(cid).unwrap().unwrap();
        assert!(!members.is_empty());
        let (size, hubs) = reopened.cluster_meta(cid).unwrap().unwrap();
        assert_eq!(size as usize, members.len());
        assert!(hubs <= size);
    }
}


#[test]
fn stats_match_build_counts() {
    let dir = TempDir::new().unwrap();
    let mut idx = SwIndex::open(dir.path()).unwrap();
    let (nodes, edges) = two_disjoint_triangles();
    let src = SliceSource::new(&nodes, &edges);
    let build_stats = idx.build_from_source(&src).unwrap();

    let s = idx.stats();
    assert_eq!(s.nodes, build_stats.nodes);
    assert_eq!(s.clusters, build_stats.clusters);
    assert_eq!(s.hubs, build_stats.hubs);
}

#[test]
fn same_cluster_returns_full_cluster() {
    let dir = TempDir::new().unwrap();
    let mut idx = SwIndex::open(dir.path()).unwrap();
    let (nodes, edges) = two_disjoint_triangles();
    let src = SliceSource::new(&nodes, &edges);
    idx.build_from_source(&src).unwrap();

    let result = idx
        .query(QueryKind::SameCluster { start: nodes[0].id })
        .unwrap();
    assert_eq!(result.uuids.len(), 3);
    let got: std::collections::BTreeSet<_> = result.uuids.iter().copied().collect();
    let want: std::collections::BTreeSet<_> = [nodes[0].id, nodes[1].id, nodes[2].id]
        .into_iter()
        .collect();
    assert_eq!(got, want);
    assert_eq!(result.stats.clusters_visited, 1);
    assert_eq!(result.stats.hubs_visited, 0);
}

#[test]
fn same_cluster_on_unknown_uuid_returns_empty() {
    let dir = TempDir::new().unwrap();
    let mut idx = SwIndex::open(dir.path()).unwrap();
    let (nodes, edges) = two_disjoint_triangles();
    let src = SliceSource::new(&nodes, &edges);
    idx.build_from_source(&src).unwrap();

    let unknown = Uuid7::now();
    let result = idx
        .query(QueryKind::SameCluster { start: unknown })
        .unwrap();
    assert!(result.uuids.is_empty());
    assert_eq!(result.stats.clusters_visited, 0);
}

#[test]
fn similar_with_limit_zero_returns_empty() {
    let dir = TempDir::new().unwrap();
    let mut idx = SwIndex::open(dir.path()).unwrap();
    let (nodes, edges) = two_disjoint_triangles();
    let src = SliceSource::new(&nodes, &edges);
    idx.build_from_source(&src).unwrap();

    let result = idx
        .query(QueryKind::Similar {
            start: nodes[0].id,
            limit: 0,
        })
        .unwrap();
    assert!(result.uuids.is_empty());
}

#[test]
fn similar_respects_limit() {
    let dir = TempDir::new().unwrap();
    let mut idx = SwIndex::open(dir.path()).unwrap();
    let (nodes, edges) = two_disjoint_triangles();
    let src = SliceSource::new(&nodes, &edges);
    idx.build_from_source(&src).unwrap();

    let result = idx
        .query(QueryKind::Similar {
            start: nodes[0].id,
            limit: 1,
        })
        .unwrap();
    assert!(result.uuids.len() <= 1);
    assert!(!result.uuids.contains(&nodes[0].id));
}

#[test]
fn similar_on_zachary_fans_out_via_hub_graph() {
    let dir = TempDir::new().unwrap();
    let src = karate();

    let mut idx = SwIndex::open(dir.path()).unwrap();
    idx.build_from_source(&src).unwrap();

    let some_node = src.nodes()[0].clone();

    let result = idx
        .query(QueryKind::Similar {
            start: some_node.id,
            limit: 33,
        })
        .unwrap();

    assert!(
        result.stats.clusters_visited >= 2,
        "expected hub-graph expansion to touch >= 2 clusters, got {}",
        result.stats.clusters_visited
    );
    assert!(
        result.stats.hubs_visited > 0,
        "expected the hub-graph to be walked"
    );

    assert!(!result.uuids.contains(&some_node.id));

    assert!(result.uuids.len() <= 33);
    let uniq: std::collections::BTreeSet<_> = result.uuids.iter().copied().collect();
    assert_eq!(uniq.len(), result.uuids.len(), "result has duplicates");
}


#[test]
fn format_version_byte_is_first_in_every_variable_payload() {
    let uuids = vec![Uuid7::now(), Uuid7::now()];
    let buf = encode_uuid_vec(&uuids).unwrap();
    assert_eq!(buf.first(), Some(&FORMAT_V1), "uuid_vec missing version");

    let neighbors = vec![(Uuid7::now(), 0.5_f32.to_bits())];
    let buf = encode_hub_neighbors(&neighbors).unwrap();
    assert_eq!(
        buf.first(),
        Some(&FORMAT_V1),
        "hub_neighbors missing version"
    );

    let buf = encode_cluster_meta(42, 7);
    assert_eq!(
        buf.first(),
        Some(&FORMAT_V1),
        "cluster_meta missing version"
    );
}

#[test]
fn decode_rejects_future_version_with_unsupported_format() {
    let mut buf = encode_uuid_vec(&[Uuid7::now()]).unwrap();
    buf[0] = FORMAT_V1 + 1;
    match decode_uuid_vec(&buf, "cluster_members") {
        Err(SwIndexError::UnsupportedFormat { found, context }) => {
            assert_eq!(found, FORMAT_V1 + 1);
            assert_eq!(context, "cluster_members");
        }
        other => panic!("expected UnsupportedFormat, got {other:?}"),
    }

    let mut buf = encode_hub_neighbors(&[(Uuid7::now(), 1.0_f32.to_bits())]).unwrap();
    buf[0] = 0xFF;
    match decode_hub_neighbors(&buf, "hub_neighbors") {
        Err(SwIndexError::UnsupportedFormat { found, context }) => {
            assert_eq!(found, 0xFF);
            assert_eq!(context, "hub_neighbors");
        }
        other => panic!("expected UnsupportedFormat, got {other:?}"),
    }

    let mut buf = encode_cluster_meta(1, 0);
    buf[0] = 0x00;
    match decode_cluster_meta(&buf) {
        Err(SwIndexError::UnsupportedFormat { found, context }) => {
            assert_eq!(found, 0x00);
            assert_eq!(context, "cluster_meta");
        }
        other => panic!("expected UnsupportedFormat, got {other:?}"),
    }
}

#[test]
fn decode_rejects_empty_payload_as_corruption() {
    match decode_uuid_vec(&[], "cluster_members") {
        Err(SwIndexError::Corruption(_)) => {}
        other => panic!("expected Corruption for empty payload, got {other:?}"),
    }
}


#[test]
fn insert_node_with_known_neighbors_assigns_majority_cluster() {
    let dir = TempDir::new().unwrap();
    let mut idx = SwIndex::open(dir.path()).unwrap();
    let (nodes, edges) = two_disjoint_triangles();
    let src = SliceSource::new(&nodes, &edges);
    idx.build_from_source(&src).unwrap();

    let cluster_a = idx.cluster_of(nodes[0].id).unwrap().unwrap();
    let new_node = Node::fresh(NodeKind::new("v"));
    let new_uuid = new_node.id;
    let assigned = idx
        .insert_node(&new_node, &[nodes[0].id, nodes[1].id])
        .unwrap();

    assert_eq!(
        assigned, cluster_a,
        "majority vote should land in cluster_a"
    );

    assert_eq!(idx.cluster_of(new_uuid).unwrap(), Some(cluster_a));
    assert!(
        !idx.is_hub(new_uuid).unwrap(),
        "new nodes default to non-hub"
    );

    let members = idx.cluster_members(cluster_a).unwrap().unwrap();
    assert!(
        members.contains(&new_uuid),
        "new uuid missing from cluster_members"
    );
    assert_eq!(members.len(), 4, "cluster_a grew from 3 to 4");

    let (size, _hub_count) = idx.cluster_meta(cluster_a).unwrap().unwrap();
    assert_eq!(size, 4);

    let (gen_, delta) = idx.cluster_drift(cluster_a).unwrap();
    assert_eq!(gen_, 0, "build set generation to 0");
    assert_eq!(delta, 1, "exactly one insert into cluster_a");
}

#[test]
fn insert_node_tie_breaks_to_lowest_cluster_id() {
    let dir = TempDir::new().unwrap();
    let mut idx = SwIndex::open(dir.path()).unwrap();
    let (nodes, edges) = two_disjoint_triangles();
    let src = SliceSource::new(&nodes, &edges);
    idx.build_from_source(&src).unwrap();

    let cluster_a = idx.cluster_of(nodes[0].id).unwrap().unwrap();
    let cluster_b = idx.cluster_of(nodes[3].id).unwrap().unwrap();
    let lower = cluster_a.min(cluster_b);
    let one_from_a = nodes[0].id;
    let one_from_b = nodes[3].id;

    let new_node = Node::fresh(NodeKind::new("v"));
    let assigned = idx
        .insert_node(&new_node, &[one_from_a, one_from_b])
        .unwrap();
    assert_eq!(assigned, lower, "tie should resolve to lower cluster id");
}

#[test]
fn insert_node_with_no_known_seeds_creates_singleton() {
    let dir = TempDir::new().unwrap();
    let mut idx = SwIndex::open(dir.path()).unwrap();
    let (nodes, edges) = two_disjoint_triangles();
    let src = SliceSource::new(&nodes, &edges);
    let build = idx.build_from_source(&src).unwrap();

    let phantom_a = Uuid7::now();
    let phantom_b = Uuid7::now();
    let new_node = Node::fresh(NodeKind::new("v"));
    let new_uuid = new_node.id;
    let assigned = idx.insert_node(&new_node, &[phantom_a, phantom_b]).unwrap();

    assert!(
        assigned as usize >= build.clusters,
        "singleton {assigned} should be at or past existing cluster count {}",
        build.clusters
    );

    let members = idx.cluster_members(assigned).unwrap().unwrap();
    assert_eq!(members, vec![new_uuid]);

    let (size, hub_count) = idx.cluster_meta(assigned).unwrap().unwrap();
    assert_eq!((size, hub_count), (1, 0));
    let (_gen, delta) = idx.cluster_drift(assigned).unwrap();
    assert_eq!(delta, 1);
}

#[test]
fn insert_node_with_empty_seeds_creates_singleton() {
    let dir = TempDir::new().unwrap();
    let mut idx = SwIndex::open(dir.path()).unwrap();
    let (nodes, edges) = two_disjoint_triangles();
    let src = SliceSource::new(&nodes, &edges);
    let build = idx.build_from_source(&src).unwrap();

    let new_node = Node::fresh(NodeKind::new("v"));
    let assigned = idx.insert_node(&new_node, &[]).unwrap();
    assert!(assigned as usize >= build.clusters);
}

#[test]
fn insert_node_rejects_duplicate_uuid() {
    let dir = TempDir::new().unwrap();
    let mut idx = SwIndex::open(dir.path()).unwrap();
    let (nodes, edges) = two_disjoint_triangles();
    let src = SliceSource::new(&nodes, &edges);
    idx.build_from_source(&src).unwrap();

    let dup = Node {
        id: nodes[0].id,
        kind: NodeKind::new("v"),
    };
    let err = idx.insert_node(&dup, &[nodes[1].id]).unwrap_err();
    match err {
        SwIndexError::Corruption(msg) => assert!(
            msg.contains("already exists"),
            "expected duplicate-uuid corruption, got {msg}"
        ),
        other => panic!("expected Corruption, got {other:?}"),
    }
}

#[test]
fn drift_report_after_inserts_matches_individual_lookups() {
    let dir = TempDir::new().unwrap();
    let mut idx = SwIndex::open(dir.path()).unwrap();
    let (nodes, edges) = two_disjoint_triangles();
    let src = SliceSource::new(&nodes, &edges);
    let build = idx.build_from_source(&src).unwrap();

    let cluster_a = idx.cluster_of(nodes[0].id).unwrap().unwrap();
    let cluster_b = idx.cluster_of(nodes[3].id).unwrap().unwrap();

    for _ in 0..2 {
        let n = Node::fresh(NodeKind::new("v"));
        idx.insert_node(&n, &[nodes[0].id]).unwrap();
    }
    let n = Node::fresh(NodeKind::new("v"));
    idx.insert_node(&n, &[nodes[3].id]).unwrap();

    let report = idx.drift_report().unwrap();
    assert_eq!(
        report.cluster_count(),
        build.clusters,
        "drift report should cover every cluster from the build"
    );
    assert_eq!(report.total_inserts(), 3);
    assert_eq!(report.per_cluster.get(&cluster_a).unwrap().delta_inserts, 2);
    assert_eq!(report.per_cluster.get(&cluster_b).unwrap().delta_inserts, 1);

    for (&cid, cd) in &report.per_cluster {
        let (gen_, delta) = idx.cluster_drift(cid).unwrap();
        assert_eq!(cd.generation, gen_);
        assert_eq!(cd.delta_inserts, delta);
    }
}

#[test]
fn maintain_with_never_rebalance_is_a_noop() {
    let dir = TempDir::new().unwrap();
    let mut idx = SwIndex::open(dir.path()).unwrap();
    let (nodes, edges) = two_disjoint_triangles();
    let src = SliceSource::new(&nodes, &edges);
    idx.build_from_source(&src).unwrap();

    for _ in 0..5 {
        let n = Node::fresh(NodeKind::new("v"));
        idx.insert_node(&n, &[nodes[0].id]).unwrap();
    }

    let drift_before = idx.drift_report().unwrap();
    let cluster_a = idx.cluster_of(nodes[0].id).unwrap().unwrap();
    let (size_before, _) = idx.cluster_meta(cluster_a).unwrap().unwrap();

    let report = idx.maintain(&NeverRebalance).unwrap();
    assert!(
        report.actions_taken.is_empty(),
        "NeverRebalance should return no actions"
    );

    let drift_after = idx.drift_report().unwrap();
    assert_eq!(
        drift_after.total_inserts(),
        drift_before.total_inserts(),
        "maintain with NeverRebalance must not reset drift"
    );
    let (size_after, _) = idx.cluster_meta(cluster_a).unwrap().unwrap();
    assert_eq!(size_after, size_before);
}

#[test]
fn insert_node_survives_close_and_reopen() {
    let dir = TempDir::new().unwrap();
    let new_uuid;
    let assigned_cluster;
    {
        let mut idx = SwIndex::open(dir.path()).unwrap();
        let (nodes, edges) = two_disjoint_triangles();
        let src = SliceSource::new(&nodes, &edges);
        idx.build_from_source(&src).unwrap();
        let new_node = Node::fresh(NodeKind::new("v"));
        new_uuid = new_node.id;
        assigned_cluster = idx.insert_node(&new_node, &[nodes[0].id]).unwrap();
    }

    let reopened = SwIndex::open(dir.path()).unwrap();
    assert_eq!(
        reopened.cluster_of(new_uuid).unwrap(),
        Some(assigned_cluster)
    );
    let (_gen, delta) = reopened.cluster_drift(assigned_cluster).unwrap();
    assert_eq!(delta, 1, "drift counter must survive close/reopen");

    let result = reopened
        .query(QueryKind::SameCluster { start: new_uuid })
        .unwrap();
    assert!(result.uuids.contains(&new_uuid));
}

#[test]
fn round_trip_each_variable_encoder() {
    let uuids = vec![Uuid7::now(), Uuid7::now(), Uuid7::now()];
    let buf = encode_uuid_vec(&uuids).unwrap();
    let decoded = decode_uuid_vec(&buf, "cluster_members").unwrap();
    assert_eq!(decoded, uuids);

    let neighbors = vec![(Uuid7::now(), 0.25_f32.to_bits()), (Uuid7::now(), 0.5_f32.to_bits())];
    let buf = encode_hub_neighbors(&neighbors).unwrap();
    let decoded = decode_hub_neighbors(&buf, "hub_neighbors").unwrap();
    assert_eq!(decoded.len(), neighbors.len());
    for (got, want) in decoded.iter().zip(neighbors.iter()) {
        assert_eq!(got.0, want.0);
        assert!((f32::from_bits(got.1) - f32::from_bits(want.1)).abs() < f32::EPSILON);
    }

    let buf = encode_cluster_meta(123, 4);
    assert_eq!(decode_cluster_meta(&buf).unwrap(), (123, 4));
}

#[test]
fn every_built_member_is_filed_under_its_cluster() {
    let dir = TempDir::new().unwrap();
    let mut idx = SwIndex::open(dir.path()).unwrap();
    let src = karate();
    let stats = idx.build_from_source(&src).unwrap();
    let mut total = 0;
    let mut hubs = 0;
    for cid in 0..stats.clusters as u32 {
        let members = idx.cluster_members(cid).unwrap().unwrap();
        assert!(members.windows(2).all(|w| w[0] < w[1]), "members are in order");
        for &id in &members {
            assert_eq!(idx.cluster_of(id).unwrap(), Some(cid));
            assert_eq!(idx.hub_neighbors(id).unwrap().is_empty(), !idx.is_hub(id).unwrap());
        }
        let (size, hub_count) = idx.cluster_meta(cid).unwrap().unwrap();
        assert_eq!(size as usize, members.len());
        assert_eq!(idx.cluster_drift(cid).unwrap(), (0, 0));
        total += members.len();
        hubs += hub_count as usize;
    }
    assert_eq!(total, 34);
    assert_eq!(hubs, 4);
}

#[test]
fn hub_links_carry_the_inverse_of_their_hops() {
    let dir = TempDir::new().unwrap();
    let mut idx = SwIndex::open(dir.path()).unwrap();
    let src = karate();
    idx.build_from_source(&src).unwrap();
    let thirds = 1.0_f32 / 3.0;
    let weights = [1.0_f32.to_bits(), 0.5_f32.to_bits(), thirds.to_bits()];
    for node in src.nodes() {
        for (hub, bits) in idx.hub_neighbors(node.id).unwrap() {
            assert!(weights.contains(&bits));
            assert!(idx.hub_neighbors(hub).unwrap().contains(&(node.id, bits)));
        }
    }
}

#[test]
fn similar_lists_its_own_cluster_first() {
    let dir = TempDir::new().unwrap();
    let mut idx = SwIndex::open(dir.path()).unwrap();
    let src = karate();
    idx.build_from_source(&src).unwrap();
    let start = src.nodes()[0].id;
    let own = idx.query(QueryKind::SameCluster { start }).unwrap();
    assert!(own.uuids.contains(&start));
    let found = idx.query(QueryKind::Similar { start, limit: 33 }).unwrap();
    let mates: Vec<Uuid7> = own.uuids.iter().copied().filter(|&id| id != start).collect();
    assert_eq!(found.uuids[..mates.len()], mates[..]);
}

#[test]
fn inserting_keeps_members_and_sizes_in_step() {
    let dir = TempDir::new().unwrap();
    let mut idx = SwIndex::open(dir.path()).unwrap();
    let (nodes, edges) = two_disjoint_triangles();
    idx.build_from_source(&SliceSource::new(&nodes, &edges)).unwrap();
    let node = Node::fresh(NodeKind::new("v"));
    let seeds = [nodes[4].id, nodes[0].id, nodes[5].id, nodes[4].id];
    let cluster = idx.insert_node(&node, &seeds).unwrap();
    assert_eq!(cluster, idx.cluster_of(nodes[4].id).unwrap().unwrap());
    assert_eq!(idx.region_of(node.id).unwrap(), idx.region_of(nodes[4].id).unwrap());
    let members = idx.cluster_members(cluster).unwrap().unwrap();
    assert_eq!(idx.cluster_meta(cluster).unwrap().unwrap().0 as usize, members.len());
    let other = Node::fresh(NodeKind::new("v"));
    let fresh = idx.insert_node(&other, &[]).unwrap();
    assert_eq!(fresh, 2);
    assert_eq!(idx.cluster_members(fresh).unwrap().unwrap(), vec![other.id]);
    let err = idx.insert_node(&other, &[]).unwrap_err();
    let text = format!("insert_node: uuid {} already exists in the index", other.id.to_string());
    assert!(err.to_string().contains(&text), "{}", err.to_string());
}

#[test]
fn dangling_edges_stop_a_build() {
    let (nodes, edges) = two_disjoint_triangles();
    match layout::build_from_source(&SliceSource::new(&nodes[1..], &edges), &vec![0; nodes.len() - 1]) {
        Err(SwIndexError::Graph(GraphError::DanglingEdge { which })) => assert_eq!(which, nodes[0].id),
        _ => panic!("expected a dangling edge"),
    }
}

#[test]
fn an_empty_graph_builds_an_empty_index() {
    let built = layout::build_from_source(&SliceSource::new(&[], &[]), &Vec::new()).ok().unwrap();
    assert_eq!(built.stats, BuildStats { nodes: 0, clusters: 0, regions: 0, hubs: 0 });
    assert_eq!(built.writes.len(), 0);
}

#[test]
fn stored_bytes_are_little_endian() {
    assert_eq!(encode_u32(0x0102_0304), vec![4, 3, 2, 1]);
    assert_eq!(decode_u32(&[4, 3, 2, 1], "x").ok(), Some(0x0102_0304));
    assert!(decode_u32(&[4, 3, 2], "x").is_err());
    assert_eq!(encode_cluster_meta(1, 2), vec![FORMAT_V1, 1, 0, 0, 0, 2, 0, 0, 0]);
    let drift = encode_cluster_drift(7, 9);
    assert_eq!(drift, vec![FORMAT_V1, 7, 0, 0, 0, 0, 0, 0, 0, 9, 0, 0, 0]);
    assert_eq!(decode_cluster_drift(&drift).ok(), Some((7, 9)));
    let id = Uuid7::now();
    assert_eq!(uuid_key(&id), id.as_bytes().to_vec());
}

#[test]
fn a_uuid_of_another_version_is_corruption() {
    let mut buf = encode_uuid_vec(&[Uuid7::now()]).unwrap();
    let version = buf.len() - 10;
    buf[version] = 0x4F;
    assert!(matches!(decode_uuid_vec(&buf, "cluster_members"), Err(SwIndexError::Corruption(_))));
    buf.pop();
    assert!(matches!(decode_uuid_vec(&buf, "cluster_members"), Err(SwIndexError::Corruption(_))));
}

#[test]
fn a_stray_drift_key_is_corruption() {
    let rows = vec![(vec![0; 3], encode_cluster_drift(0, 0))];
    assert!(matches!(index::drift_report(&rows), Err(SwIndexError::Corruption(_))));
    let rows = vec![(encode_u32(5), encode_cluster_drift(1, 2)), (encode_u32(6), vec![9])];
    match index::drift_report(&rows) {
        Err(SwIndexError::UnsupportedFormat { found: 9, context }) => assert_eq!(context, "cluster_drift"),
        _ => panic!("expected an unsupported format"),
    }
}

#[test]
fn new_clusters_get_the_lowest_id_above_all() {
    assert_eq!(index::allocate_next_cluster_id(&[]).ok(), Some(0));
    let keys = vec![encode_u32(0), encode_u32(7), encode_u32(3)];
    assert_eq!(index::allocate_next_cluster_id(&keys).ok(), Some(8));
    let keys = vec![encode_u32(u32::MAX)];
    assert!(matches!(index::allocate_next_cluster_id(&keys), Err(SwIndexError::Corruption(_))));
}

#[test]
fn labels_are_listed_once_and_in_order() {
    let labels: Vec<String> = ["b", "ab", "a", "é", "b", "B"].iter().map(|l| l.to_string()).collect();
    assert_eq!(sorted_labels(&labels), vec!["B", "a", "ab", "b", "b", "é"]);
    assert_eq!(joined_labels(&labels), "b, ab, a, é, b, B");
    assert_eq!(joined_labels(&Vec::new()), "");
    let listing = table_listing(&labels, None, 3);
    assert_eq!(listing.labels, vec!["B", "a", "ab"]);
    assert_eq!(listing.filtered_out, 0);
    let listing = table_listing(&labels, Some("b"), 9);
    assert_eq!(listing.labels, vec!["ab", "b"]);
    assert_eq!(listing.filtered_out, 3);
    let listing = table_listing(&labels, Some("b"), 1);
    assert_eq!(listing.labels, vec!["ab"]);
    assert_eq!(listing.filtered_out, 2);
    assert_eq!(table_listing(&labels, Some(""), 9).labels.len(), 5);
}

#[test]
fn clusters_are_listed_by_size_up_to_a_limit() {
    let metas = [Some((5, 1)), None, Some((1, 0)), Some((2, 0)), Some((9, 0)), Some((8, 0))];
    let mut listing = ClusterListing::new(6, 2, 2);
    let mut shown = Vec::new();
    while let Some(cluster) = listing.wanted() {
        let (next, show) = listing.answer(metas[cluster as usize]);
        listing = next;
        if show {
            shown.push(cluster);
        }
    }
    assert_eq!(shown, vec![0, 3]);
    assert_eq!(listing.shown(), 2);
    assert_eq!(listing.below_threshold(), 1);
    assert_eq!(ClusterListing::new(0, 1, 1).wanted(), None);
}

#[test]
fn drift_is_listed_with_most_inserts_first() {
    let mut report = DriftReport::default();
    for cluster in 0..60_u32 {
        let drift = ClusterDrift { generation: 0, delta_inserts: cluster % 20 };
        report.per_cluster.insert(cluster, drift);
    }
    let rows = drift_listing(&report);
    assert_eq!(rows.len(), 50);
    let first: Vec<u32> = rows.iter().take(4).map(|row| row.0).collect();
    assert_eq!(first, vec![19, 39, 59, 18]);
    report.per_cluster.retain(|&cluster, _| cluster % 20 < 2);
    let rows: Vec<u32> = drift_listing(&report).iter().map(|row| row.0).collect();
    assert_eq!(rows, vec![1, 21, 41]);
}

#[test]
fn a_second_build_leaves_the_nodes_it_does_not_know() {
    let dir = TempDir::new().unwrap();
    let mut idx = SwIndex::open(dir.path()).unwrap();
    let src = karate();
    idx.build_from_source(&src).unwrap();
    let old: Vec<_> = src.nodes().iter().map(|n| idx.cluster_of(n.id).unwrap()).collect();
    let (nodes, edges) = two_disjoint_triangles();
    idx.build_from_source(&SliceSource::new(&nodes, &edges)).unwrap();
    let now: Vec<_> = src.nodes().iter().map(|n| idx.cluster_of(n.id).unwrap()).collect();
    assert_eq!(old, now);
    assert!(nodes.iter().all(|n| idx.cluster_of(n.id).unwrap().is_some()));
}

/// A write of the three values of a node and of the links of a hub.
fn node_writes(id: Uuid7, cluster: u32, links: Option<&[(Uuid7, u32)]>) -> Vec<Write> {
    let mut writes = vec![
        Write { table: Table::UuidToCluster, key: uuid_key(&id), value: encode_u32(cluster) },
        Write { table: Table::UuidToRegion, key: uuid_key(&id), value: encode_u32(0) },
        Write { table: Table::UuidIsHub, key: uuid_key(&id), value: vec![u8::from(links.is_some())] },
    ];
    if let Some(links) = links {
        writes.push(Write {
            table: Table::HubNeighbors,
            key: uuid_key(&id),
            value: encode_hub_neighbors(links).unwrap(),
        });
    }
    writes
}

#[test]
fn a_cluster_with_two_linked_hubs_counts_once() {
    let dir = TempDir::new().unwrap();
    let idx = SwIndex::open(dir.path()).unwrap();
    let ids: Vec<Uuid7> = (0..6).map(|_| Uuid7::now()).collect();
    let links = [(ids[2], 0x3f80_0000), (ids[3], 0x3f00_0000), (ids[5], 0x3eaa_aaab)];
    let mut writes = node_writes(ids[0], 0, Some(&links));
    writes.extend(node_writes(ids[1], 0, None));
    writes.extend(node_writes(ids[2], 1, Some(&[])));
    writes.extend(node_writes(ids[3], 1, Some(&[])));
    writes.extend(node_writes(ids[4], 1, None));
    writes.extend(node_writes(ids[5], 2, Some(&[])));
    for (cluster, members) in [(0, &ids[0..2]), (1, &ids[2..5]), (2, &ids[5..6])] {
        writes.push(Write {
            table: Table::ClusterMembers,
            key: encode_u32(cluster),
            value: encode_uuid_vec(members).unwrap(),
        });
    }
    idx.apply(writes);
    let all = idx.query(QueryKind::Similar { start: ids[0], limit: 10 }).unwrap();
    assert_eq!(all.uuids, ids[1..].to_vec());
    assert_eq!(all.stats.clusters_visited, 3);
    assert_eq!(all.stats.hubs_visited, 3);
    let some = idx.query(QueryKind::Similar { start: ids[0], limit: 4 }).unwrap();
    assert_eq!(some.uuids, ids[1..5].to_vec());
    assert_eq!(some.stats.clusters_visited, 2);
    assert_eq!(some.stats.hubs_visited, 1);
    let own = idx.query(QueryKind::Similar { start: ids[0], limit: 1 }).unwrap();
    assert_eq!(own.uuids, vec![ids[1]]);
    assert_eq!(own.stats.clusters_visited, 1);
    assert_eq!(own.stats.hubs_visited, 0);
}

#[test]
fn labels_read_back_after_a_build() {
    let dir = TempDir::new().unwrap();
    let mut idx = SwIndex::open(dir.path()).unwrap();
    let text = "USE shop;\nCREATE TABLE `kund\u{e9}` (\n);\nCREATE TABLE `\u{65e5}` (\n  \
                FOREIGN KEY (`x`) REFERENCES `kund\u{e9}` (`id`)\n);\n";
    let src = SqlDumpSource::from_sql(text).ok().unwrap();
    idx.build_from_source(&src).unwrap();
    for (name, id) in src.tables_named() {
        let raw = idx.read(Table::UuidToLabel, &uuid_key(&id));
        assert_eq!(raw.as_deref(), Some(name.as_bytes()));
        assert_eq!(labels::label_of(raw.as_deref()).unwrap(), Some(name.clone()));
        let raw = idx.read(Table::LabelToUuid, &labels::label_key(&name));
        assert_eq!(labels::uuid_of_label(raw.as_deref()).unwrap(), Some(id));
        assert!(idx.cluster_of(id).unwrap().is_some());
    }
    let raw = idx.read(Table::LabelToUuid, &labels::label_key("shop.none"));
    assert_eq!(labels::uuid_of_label(raw.as_deref()).unwrap(), None);
    assert_eq!(labels::label_of(None).unwrap(), None);
}

#[test]
fn a_source_without_labels_stores_none() {
    let dir = TempDir::new().unwrap();
    let mut idx = SwIndex::open(dir.path()).unwrap();
    idx.build_from_source(&karate()).unwrap();
    assert_eq!(idx.table(Table::UuidToLabel).approximate_len(), 0);
    assert_eq!(idx.table(Table::LabelToUuid).approximate_len(), 0);
}

#[test]
fn malformed_labels_are_reported() {
    let message = |e: SwIndexError| match e {
        SwIndexError::Corruption(reason) => reason,
        other => panic!("{}", other.to_string()),
    };
    let bad = labels::label_of(Some(&[0x61, 0xff])).unwrap_err();
    assert_eq!(message(bad), "label_of: stored label is not UTF-8");
    let short = labels::uuid_of_label(Some(&[1, 2, 3])).unwrap_err();
    assert_eq!(message(short), "uuid_of_label: expected 16 bytes, got 3");
    let other = labels::uuid_of_label(Some(&[0; 16])).unwrap_err();
    assert_eq!(message(other), "uuid_of_label: stored UUID is not version 7");
}

/// Two cliques of five nodes, and a node between them.
fn bridged_cliques() -> (Vec<Node>, Vec<Edge>) {
    let nodes: Vec<Node> = (0..11).map(|_| Node::fresh(NodeKind::new("v"))).collect();
    let mut edges = Vec::new();
    let mut link = |a: usize, b: usize| {
        edges.push(Edge::fresh(nodes[a].id, nodes[b].id, EdgeKind::new("e")));
    };
    for start in [0, 5] {
        for a in start..start + 5 {
            for b in a + 1..start + 5 {
                link(a, b);
            }
        }
    }
    link(10, 0);
    link(10, 5);
    (nodes, edges)
}

#[test]
fn a_bridge_is_a_hub_though_its_degree_is_low() {
    let dir = TempDir::new().unwrap();
    let mut idx = SwIndex::open(dir.path()).unwrap();
    let (nodes, edges) = bridged_cliques();
    let stats = idx.build_from_source(&SliceSource::new(&nodes, &edges)).unwrap();
    let hubs: Vec<usize> = (0..11).filter(|&u| idx.is_hub(nodes[u].id).unwrap()).collect();
    assert_eq!(hubs, vec![0, 5, 10]);
    assert_eq!(stats.hubs, 3);
}

#[test]
fn the_cluster_graph_reads_back_after_a_build() {
    let dir = TempDir::new().unwrap();
    let mut idx = SwIndex::open(dir.path()).unwrap();
    let src = karate();
    let stats = idx.build_from_source(&src).unwrap();
    let graph = Graph::from_source(&src).unwrap();
    let adjacency = cluster_adjacency(&graph, &leiden(&graph));
    assert_eq!(adjacency.len(), stats.clusters);
    assert!(adjacency.iter().any(|list| !list.is_empty()));
    for (c, list) in adjacency.iter().enumerate() {
        let raw = idx.read(Table::ClusterNeighbors, &encode_u32(c as u32));
        assert_eq!(&neighbors::cluster_neighbors(raw.as_deref()).unwrap(), list);
    }
    let raw = idx.read(Table::ClusterNeighbors, &encode_u32(stats.clusters as u32));
    assert_eq!(raw, None);
    assert_eq!(neighbors::cluster_neighbors(None).unwrap(), vec![]);
}

#[test]
fn neighbors_of_clusters_have_a_stored_form() {
    let list = vec![(1, 2), (0x0403_0201, u64::MAX)];
    let bytes = neighbors::encode_cluster_neighbors(&list);
    let mut want = vec![FORMAT_V1, 2, 0, 0, 0, 1, 0, 0, 0, 2, 0, 0, 0, 0, 0, 0, 0, 1, 2, 3, 4];
    want.extend([0xff; 8]);
    assert_eq!(bytes, want);
    assert_eq!(neighbors::cluster_neighbors(Some(&bytes)).unwrap(), list);
    assert!(neighbors::cluster_neighbors(Some(&[])).is_err());
    assert!(neighbors::cluster_neighbors(Some(&bytes[..12])).is_err());
}

#[test]
fn labels_that_cannot_be_keys_are_left_out() {
    let dir = TempDir::new().unwrap();
    let mut idx = SwIndex::open(dir.path()).unwrap();
    let long = "x".repeat(65_536);
    let most = "y".repeat(65_535);
    let text = format!("CREATE TABLE `` (\n);\nCREATE TABLE `{long}` (\n);\nCREATE TABLE `{most}` (\n);\n");
    let src = SqlDumpSource::from_sql(&text).ok().unwrap();
    assert_eq!(src.table_count(), 3);
    idx.build_from_source(&src).unwrap();
    for (name, id) in src.tables_named() {
        let raw = idx.read(Table::UuidToLabel, &uuid_key(&id));
        let label = labels::label_of(raw.as_deref()).unwrap();
        assert_eq!(label, if name == most { Some(name.clone()) } else { None });
        assert_eq!(labels::is_storable(&name), name == most);
        assert!(idx.cluster_of(id).unwrap().is_some());
    }
}
