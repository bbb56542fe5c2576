//! Building an index from a graph.
//!
//! The nodes are clustered, the clusters are grouped into regions, the top tenth of the
//! nodes by degree and the top tenth by betweenness become hubs, and hubs within three
//! steps of each other are linked. The edges between clusters and what the source calls
//! its nodes are stored too.
//! The result is a list of values to write, together or not at all.
use crate::bytes::le_bytes;
use crate::codec::{
    cluster_drift_bytes, cluster_meta_bytes, corrupt, encode_cluster_drift, encode_cluster_meta,
    encode_hub_neighbors, encode_u32, encode_uuid_vec, hub_neighbors_bytes, link_values, uuid_key,
    uuid_vec_bytes, values, Failure, SwIndexError,
};
use crate::built::{holds_build, law_build_holds};
use crate::community::{
    cluster_adjacency, cluster_regions, is_cluster_list, leiden, leiden_labels,
};
use crate::distinct::lemma_index_of;
use crate::graph::{first_dangling, ids_of, neighbor_lists, Graph, MAX_EDGES};
use crate::hub::{are_top_by_both, increasing, Fraction, HubSet};
use crate::hub_graph::{links, HubGraph};
use crate::id::{version_of, Uuid7};
use crate::index::{applied, cluster_key, entries, node_key, BuildStats, Entry, Table, Write};
use crate::labels::{all_named_version_7, answered, label_entries, label_writes, named};
use crate::node::{Edge, Node};
use crate::neighbors::{
    lemma_neighbors_fit, list_values, neighbor_entries, neighbor_writes, neighbors_fit,
};
use crate::partition::{label_count, lemma_labels, lemma_members, members, Partition};
use crate::region::RegionGraph;
use crate::sort::{distinct_keys, increasing_keys};
use crate::source::GraphSource;
use crate::weighted::matrix;
use vstd::prelude::*;
use vstd::relations::{sorted_by, total_ordering};

verus! {

/// The fraction of the nodes that become hubs.
pub open spec fn hub_fraction() -> Fraction {
    Fraction { numerator: 1, denominator: 10 }
}

/// The number of steps within which hubs are linked.
pub const HUB_GRAPH_K_HOP: usize = 3;

/// What an index is built from.
pub struct Layout {
    /// The identifiers of the nodes.
    pub ids: Seq<u128>,
    /// The adjacency lists of the nodes.
    pub lists: Seq<Seq<(usize, u64)>>,
    /// The cluster of each node.
    pub labels: Seq<usize>,
    /// The region of each cluster.
    pub regions: Seq<usize>,
    /// The hubs, ascending.
    pub hubs: Seq<usize>,
    /// The clusters that each cluster has edges to, with the weight between them.
    pub adjacency: Seq<Seq<(usize, u64)>>,
}

impl Layout {
    /// The number of clusters.
    pub open spec fn count(self) -> nat {
        self.regions.len()
    }
}

/// The hubs of a graph: the top nodes by degree and the top nodes by centrality,
/// ascending.
pub open spec fn are_hubs(
    hubs: Seq<usize>,
    weights: Seq<Seq<int>>,
    centrality: Seq<u64>,
) -> bool {
    are_top_by_both(hubs, weights, centrality, hub_fraction())
}

/// The layout of an index on the nodes with the given identifiers and adjacency lists.
pub open spec fn layout_of(
    ids: Seq<u128>,
    lists: Seq<Seq<(usize, u64)>>,
    hubs: Seq<usize>,
    adjacency: Seq<Seq<(usize, u64)>>,
) -> Layout {
    let labels = leiden_labels(matrix(lists), 42);
    Layout {
        ids,
        lists,
        labels,
        regions: cluster_regions(matrix(lists), labels, label_count(labels), 42),
        hubs,
        adjacency,
    }
}

/// The layout of an index on the given nodes and edges.
pub open spec fn source_layout(
    nodes: Seq<Node>,
    edges: Seq<Edge>,
    hubs: Seq<usize>,
    adjacency: Seq<Seq<(usize, u64)>>,
) -> Layout {
    layout_of(values(ids_of(nodes)), neighbor_lists(ids_of(nodes), edges), hubs, adjacency)
}

/// The weight of a link of `hops` steps: the bit pattern of the reciprocal of 1, 2 or 3
/// as a single-precision number.
pub open spec fn weight_bits(hops: usize) -> u32 {
    if hops == 1 {
        0x3f80_0000
    } else if hops == 2 {
        0x3f00_0000
    } else {
        0x3eaa_aaab
    }
}

/// The links of a hub.
pub open spec fn hub_links(l: Layout, h: usize) -> Seq<(u128, u32)> {
    links(l.lists, l.hubs, HUB_GRAPH_K_HOP as nat, h, l.hubs.len()).map_values(
        |e: (usize, usize)| (l.ids[e.0 as int], weight_bits(e.1)),
    )
}

/// The order of identifiers.
pub open spec fn id_order() -> spec_fn(u128, u128) -> bool {
    |a: u128, b: u128| a <= b
}

/// The nodes of cluster `c`, ascending.
pub open spec fn cluster_ids(l: Layout, c: int) -> Seq<u128> {
    members(l.labels, c, l.labels.len()).map_values(|u: usize| l.ids[u as int]).sort_by(id_order())
}

/// How many of the nodes are hubs.
pub open spec fn hub_total(hubs: Seq<usize>, nodes: Seq<usize>) -> nat
    decreases nodes.len(),
{
    if nodes.len() == 0 {
        0
    } else {
        hub_total(hubs, nodes.drop_last()) + if hubs.contains(nodes.last()) {
            1nat
        } else {
            0
        }
    }
}

/// The `i`-th value to write of those of the nodes: three for each.
pub open spec fn node_entry(l: Layout, i: int) -> Entry {
    let u = i / 3;
    let key = node_key(l.ids[u]);
    if i % 3 == 0 {
        (Table::UuidToCluster, key, le_bytes(l.labels[u] as nat, 4))
    } else if i % 3 == 1 {
        (Table::UuidToRegion, key, le_bytes(l.regions[l.labels[u] as int] as nat, 4))
    } else {
        (Table::UuidIsHub, key, seq![if l.hubs.contains(u as usize) { 1u8 } else { 0u8 }])
    }
}

/// The `i`-th value to write of those of the hubs: one for each.
pub open spec fn hub_entry(l: Layout, i: int) -> Entry {
    (
        Table::HubNeighbors,
        node_key(l.ids[l.hubs[i] as int]),
        hub_neighbors_bytes(hub_links(l, l.hubs[i])),
    )
}

/// The `i`-th value to write of those of the clusters: three for each.
pub open spec fn cluster_entry(l: Layout, i: int) -> Entry {
    let c = i / 3;
    let key = cluster_key(c as u32);
    let nodes = members(l.labels, c, l.labels.len());
    if i % 3 == 0 {
        (Table::ClusterMembers, key, uuid_vec_bytes(cluster_ids(l, c)))
    } else if i % 3 == 1 {
        (
            Table::ClusterMeta,
            key,
            cluster_meta_bytes(nodes.len() as u32, hub_total(l.hubs, nodes) as u32),
        )
    } else {
        (Table::ClusterDrift, key, cluster_drift_bytes(0, 0))
    }
}

/// The values to write of the nodes, the hubs and the clusters.
pub open spec fn build_entries(l: Layout) -> Seq<Entry> {
    Seq::new(3 * l.ids.len(), |i: int| node_entry(l, i)) + Seq::new(
        l.hubs.len(),
        |i: int| hub_entry(l, i),
    ) + Seq::new(3 * l.count(), |i: int| cluster_entry(l, i))
}

/// All values to write: those of the layout, those of the edges between clusters and
/// those of the labels of the nodes.
pub open spec fn all_entries(l: Layout, named: Seq<(u128, Seq<char>)>) -> Seq<Entry> {
    build_entries(l) + neighbor_entries(l.adjacency) + label_entries(named)
}

/// Some hub has more links than can be stored.
pub open spec fn too_many_links(l: Layout) -> bool {
    exists|i: int| 0 <= i < l.hubs.len() && hub_links(l, #[trigger] l.hubs[i]).len() > u32::MAX
}

/// Some cluster has more nodes than can be stored.
pub open spec fn too_many_members(l: Layout) -> bool {
    exists|c: int|
        0 <= c < l.count() && (#[trigger] members(l.labels, c, l.labels.len())).len() > u32::MAX
}

/// The values to write, or why they cannot be stored.
pub open spec fn plan(l: Layout) -> Result<Seq<Entry>, Failure> {
    if l.count() > 0x1_0000_0000 {
        Err(Failure::Corruption("cluster id exceeds u32 range"@))
    } else if too_many_links(l) {
        Err(Failure::Corruption("hub-neighbors len exceeds u32"@))
    } else if too_many_members(l) {
        Err(Failure::Corruption("vec len exceeds u32"@))
    } else {
        Ok(build_entries(l))
    }
}

/// The identifiers of the nodes of a layout are of version 7.
pub open spec fn all_version_7(l: Layout) -> bool {
    forall|u: int| 0 <= u < l.ids.len() ==> version_of(#[trigger] l.ids[u]) == 7
}

/// What a build came to.
pub struct Built {
    /// What it found.
    pub stats: BuildStats,
    /// The values to write.
    pub writes: Vec<Write>,
}

/// A build came to what the layout and the labels of the nodes say.
pub open spec fn is_built(
    r: Result<Built, SwIndexError>,
    l: Layout,
    named: Seq<(u128, Seq<char>)>,
) -> bool {
    match (r, plan(l)) {
        (Ok(built), Ok(writes)) => {
            &&& writes == build_entries(l)
            &&& entries(built.writes@) == all_entries(l, named)
            &&& all_version_7(l)
            &&& all_named_version_7(named)
            &&& built.stats.nodes == l.ids.len()
            &&& built.stats.clusters == l.count()
            &&& built.stats.regions == label_count(l.regions)
            &&& built.stats.hubs == l.hubs.len()
        },
        (Err(e), Err(f)) => e@ == f,
        _ => false,
    }
}

/// A build of some nodes and edges came to what they, their centrality and their labels
/// say, with these hubs and these edges between clusters.
pub open spec fn is_built_with(
    r: Result<Built, SwIndexError>,
    nodes: Seq<Node>,
    edges: Seq<Edge>,
    centrality: Seq<u64>,
    hubs: Seq<usize>,
    adjacency: Seq<Seq<(usize, u64)>>,
    named: Seq<(u128, Seq<char>)>,
) -> bool {
    let l = source_layout(nodes, edges, hubs, adjacency);
    &&& is_layout(l)
    &&& are_hubs(hubs, matrix(l.lists), centrality)
    &&& is_built(r, l, named)
}

pub proof fn lemma_id_order()
    ensures
        total_ordering(id_order()),
{
}

/// Ascending lists without repetition that hold the same values as `s`, which has none
/// either, are `s` in order.
proof fn lemma_ascending(sorted: Seq<u128>, s: Seq<u128>)
    requires
        increasing_keys(sorted),
        s.no_duplicates(),
        forall|x: u128| sorted.contains(x) <==> #[trigger] s.contains(x),
    ensures
        sorted == s.sort_by(id_order()),
        sorted.len() == s.len(),
{
    lemma_id_order();
    s.lemma_sort_by_ensures(id_order());
    assert(sorted.no_duplicates());
    assert(sorted.to_multiset() =~= s.to_multiset()) by {
        sorted.to_multiset_ensures();
        s.to_multiset_ensures();
        sorted.lemma_multiset_has_no_duplicates();
        s.lemma_multiset_has_no_duplicates();
        assert forall|x: u128| #[trigger]
            sorted.to_multiset().count(x) == s.to_multiset().count(x) by {
            assert(sorted.contains(x) <==> s.contains(x));
        }
    }
    sorted.to_multiset_ensures();
    s.to_multiset_ensures();
    assert(sorted_by(sorted, id_order()));
    vstd::seq_lib::lemma_sorted_unique(sorted, s.sort_by(id_order()), id_order());
}

/// The nodes of a layout are numbered as its parts say.
pub open spec fn is_layout(l: Layout) -> bool {
    &&& l.ids.no_duplicates()
    &&& l.ids.len() == l.labels.len() == l.lists.len() <= usize::MAX
    &&& forall|u: int| 0 <= u < l.labels.len() ==> (#[trigger] l.labels[u]) < l.count()
    &&& l.count() <= l.labels.len()
    &&& forall|c: int|
        0 <= c < l.count() ==> (#[trigger] l.regions[c]) < l.count() && l.regions[c]
            < label_count(l.regions)
    &&& forall|c: int| 0 <= c < l.count() ==> l.labels.contains(#[trigger] (c as usize))
    &&& increasing(l.hubs)
    &&& forall|i: int| 0 <= i < l.hubs.len() ==> (#[trigger] l.hubs[i]) < l.ids.len()
    &&& l.adjacency.len() == l.count()
    &&& forall|c: int|
        0 <= c < l.count() ==> is_cluster_list(
            #[trigger] l.adjacency[c],
            matrix(l.lists),
            l.labels,
            l.count(),
            c,
        )
}

/// Appends the three values of a node.
fn push_node(
    writes: &mut Vec<Write>,
    id: &Uuid7,
    cluster: u32,
    region: u32,
    hub: bool,
    Ghost(l): Ghost<Layout>,
    Ghost(u): Ghost<int>,
)
    requires
        0 <= u,
        l.ids[u] == id@,
        l.labels[u] == cluster,
        l.regions[l.labels[u] as int] == region,
        hub == l.hubs.contains(u as usize),
    ensures
        entries(final(writes)@) == entries(old(writes)@).push(node_entry(l, 3 * u)).push(
            node_entry(l, 3 * u + 1),
        ).push(node_entry(l, 3 * u + 2)),
        version_of(id@) == 7,
{
    let ghost before = entries(writes@);
    let mut flag: Vec<u8> = Vec::new();
    flag.push(
        if hub {
            1
        } else {
            0
        },
    );
    assert(flag@ =~= seq![if hub { 1u8 } else { 0u8 }]);
    writes.push(
        Write { table: Table::UuidToCluster, key: uuid_key(id), value: encode_u32(cluster) },
    );
    writes.push(Write { table: Table::UuidToRegion, key: uuid_key(id), value: encode_u32(region) });
    writes.push(Write { table: Table::UuidIsHub, key: uuid_key(id), value: flag });
    assert(entries(writes@) =~= before.push(node_entry(l, 3 * u)).push(
        node_entry(l, 3 * u + 1),
    ).push(node_entry(l, 3 * u + 2)));
}

/// The links of a hub, as they are stored.
fn stored_hub_links(graph: &Graph, list: &Vec<(usize, usize)>, Ghost(l): Ghost<Layout>) -> (out: Vec<
    (Uuid7, u32),
>)
    requires
        l.ids == values(graph.ids()),
        forall|i: int| 0 <= i < list@.len() ==> (#[trigger] list@[i]).0 < l.ids.len(),
    ensures
        link_values(out@) == list@.map_values(
            |e: (usize, usize)| (l.ids[e.0 as int], weight_bits(e.1)),
        ),
        out@.len() == list@.len(),
{
    let mut out: Vec<(Uuid7, u32)> = Vec::new();
    let mut i: usize = 0;
    while i < list.len()
        invariant
            i <= list@.len(),
            l.ids == values(graph.ids()),
            forall|i: int| 0 <= i < list@.len() ==> (#[trigger] list@[i]).0 < l.ids.len(),
            out@.len() == i,
            forall|j: int|
                0 <= j < i ==> (#[trigger] out@[j]).0@ == l.ids[list@[j].0 as int] && out@[j].1
                    == weight_bits(list@[j].1),
        decreases list@.len() - i,
    {
        let (v, hops) = list[i];
        assert(list@[i as int].0 < l.ids.len());
        let bits: u32 = if hops == 1 {
            0x3f80_0000
        } else if hops == 2 {
            0x3f00_0000
        } else {
            0x3eaa_aaab
        };
        out.push((graph.node_id(v), bits));
        i += 1;
    }
    assert(link_values(out@) =~= list@.map_values(
        |e: (usize, usize)| (l.ids[e.0 as int], weight_bits(e.1)),
    ));
    out
}

/// The nodes of a cluster, ascending, as identifiers.
fn ascending_ids(graph: &Graph, nodes: &Vec<usize>, Ghost(l): Ghost<Layout>, Ghost(c): Ghost<int>) -> (out:
    Vec<Uuid7>)
    requires
        is_layout(l),
        l.ids == values(graph.ids()),
        nodes@ == members(l.labels, c, l.labels.len()),
    ensures
        values(out@) == cluster_ids(l, c),
        out@.len() == nodes@.len(),
{
    proof {
        lemma_members(l.labels, c, l.labels.len());
    }
    let ghost plain = nodes@.map_values(|u: usize| l.ids[u as int]);
    let mut keys: Vec<u128> = Vec::new();
    let mut i: usize = 0;
    while i < nodes.len()
        invariant
            i <= nodes@.len(),
            l.ids == values(graph.ids()),
            plain == nodes@.map_values(|u: usize| l.ids[u as int]),
            forall|i: int| 0 <= i < nodes@.len() ==> (#[trigger] nodes@[i]) < l.ids.len(),
            keys@ == plain.take(i as int),
            forall|j: int| 0 <= j < i ==> version_of(#[trigger] keys@[j]) == 7,
        decreases nodes@.len() - i,
    {
        assert(nodes@[i as int] < l.ids.len());
        let id = graph.node_id(nodes[i]);
        keys.push(id.as_uuid());
        proof {
            assert(plain[i as int] == id@);
            assert(plain.take(i + 1) =~= plain.take(i as int).push(plain[i as int]));
        }
        i += 1;
    }
    assert(plain.take(i as int) =~= plain);
    assert forall|x: u128| #[trigger] plain.contains(x) implies version_of(x) == 7 by {
        let j = choose|j: int| 0 <= j < plain.len() && plain[j] == x;
        assert(version_of(keys@[j]) == 7);
    }
    let sorted = distinct_keys(&keys);
    proof {
        assert(plain.no_duplicates());
        lemma_ascending(sorted@, plain);
    }
    let mut out: Vec<Uuid7> = Vec::new();
    let mut k: usize = 0;
    while k < sorted.len()
        invariant
            k <= sorted@.len(),
            l.ids == values(graph.ids()),
            plain == nodes@.map_values(|u: usize| l.ids[u as int]),
            forall|i: int| 0 <= i < nodes@.len() ==> (#[trigger] nodes@[i]) < l.ids.len(),
            forall|x: u128| sorted@.contains(x) <==> #[trigger] plain.contains(x),
            forall|x: u128| #[trigger] plain.contains(x) ==> version_of(x) == 7,
            out@.len() == k,
            forall|j: int| 0 <= j < k ==> (#[trigger] out@[j])@ == sorted@[j],
        decreases sorted@.len() - k,
    {
        proof {
            assert(sorted@.contains(sorted@[k as int]));
            assert(plain.contains(sorted@[k as int]));
        }
        match Uuid7::from_uuid(sorted[k]) {
            Some(id) => {
                out.push(id);
            },
            None => {
                proof {
                    assert(false);
                }
            },
        }
        k += 1;
    }
    assert(values(out@) =~= sorted@);
    out
}

/// How many of the nodes are hubs.
fn count_hubs(hubs: &HubSet, nodes: &Vec<usize>) -> (n: usize)
    requires
        hubs.wf(),
    ensures
        n == hub_total(hubs@, nodes@),
        n <= nodes@.len(),
{
    let mut n: usize = 0;
    let mut i: usize = 0;
    while i < nodes.len()
        invariant
            i <= nodes@.len(),
            hubs.wf(),
            n == hub_total(hubs@, nodes@.take(i as int)),
            n <= i,
        decreases nodes@.len() - i,
    {
        proof {
            let now = nodes@.take(i + 1);
            assert(now.drop_last() =~= nodes@.take(i as int));
            assert(now.last() == nodes@[i as int]);
        }
        if hubs.contains(nodes[i]) {
            n += 1;
        }
        i += 1;
    }
    assert(nodes@.take(i as int) =~= nodes@);
    n
}

/// The first `k` values to write of those of the nodes.
spec fn node_entries(l: Layout, k: nat) -> Seq<Entry> {
    Seq::new(3 * k, |i: int| node_entry(l, i))
}

/// The first `k` values to write of those of the hubs.
spec fn hub_entries(l: Layout, k: nat) -> Seq<Entry> {
    Seq::new(k, |i: int| hub_entry(l, i))
}

/// The first `k` values to write of those of the clusters, three for each.
spec fn cluster_entries(l: Layout, k: nat) -> Seq<Entry> {
    Seq::new(3 * k, |i: int| cluster_entry(l, i))
}

/// The parts of a build agree with a layout.
spec fn parts_agree(
    graph: &Graph,
    clusters: &Partition,
    regions: &RegionGraph,
    hubs: &HubSet,
    hub_graph: &HubGraph,
    l: Layout,
) -> bool {
    &&& is_layout(l)
    &&& l.ids == values(graph.ids())
    &&& clusters.wf()
    &&& l.labels == clusters@
    &&& l.count() == clusters.count()
    &&& l.regions == regions@@
    &&& hubs.wf()
    &&& l.hubs == hubs@
    &&& hub_graph.wf()
    &&& hub_graph.hubs() == hubs@
    &&& forall|i: int|
        0 <= i < hubs@.len() ==> #[trigger] hub_graph.link_lists()[i] == links(
            l.lists,
            l.hubs,
            HUB_GRAPH_K_HOP as nat,
            l.hubs[i],
            l.hubs.len(),
        )
}

/// The values of the nodes.
fn write_nodes(
    graph: &Graph,
    clusters: &Partition,
    regions: &RegionGraph,
    hubs: &HubSet,
    hub_graph: &HubGraph,
    Ghost(l): Ghost<Layout>,
) -> (writes: Vec<Write>)
    requires
        parts_agree(graph, clusters, regions, hubs, hub_graph, l),
        l.count() <= 0x1_0000_0000,
    ensures
        entries(writes@) == node_entries(l, l.ids.len()),
        all_version_7(l),
{
    let n: usize = graph.node_count();
    let mut writes: Vec<Write> = Vec::new();
    assert(entries(writes@) =~= node_entries(l, 0));
    let mut u: usize = 0;
    while u < n
        invariant
            u <= n == l.ids.len(),
            parts_agree(graph, clusters, regions, hubs, hub_graph, l),
            l.count() <= 0x1_0000_0000,
            entries(writes@) == node_entries(l, u as nat),
            forall|v: int| 0 <= v < u ==> version_of(#[trigger] l.ids[v]) == 7,
        decreases n - u,
    {
        let id = graph.node_id(u);
        let cluster: usize = clusters.community_of(u);
        assert(l.labels[u as int] < l.count());
        let region: usize = match regions.region_of_cluster(cluster) {
            Some(region) => region,
            None => 0,
        };
        assert(l.regions[cluster as int] < l.count());
        push_node(
            &mut writes,
            &id,
            cluster as u32,
            region as u32,
            hubs.contains(u),
            Ghost(l),
            Ghost(u as int),
        );
        assert(entries(writes@) =~= node_entries(l, (u + 1) as nat));
        u += 1;
    }
    writes
}

/// Appends the values of the hubs.
fn write_hubs(
    writes: &mut Vec<Write>,
    graph: &Graph,
    clusters: &Partition,
    regions: &RegionGraph,
    hubs: &HubSet,
    hub_graph: &HubGraph,
    Ghost(l): Ghost<Layout>,
) -> (r: Result<(), SwIndexError>)
    requires
        parts_agree(graph, clusters, regions, hubs, hub_graph, l),
    ensures
        match r {
            Ok(()) => !too_many_links(l) && entries(final(writes)@) == entries(old(writes)@)
                + hub_entries(l, l.hubs.len()),
            Err(e) => too_many_links(l) && e@ == Failure::Corruption(
                "hub-neighbors len exceeds u32"@,
            ),
        },
{
    let all = hubs.iter();
    let ghost before = entries(writes@);
    assert(entries(writes@) =~= before + hub_entries(l, 0));
    let mut i: usize = 0;
    while i < all.len()
        invariant
            i <= all@.len(),
            all@ == l.hubs,
            parts_agree(graph, clusters, regions, hubs, hub_graph, l),
            entries(writes@) == before + hub_entries(l, i as nat),
            forall|j: int|
                0 <= j < i ==> hub_links(l, #[trigger] l.hubs[j]).len() <= u32::MAX,
        decreases all@.len() - i,
    {
        let h: usize = all[i];
        assert(l.hubs[i as int] < l.ids.len());
        let list = hub_graph.neighbors(h);
        proof {
            assert(hubs@.contains(h)) by {
                assert(hubs@[i as int] == h);
            }
            lemma_index_of(hubs@, i as int);
            let whole = links(l.lists, l.hubs, HUB_GRAPH_K_HOP as nat, h, l.hubs.len());
            assert(hub_graph.link_lists()[i as int] == whole);
            assert(list@ == whole);
            lemma_link_targets(l.lists, l.hubs, HUB_GRAPH_K_HOP as nat, h, l.hubs.len());
            assert forall|j: int| 0 <= j < list@.len() implies (#[trigger] list@[j]).0
                < l.ids.len() by {
                assert(l.hubs.contains(list@[j].0));
                let p = choose|p: int| 0 <= p < l.hubs.len() && l.hubs[p] == list@[j].0;
                assert(l.hubs[p] < l.ids.len());
            }
        }
        let stored = stored_hub_links(graph, &list, Ghost(l));
        assert(link_values(stored@) == hub_links(l, h));
        let bytes = match encode_hub_neighbors(stored.as_slice()) {
            Ok(bytes) => bytes,
            Err(e) => {
                assert(hub_links(l, l.hubs[i as int]).len() > u32::MAX);
                return Err(e);
            },
        };
        let id = graph.node_id(h);
        let ghost so_far = entries(writes@);
        writes.push(Write { table: Table::HubNeighbors, key: uuid_key(&id), value: bytes });
        proof {
            assert(entries(writes@) =~= so_far.push(hub_entry(l, i as int)));
            assert(entries(writes@) =~= before + hub_entries(l, (i + 1) as nat));
        }
        i += 1;
    }
    Ok(())
}

/// Appends the values of the clusters.
fn write_clusters(
    writes: &mut Vec<Write>,
    graph: &Graph,
    clusters: &Partition,
    regions: &RegionGraph,
    hubs: &HubSet,
    hub_graph: &HubGraph,
    Ghost(l): Ghost<Layout>,
) -> (r: Result<(), SwIndexError>)
    requires
        parts_agree(graph, clusters, regions, hubs, hub_graph, l),
        l.count() <= 0x1_0000_0000,
    ensures
        match r {
            Ok(()) => !too_many_members(l) && entries(final(writes)@) == entries(old(writes)@)
                + cluster_entries(l, l.count()),
            Err(e) => too_many_members(l) && e@ == Failure::Corruption("vec len exceeds u32"@),
        },
{
    let buckets = clusters.buckets();
    let ghost before = entries(writes@);
    assert(entries(writes@) =~= before + cluster_entries(l, 0));
    let mut c: usize = 0;
    while c < buckets.len()
        invariant
            c <= buckets@.len() == l.count(),
            l.count() <= 0x1_0000_0000,
            parts_agree(graph, clusters, regions, hubs, hub_graph, l),
            forall|c: int|
                0 <= c < l.count() ==> (#[trigger] buckets@[c])@ == members(
                    l.labels,
                    c,
                    l.labels.len(),
                ),
            entries(writes@) == before + cluster_entries(l, c as nat),
            forall|d: int|
                0 <= d < c ==> (#[trigger] members(l.labels, d, l.labels.len())).len()
                    <= u32::MAX,
        decreases buckets@.len() - c,
    {
        let nodes = &buckets[c];
        assert(nodes@ == members(l.labels, c as int, l.labels.len()));
        let ids = ascending_ids(graph, nodes, Ghost(l), Ghost(c as int));
        let list = match encode_uuid_vec(ids.as_slice()) {
            Ok(list) => list,
            Err(e) => {
                assert(members(l.labels, c as int, l.labels.len()).len() > u32::MAX);
                return Err(e);
            },
        };
        let hub_count: usize = count_hubs(hubs, nodes);
        let ghost so_far = entries(writes@);
        writes.push(
            Write { table: Table::ClusterMembers, key: encode_u32(c as u32), value: list },
        );
        writes.push(
            Write {
                table: Table::ClusterMeta,
                key: encode_u32(c as u32),
                value: encode_cluster_meta(nodes.len() as u32, hub_count as u32),
            },
        );
        writes.push(
            Write {
                table: Table::ClusterDrift,
                key: encode_u32(c as u32),
                value: encode_cluster_drift(0, 0),
            },
        );
        proof {
            assert(entries(writes@) =~= so_far.push(cluster_entry(l, 3 * c)).push(
                cluster_entry(l, 3 * c + 1),
            ).push(cluster_entry(l, 3 * c + 2)));
            assert(entries(writes@) =~= before + cluster_entries(l, (c + 1) as nat));
        }
        c += 1;
    }
    Ok(())
}

/// The targets of the links of a hub are hubs.
pub proof fn lemma_link_targets(
    lists: Seq<Seq<(usize, u64)>>,
    hubs: Seq<usize>,
    k_hop: nat,
    h: usize,
    j: nat,
)
    requires
        j <= hubs.len(),
    ensures
        links(lists, hubs, k_hop, h, j).len() <= j,
        forall|i: int|
            0 <= i < links(lists, hubs, k_hop, h, j).len() ==> hubs.contains(
                (#[trigger] links(lists, hubs, k_hop, h, j)[i]).0,
            ),
    decreases j,
{
    if j > 0 {
        lemma_link_targets(lists, hubs, k_hop, h, (j - 1) as nat);
    }
}

/// The values to write of a layout, and what it holds.
fn laid_out(
    graph: &Graph,
    clusters: &Partition,
    regions: &RegionGraph,
    hubs: &HubSet,
    adjacency: &Vec<Vec<(usize, u64)>>,
    label_list: Vec<Write>,
    Ghost(l): Ghost<Layout>,
    Ghost(names): Ghost<Seq<(u128, Seq<char>)>>,
) -> (r: Result<Built, SwIndexError>)
    requires
        graph.wf(),
        clusters.wf(),
        hubs.wf(),
        is_layout(l),
        l.ids == values(graph.ids()),
        l.lists == graph.lists(),
        l.labels == clusters@,
        l.count() == clusters.count(),
        l.regions == regions@@,
        regions@.wf(),
        l.hubs == hubs@,
        l.adjacency == list_values(adjacency@),
        entries(label_list@) == label_entries(names),
        all_named_version_7(names),
    ensures
        is_built(r, l, names),
        r matches Ok(built) ==> holds_build(
            applied(Map::empty(), entries(built.writes@)),
            l.ids,
            built.stats,
        ),
{
    let mut label_list = label_list;
    let hub_graph = HubGraph::build(graph, hubs, HUB_GRAPH_K_HOP);
    if clusters.community_count() as u64 > 0x1_0000_0000 {
        return Err(corrupt("cluster id exceeds u32 range"));
    }
    let mut writes = write_nodes(graph, clusters, regions, hubs, &hub_graph, Ghost(l));
    match write_hubs(&mut writes, graph, clusters, regions, hubs, &hub_graph, Ghost(l)) {
        Ok(()) => {},
        Err(e) => {
            return Err(e);
        },
    }
    match write_clusters(&mut writes, graph, clusters, regions, hubs, &hub_graph, Ghost(l)) {
        Ok(()) => {},
        Err(e) => {
            return Err(e);
        },
    }
    proof {
        assert(node_entries(l, l.ids.len()) + hub_entries(l, l.hubs.len()) + cluster_entries(
            l,
            l.count(),
        ) =~= build_entries(l));
    }
    proof {
        assert forall|c: int| 0 <= c < adjacency@.len() implies neighbors_fit(
            (#[trigger] adjacency@[c])@,
        ) by {
            assert(is_cluster_list(l.adjacency[c], matrix(l.lists), l.labels, l.count(), c));
            lemma_neighbors_fit(adjacency@[c]@, matrix(l.lists), l.labels, l.count(), c);
        }
    }
    let mut neighbor_list = neighbor_writes(adjacency);
    let ghost structure = writes@;
    let ghost between = neighbor_list@;
    let ghost labels = label_list@;
    writes.append(&mut neighbor_list);
    writes.append(&mut label_list);
    assert(entries(writes@) =~= entries(structure) + entries(between) + entries(labels));
    let stats = BuildStats {
        nodes: graph.node_count(),
        clusters: clusters.community_count(),
        regions: regions.region_count(),
        hubs: hubs.len(),
    };
    proof {
        assert(entries(writes@) == all_entries(l, names));
        law_build_holds(l, names, stats);
    }
    Ok(Built { stats, writes })
}

/// Builds an index from a source, given the betweenness of each node as an integer that
/// orders the nodes as their betweenness does.
pub fn build_from_source<G: GraphSource>(source: &G, centrality: &Vec<u64>) -> (r: Result<
    Built,
    SwIndexError,
>)
    requires
        source.edge_seq().len() <= MAX_EDGES,
        centrality@.len() == ids_of(source.node_seq()).len(),
    ensures
        match first_dangling(ids_of(source.node_seq()), source.edge_seq()) {
            Some(id) => r is Err && r->Err_0@ == Failure::Dangling(id@),
            None => exists|
                hubs: Seq<usize>,
                adjacency: Seq<Seq<(usize, u64)>>,
                answers: Seq<Option<String>>,
            |
                answered(source, source.node_seq(), answers) && #[trigger] is_built_with(
                    r,
                    source.node_seq(),
                    source.edge_seq(),
                    centrality@,
                    hubs,
                    adjacency,
                    named(source.node_seq(), answers, source.node_seq().len()),
                ),
        },
        r matches Ok(built) ==> holds_build(
            applied(Map::empty(), entries(built.writes@)),
            values(ids_of(source.node_seq())),
            built.stats,
        ),
{
    let graph = match Graph::from_source(source) {
        Ok(graph) => graph,
        Err(e) => {
            return Err(SwIndexError::from(e));
        },
    };
    let (label_list, Ghost(answers)) = label_writes(source);
    let clusters = leiden(&graph);
    let regions = RegionGraph::build(&graph, &clusters);
    let hubs = HubSet::from_degree_and_centrality(
        &graph,
        centrality,
        Fraction { numerator: 1, denominator: 10 },
    );
    let adjacency = cluster_adjacency(&graph, &clusters);
    let ghost lists = list_values(adjacency@);
    let ghost l = layout_of(values(graph.ids()), graph.lists(), hubs@, lists);
    proof {
        graph.lemma_wf();
        clusters.lemma_wf();
        regions@.lemma_wf();
        assert(l.ids.no_duplicates()) by {
            assert forall|i: int, j: int|
                0 <= i < l.ids.len() && 0 <= j < l.ids.len() && i != j implies l.ids[i]
                != l.ids[j] by {
                if l.ids[i] == l.ids[j] {
                    Uuid7::lemma_view_injective(graph.ids()[i], graph.ids()[j]);
                }
            }
        }
        assert forall|c: int| 0 <= c < l.count() implies is_cluster_list(
            #[trigger] l.adjacency[c],
            matrix(l.lists),
            l.labels,
            l.count(),
            c,
        ) by {
            assert(l.adjacency[c] == adjacency@[c]@);
        }
        lemma_labels(l.regions);
        assert(is_layout(l));
        assert(are_hubs(hubs@, matrix(graph.lists()), centrality@));
    }
    let ghost names = named(source.node_seq(), answers, source.node_seq().len());
    let r = laid_out(
        &graph,
        &clusters,
        &regions,
        &hubs,
        &adjacency,
        label_list,
        Ghost(l),
        Ghost(names),
    );
    proof {
        assert(is_built_with(
            r,
            source.node_seq(),
            source.edge_seq(),
            centrality@,
            hubs@,
            lists,
            names,
        ));
    }
    r
}

} // verus!
