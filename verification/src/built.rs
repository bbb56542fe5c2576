//! What a build leaves in a store.
//!
//! Besides the values of the nodes, the hubs and the clusters, a build writes the edges
//! between clusters and the labels of the nodes, into tables of their own. All of it
//! reads back, and together it is a partition of the nodes into clusters.
use crate::bytes::{be_value, lemma_be_bytes_len, lemma_be_round_trip, lemma_pow256};
use crate::codec::Failure;
use crate::consistency::{
    cluster_is_sound, consistent, drift_at, hubs_among, law_build_is_consistent,
    law_built_clusters_read_back, law_built_nodes_read_back, lemma_applied_other,
    lemma_applied_written, lemma_build_entries, lemma_cluster_ids, lemma_cluster_keys,
    lemma_hubs_same, lemma_node_keys, meta_at, node_is_sound,
};
use crate::id::version_of;
use crate::index::{
    applied, cluster_key, members_in, node_key, stored, BuildStats, Entry, Image, Table,
};
use crate::insert::region_at;
use crate::labels::{all_named_version_7, label_entries, label_entry, label_in, node_in};
use crate::layout::{
    all_entries, all_version_7, build_entries, cluster_entry, cluster_ids, hub_entry, is_layout,
    node_entry, plan, Layout,
};
use crate::neighbors::{
    law_neighbors_round_trip, lemma_neighbors_fit, neighbor_entries, neighbor_entry, neighbors_in,
};
use crate::partition::label_count;
use crate::query::{cluster_at, hub_at, links_at, members_at};
use crate::sort::increasing_keys;
use crate::weighted::matrix;
use vstd::prelude::*;
use vstd::utf8::{encode_utf8, encode_utf8_decode_utf8, encode_utf8_valid_utf8};

verus! {

/// Where all writes under a key write the same value, it is there.
pub proof fn lemma_applied_agree(
    image: Image,
    writes: Seq<Entry>,
    table: Table,
    key: Seq<u8>,
    value: Seq<u8>,
    i: int,
)
    requires
        0 <= i < writes.len(),
        writes[i] == (table, key, value),
        forall|j: int|
            0 <= j < writes.len() && (#[trigger] writes[j]).0 == table && writes[j].1 == key
                ==> writes[j].2 == value,
    ensures
        stored(applied(image, writes), table, key) == Some(value),
    decreases writes.len(),
{
    let last = writes[writes.len() - 1];
    if !(last.0 == table && last.1 == key) {
        let front = writes.drop_last();
        assert forall|j: int|
            0 <= j < front.len() && (#[trigger] front[j]).0 == table && front[j].1
                == key implies front[j].2 == value by {
            assert(front[j] == writes[j]);
        }
        lemma_applied_agree(image, front, table, key, value, i);
    }
}

/// Writes one after another are the same as all of them together.
pub proof fn law_applied_in_turn(image: Image, first: Seq<Entry>, rest: Seq<Entry>)
    ensures
        applied(image, first + rest) == applied(applied(image, first), rest),
    decreases rest.len(),
{
    if rest.len() == 0 {
        assert(first + rest =~= first);
    } else {
        assert((first + rest).drop_last() =~= first + rest.drop_last());
        law_applied_in_turn(image, first, rest.drop_last());
    }
}

/// The table holds edges between clusters or labels.
pub open spec fn is_side_table(table: Table) -> bool {
    table == Table::ClusterNeighbors || table == Table::UuidToLabel || table == Table::LabelToUuid
}

/// The writes of a build, one kind after another.
proof fn lemma_in_turn(image: Image, l: Layout, named: Seq<(u128, Seq<char>)>)
    ensures
        applied(image, all_entries(l, named)) == applied(
            applied(applied(image, build_entries(l)), neighbor_entries(l.adjacency)),
            label_entries(named),
        ),
{
    law_applied_in_turn(
        image,
        build_entries(l) + neighbor_entries(l.adjacency),
        label_entries(named),
    );
    law_applied_in_turn(image, build_entries(l), neighbor_entries(l.adjacency));
}

/// The labels write into the tables of labels only.
proof fn lemma_labels_aside(
    image: Image,
    named: Seq<(u128, Seq<char>)>,
    table: Table,
    key: Seq<u8>,
)
    requires
        table != Table::UuidToLabel,
        table != Table::LabelToUuid,
    ensures
        stored(applied(image, label_entries(named)), table, key) == stored(image, table, key),
{
    let w = label_entries(named);
    assert forall|j: int| 0 <= j < w.len() implies ((#[trigger] w[j]).0 != table || w[j].1
        != key) by {
        assert(w[j] == label_entry(named, j));
    }
    lemma_applied_other(image, w, table, key);
}

/// The edges between clusters and the labels leave the other tables as they are.
pub proof fn law_side_tables_leave_the_rest(
    image: Image,
    l: Layout,
    named: Seq<(u128, Seq<char>)>,
    table: Table,
    key: Seq<u8>,
)
    requires
        !is_side_table(table),
    ensures
        stored(applied(image, all_entries(l, named)), table, key) == stored(
            applied(image, build_entries(l)),
            table,
            key,
        ),
{
    lemma_in_turn(image, l, named);
    let base = applied(image, build_entries(l));
    let w = neighbor_entries(l.adjacency);
    assert forall|j: int| 0 <= j < w.len() implies ((#[trigger] w[j]).0 != table || w[j].1
        != key) by {
        assert(w[j] == neighbor_entry(l.adjacency, j));
    }
    lemma_applied_other(base, w, table, key);
    lemma_labels_aside(applied(base, w), named, table, key);
}

/// What is read of nodes and clusters depends on the other tables only.
proof fn lemma_same_reads(image: Image, l: Layout, named: Seq<(u128, Seq<char>)>)
    ensures
        ({
            let a = applied(image, build_entries(l));
            let b = applied(image, all_entries(l, named));
            &&& forall|x: u128| #[trigger] cluster_at(b, x) == cluster_at(a, x)
            &&& forall|x: u128| #[trigger] region_at(b, x) == region_at(a, x)
            &&& forall|x: u128| #[trigger] hub_at(b, x) == hub_at(a, x)
            &&& forall|x: u128| #[trigger] links_at(b, x) == links_at(a, x)
            &&& forall|c: u32| #[trigger] members_at(b, c) == members_at(a, c)
            &&& forall|c: u32| #[trigger] meta_at(b, c) == meta_at(a, c)
            &&& forall|c: u32| #[trigger] drift_at(b, c) == drift_at(a, c)
            &&& forall|ids: Seq<u128>| #[trigger] hubs_among(b, ids) == hubs_among(a, ids)
        }),
{
    let a = applied(image, build_entries(l));
    let b = applied(image, all_entries(l, named));
    assert forall|x: u128| #[trigger] cluster_at(b, x) == cluster_at(a, x) by {
        law_side_tables_leave_the_rest(image, l, named, Table::UuidToCluster, node_key(x));
    }
    assert forall|x: u128| #[trigger] region_at(b, x) == region_at(a, x) by {
        law_side_tables_leave_the_rest(image, l, named, Table::UuidToRegion, node_key(x));
    }
    assert forall|x: u128| #[trigger] hub_at(b, x) == hub_at(a, x) by {
        law_side_tables_leave_the_rest(image, l, named, Table::UuidIsHub, node_key(x));
    }
    assert forall|x: u128| #[trigger] links_at(b, x) == links_at(a, x) by {
        law_side_tables_leave_the_rest(image, l, named, Table::HubNeighbors, node_key(x));
    }
    assert forall|c: u32| #[trigger] members_at(b, c) == members_at(a, c) by {
        law_side_tables_leave_the_rest(image, l, named, Table::ClusterMembers, cluster_key(c));
    }
    assert forall|c: u32| #[trigger] meta_at(b, c) == meta_at(a, c) by {
        law_side_tables_leave_the_rest(image, l, named, Table::ClusterMeta, cluster_key(c));
    }
    assert forall|c: u32| #[trigger] drift_at(b, c) == drift_at(a, c) by {
        law_side_tables_leave_the_rest(image, l, named, Table::ClusterDrift, cluster_key(c));
    }
    assert forall|ids: Seq<u128>| #[trigger] hubs_among(b, ids) == hubs_among(a, ids) by {
        lemma_hubs_same(b, a, ids);
    }
}

/// A build writes a consistent store into an empty one.
pub proof fn law_whole_build_is_consistent(l: Layout, named: Seq<(u128, Seq<char>)>)
    requires
        is_layout(l),
        all_version_7(l),
        plan(l) is Ok,
    ensures
        consistent(applied(Map::empty(), all_entries(l, named))),
{
    law_build_is_consistent(l);
    lemma_same_reads(Map::empty(), l, named);
    let a = applied(Map::empty(), build_entries(l));
    let b = applied(Map::empty(), all_entries(l, named));
    assert forall|c: u32| #[trigger] cluster_is_sound(b, c) by {
        assert(cluster_is_sound(a, c));
        law_side_tables_leave_the_rest(
            Map::empty(),
            l,
            named,
            Table::ClusterMembers,
            cluster_key(c),
        );
        law_side_tables_leave_the_rest(Map::empty(), l, named, Table::ClusterMeta, cluster_key(c));
        law_side_tables_leave_the_rest(Map::empty(), l, named, Table::ClusterDrift, cluster_key(c));
        match members_in(stored(a, Table::ClusterMembers, cluster_key(c))) {
            Ok(Some(ids)) => {
                assert(hubs_among(b, ids) == hubs_among(a, ids));
            },
            _ => {},
        }
    }
    assert forall|x: u128| #[trigger] node_is_sound(b, x) by {
        assert(node_is_sound(a, x));
        law_side_tables_leave_the_rest(Map::empty(), l, named, Table::UuidToCluster, node_key(x));
    }
}

/// After a build the edges of every cluster to others read back as the cluster graph has
/// them.
pub proof fn law_built_neighbors_read_back(
    image: Image,
    l: Layout,
    named: Seq<(u128, Seq<char>)>,
    c: int,
)
    requires
        is_layout(l),
        plan(l) is Ok,
        0 <= c < l.count(),
    ensures
        neighbors_in(
            stored(
                applied(image, all_entries(l, named)),
                Table::ClusterNeighbors,
                cluster_key(c as u32),
            ),
        ) == Ok::<Seq<(usize, u64)>, Failure>(l.adjacency[c]),
{
    lemma_in_turn(image, l, named);
    let base = applied(image, build_entries(l));
    let w = neighbor_entries(l.adjacency);
    let (table, key, value) = neighbor_entry(l.adjacency, c);
    assert(w[c] == neighbor_entry(l.adjacency, c));
    assert forall|j: int|
        0 <= j < w.len() && (#[trigger] w[j]).0 == table && w[j].1 == key implies w[j].2
        == value by {
        assert(w[j] == neighbor_entry(l.adjacency, j));
        lemma_cluster_keys(j as u32, c as u32);
    }
    lemma_applied_agree(base, w, table, key, value, c);
    lemma_labels_aside(applied(base, w), named, table, key);
    lemma_neighbors_fit(l.adjacency[c], matrix(l.lists), l.labels, l.count(), c);
    law_neighbors_round_trip(l.adjacency[c]);
}

proof fn lemma_same_label(a: Seq<char>, b: Seq<char>)
    requires
        encode_utf8(a) == encode_utf8(b),
    ensures
        a == b,
{
    encode_utf8_decode_utf8(a);
    encode_utf8_decode_utf8(b);
}

/// A label reads back after a build from the node that has it, if the source gave the
/// node no other label.
pub proof fn law_labels_read_back(image: Image, l: Layout, named: Seq<(u128, Seq<char>)>, i: int)
    requires
        0 <= i < named.len(),
        forall|j: int|
            0 <= j < named.len() && (#[trigger] named[j]).0 == named[i].0 ==> named[j].1
                == named[i].1,
    ensures
        label_in(
            stored(
                applied(image, all_entries(l, named)),
                Table::UuidToLabel,
                node_key(named[i].0),
            ),
        ) == Ok::<Option<Seq<char>>, Failure>(Some(named[i].1)),
{
    let (id, label) = named[i];
    let w = label_entries(named);
    let base = applied(applied(image, build_entries(l)), neighbor_entries(l.adjacency));
    lemma_in_turn(image, l, named);
    assert(w[2 * i] == label_entry(named, 2 * i));
    assert forall|j: int|
        0 <= j < w.len() && (#[trigger] w[j]).0 == Table::UuidToLabel && w[j].1 == node_key(
            id,
        ) implies w[j].2 == encode_utf8(label) by {
        assert(w[j] == label_entry(named, j));
        lemma_node_keys(named[j / 2].0, id);
    }
    lemma_applied_agree(base, w, Table::UuidToLabel, node_key(id), encode_utf8(label), 2 * i);
    encode_utf8_valid_utf8(label);
    encode_utf8_decode_utf8(label);
}

/// A node reads back after a build from its label, if the source gave the label to no
/// other node.
pub proof fn law_labelled_nodes_read_back(
    image: Image,
    l: Layout,
    named: Seq<(u128, Seq<char>)>,
    i: int,
)
    requires
        all_named_version_7(named),
        0 <= i < named.len(),
        forall|j: int|
            0 <= j < named.len() && (#[trigger] named[j]).1 == named[i].1 ==> named[j].0
                == named[i].0,
    ensures
        node_in(
            stored(
                applied(image, all_entries(l, named)),
                Table::LabelToUuid,
                encode_utf8(named[i].1),
            ),
        ) == Ok::<Option<u128>, Failure>(Some(named[i].0)),
{
    let (id, label) = named[i];
    let w = label_entries(named);
    let base = applied(applied(image, build_entries(l)), neighbor_entries(l.adjacency));
    lemma_in_turn(image, l, named);
    assert(w[2 * i + 1] == label_entry(named, 2 * i + 1));
    assert forall|j: int|
        0 <= j < w.len() && (#[trigger] w[j]).0 == Table::LabelToUuid && w[j].1 == encode_utf8(
            label,
        ) implies w[j].2 == node_key(id) by {
        assert(w[j] == label_entry(named, j));
        lemma_same_label(named[j / 2].1, label);
    }
    lemma_applied_agree(base, w, Table::LabelToUuid, encode_utf8(label), node_key(id), 2 * i + 1);
    lemma_pow256();
    lemma_be_round_trip(id as nat, 16);
    lemma_be_bytes_len(id as nat, 16);
    assert(node_key(id).subrange(0, 16) =~= node_key(id));
    assert(be_value(node_key(id)) == id);
    assert(version_of(named[i].0) == 7);
}

/// A node is listed in a cluster.
pub open spec fn lists(image: Image, c: u32, x: u128) -> bool {
    members_at(image, c) is Ok && members_at(image, c)->Ok_0.contains(x)
}

/// The nodes of a cluster are in region `r`.
pub open spec fn shares_region(image: Image, c: u32, r: u32) -> bool {
    forall|x: u128| #[trigger]
        lists(image, c, x) ==> region_at(image, x) == Ok::<Option<u32>, Failure>(Some(r))
}

/// A cluster after a build: it has nodes, in order; their number and that of the hubs
/// among them are recorded, and no drift; and they share one of the regions.
pub open spec fn cluster_holds(image: Image, regions: nat, c: u32) -> bool {
    &&& members_at(image, c) is Ok
    &&& members_at(image, c)->Ok_0.len() > 0
    &&& increasing_keys(members_at(image, c)->Ok_0)
    &&& meta_at(image, c) == Ok::<(u32, u32), Failure>(
        (
            members_at(image, c)->Ok_0.len() as u32,
            hubs_among(image, members_at(image, c)->Ok_0) as u32,
        ),
    )
    &&& members_at(image, c)->Ok_0.len() <= u32::MAX
    &&& drift_at(image, c) == Ok::<(u64, u32), Failure>((0, 0))
    &&& exists|r: u32| r < regions && #[trigger] shares_region(image, c, r)
}

/// The store holds what a build of the nodes `ids` found: clusters that divide the nodes
/// among them, each as it should be, and as many hubs as were counted.
pub open spec fn holds_build(image: Image, ids: Seq<u128>, stats: BuildStats) -> bool {
    &&& stats.nodes == ids.len()
    &&& forall|c: u32| c < stats.clusters ==> #[trigger] cluster_holds(
        image,
        stats.regions as nat,
        c,
    )
    &&& forall|x: u128, c: u32|
        c < stats.clusters ==> (#[trigger] lists(image, c, x) <==> cluster_at(image, x) == Ok::<
            Option<u32>,
            Failure,
        >(Some(c)))
    &&& forall|x: u128| #[trigger]
        ids.contains(x) <==> exists|c: u32| c < stats.clusters && #[trigger] lists(image, c, x)
    &&& forall|x: u128, c: u32, d: u32|
        c < stats.clusters && d < stats.clusters && #[trigger] lists(image, c, x)
            && #[trigger] lists(image, d, x) ==> c == d
    &&& exists|hubs: Seq<u128>|
        {
            &&& hubs.no_duplicates()
            &&& hubs.len() == stats.hubs
            &&& forall|x: u128| #[trigger] hub_at(image, x) <==> hubs.contains(x)
        }
}

/// A build into an empty store writes of no other nodes.
proof fn lemma_only_built_nodes(l: Layout, table: Table, x: u128)
    requires
        table == Table::UuidToCluster || table == Table::UuidIsHub,
        stored(applied(Map::empty(), build_entries(l)), table, node_key(x)) is Some,
    ensures
        l.ids.contains(x),
{
    let w = build_entries(l);
    lemma_build_entries(l);
    lemma_applied_written(w, table, node_key(x));
    let i = choose|i: int|
        0 <= i < w.len() && (#[trigger] w[i]).0 == table && w[i].1 == node_key(x);
    if i < 3 * l.ids.len() {
        assert(w[i] == node_entry(l, i));
        lemma_node_keys(l.ids[i / 3], x);
    } else if i < 3 * l.ids.len() + l.hubs.len() {
        assert(w[i] == hub_entry(l, i - 3 * l.ids.len()));
    } else {
        assert(w[i] == cluster_entry(l, i - 3 * l.ids.len() - l.hubs.len()));
    }
}

/// After a build into an empty store, a node is listed in a cluster exactly if the layout
/// puts it there.
proof fn lemma_lists(l: Layout, c: u32, x: u128)
    requires
        is_layout(l),
        all_version_7(l),
        plan(l) is Ok,
        c < l.count(),
    ensures
        lists(applied(Map::empty(), build_entries(l)), c, x) <==> exists|u: int|
            0 <= u < l.ids.len() && l.labels[u] == c && #[trigger] l.ids[u] == x,
        lists(applied(Map::empty(), build_entries(l)), c, x) <==> cluster_at(
            applied(Map::empty(), build_entries(l)),
            x,
        ) == Ok::<Option<u32>, Failure>(Some(c)),
{
    let a = applied(Map::empty(), build_entries(l));
    law_built_clusters_read_back(Map::empty(), l, c as int);
    lemma_cluster_ids(l, c as int);
    assert(cluster_ids(l, c as int).contains(x) <==> lists(a, c, x));
    if lists(a, c, x) {
        let u = choose|u: int|
            0 <= u < l.ids.len() && l.labels[u] == c && #[trigger] l.ids[u] == x;
        law_built_nodes_read_back(Map::empty(), l, u);
    }
    if cluster_at(a, x) == Ok::<Option<u32>, Failure>(Some(c)) {
        lemma_only_built_nodes(l, Table::UuidToCluster, x);
        let u = choose|u: int| 0 <= u < l.ids.len() && l.ids[u] == x;
        law_built_nodes_read_back(Map::empty(), l, u);
        assert(l.labels[u] < l.count());
        assert(l.labels[u] == c && l.ids[u] == x);
    }
}

proof fn lemma_cluster_holds(l: Layout, c: u32)
    requires
        is_layout(l),
        all_version_7(l),
        plan(l) is Ok,
        c < l.count(),
    ensures
        cluster_holds(applied(Map::empty(), build_entries(l)), label_count(l.regions), c),
{
    let a = applied(Map::empty(), build_entries(l));
    law_build_is_consistent(l);
    assert(cluster_is_sound(a, c));
    law_built_clusters_read_back(Map::empty(), l, c as int);
    let ids = cluster_ids(l, c as int);
    assert(l.regions[c as int] < label_count(l.regions));
    assert(l.labels.contains((c as int) as usize));
    let v = choose|v: int| 0 <= v < l.labels.len() && l.labels[v] == c;
    lemma_lists(l, c, l.ids[v]);
    assert(l.ids[v] == l.ids[v]);
    assert(ids.contains(l.ids[v]));
    let r = l.regions[c as int] as u32;
    assert(shares_region(a, c, r)) by {
        assert forall|x: u128| #[trigger] lists(a, c, x) implies region_at(a, x) == Ok::<
            Option<u32>,
            Failure,
        >(Some(r)) by {
            lemma_lists(l, c, x);
            let u = choose|u: int|
                0 <= u < l.ids.len() && l.labels[u] == c && #[trigger] l.ids[u] == x;
            law_built_nodes_read_back(Map::empty(), l, u);
        }
    }
}

/// After a build into an empty store the clusters are not empty, do not overlap and
/// cover the nodes; each node names the cluster that lists it; sizes, hub counts and
/// drifts are recorded as they are; the nodes of a cluster share a region; and exactly
/// the hubs are marked.
pub proof fn law_build_holds(l: Layout, named: Seq<(u128, Seq<char>)>, stats: BuildStats)
    requires
        is_layout(l),
        all_version_7(l),
        plan(l) is Ok,
        stats.nodes == l.ids.len(),
        stats.clusters == l.count(),
        stats.regions == label_count(l.regions),
        stats.hubs == l.hubs.len(),
    ensures
        holds_build(applied(Map::empty(), all_entries(l, named)), l.ids, stats),
{
    let a = applied(Map::empty(), build_entries(l));
    let b = applied(Map::empty(), all_entries(l, named));
    lemma_same_reads(Map::empty(), l, named);
    assert forall|c: u32, x: u128| #[trigger] lists(b, c, x) == lists(a, c, x) by {
        assert(members_at(b, c) == members_at(a, c));
    }
    assert forall|c: u32| c < stats.clusters implies #[trigger] cluster_holds(
        b,
        stats.regions as nat,
        c,
    ) by {
        lemma_cluster_holds(l, c);
        assert(members_at(b, c) == members_at(a, c));
        assert(meta_at(b, c) == meta_at(a, c));
        assert(drift_at(b, c) == drift_at(a, c));
        let ids = members_at(a, c)->Ok_0;
        assert(hubs_among(b, ids) == hubs_among(a, ids));
        let r = choose|r: u32| r < stats.regions && #[trigger] shares_region(a, c, r);
        assert(shares_region(b, c, r)) by {
            assert forall|x: u128| #[trigger] lists(b, c, x) implies region_at(b, x) == Ok::<
                Option<u32>,
                Failure,
            >(Some(r)) by {
                assert(lists(a, c, x));
            }
        }
    }
    assert forall|x: u128, c: u32| c < stats.clusters implies (#[trigger] lists(b, c, x)
        <==> cluster_at(b, x) == Ok::<Option<u32>, Failure>(Some(c))) by {
        lemma_lists(l, c, x);
        assert(cluster_at(b, x) == cluster_at(a, x));
    }
    assert forall|x: u128| #[trigger] l.ids.contains(x) <==> exists|c: u32|
        c < stats.clusters && #[trigger] lists(b, c, x) by {
        if l.ids.contains(x) {
            let u = choose|u: int| 0 <= u < l.ids.len() && l.ids[u] == x;
            assert(l.labels[u] < l.count());
            let c = l.labels[u] as u32;
            lemma_lists(l, c, x);
            assert(l.labels[u] == c && l.ids[u] == x);
            assert(lists(b, c, x));
        }
        if exists|c: u32| c < stats.clusters && #[trigger] lists(b, c, x) {
            let c = choose|c: u32| c < stats.clusters && #[trigger] lists(b, c, x);
            lemma_lists(l, c, x);
        }
    }
    let hubs = l.hubs.map_values(|u: usize| l.ids[u as int]);
    assert(hubs.no_duplicates()) by {
        assert forall|i: int, j: int|
            0 <= i < hubs.len() && 0 <= j < hubs.len() && i != j implies hubs[i] != hubs[j] by {
            assert(l.hubs[i] != l.hubs[j]);
            assert(l.hubs[i] < l.ids.len() && l.hubs[j] < l.ids.len());
        }
    }
    assert forall|x: u128| #[trigger] hub_at(b, x) <==> hubs.contains(x) by {
        assert(hub_at(b, x) == hub_at(a, x));
        if hub_at(a, x) {
            lemma_only_built_nodes(l, Table::UuidIsHub, x);
            let u = choose|u: int| 0 <= u < l.ids.len() && l.ids[u] == x;
            law_built_nodes_read_back(Map::empty(), l, u);
            let i = choose|i: int| 0 <= i < l.hubs.len() && l.hubs[i] == u as usize;
            assert(hubs[i] == x);
        }
        if hubs.contains(x) {
            let i = choose|i: int| 0 <= i < hubs.len() && hubs[i] == x;
            assert(l.hubs[i] < l.ids.len());
            law_built_nodes_read_back(Map::empty(), l, l.hubs[i] as int);
        }
    }
}

} // verus!
