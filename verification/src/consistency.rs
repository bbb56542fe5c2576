//! What holds of a store that the functions of this library have written.
//!
//! A build writes a consistent store into an empty one, an insertion keeps a consistent
//! store consistent, and what was written reads back.
use crate::bytes::{le_bytes, lemma_be_bytes_injective, lemma_le_bytes_injective, lemma_pow256};
use crate::codec::{
    cluster_drift_bytes, cluster_meta_bytes, law_cluster_drift_round_trip,
    law_cluster_meta_round_trip, law_hub_neighbors_round_trip, law_u32_round_trip,
    law_uuid_vec_round_trip, list_body, uuid_entries, uuid_vec_bytes, Failure,
};
use crate::id::version_of;
use crate::index::{
    applied, cluster_key, drift_in, meta_in, members_in, next_cluster, node_key, stored, Entry,
    Image, Table,
};
use crate::insert::{
    insert_entries, insertion, join, lemma_place_for, place_for, poll, region_at, sorted_in, winner,
};
use crate::layout::{
    all_version_7, build_entries, cluster_entry, cluster_ids, hub_entry, hub_links, hub_total,
    id_order, is_layout, lemma_id_order, lemma_link_targets, node_entry, plan, Layout,
    HUB_GRAPH_K_HOP,
};
use crate::partition::{lemma_members, members};
use crate::query::{cluster_at, hub_at, links_at, members_at, same_cluster};
use crate::sort::increasing_keys;
use vstd::prelude::*;

verus! {

/// How many of the nodes are marked as hubs.
pub open spec fn hubs_among(image: Image, ids: Seq<u128>) -> nat
    decreases ids.len(),
{
    if ids.len() == 0 {
        0
    } else {
        hubs_among(image, ids.drop_last()) + if hub_at(image, ids.last()) {
            1nat
        } else {
            0
        }
    }
}

/// What the store holds of a cluster agrees: its nodes are listed in order, their
/// number and that of the hubs among them are recorded, and they name this cluster as
/// theirs and share a region.
pub open spec fn cluster_is_sound(image: Image, c: u32) -> bool {
    match members_in(stored(image, Table::ClusterMembers, cluster_key(c))) {
        Err(e) => false,
        Ok(None) => {
            &&& stored(image, Table::ClusterMeta, cluster_key(c)) is None
            &&& stored(image, Table::ClusterDrift, cluster_key(c)) is None
        },
        Ok(Some(ids)) => {
            &&& 0 < ids.len() <= u32::MAX
            &&& increasing_keys(ids)
            &&& meta_in(stored(image, Table::ClusterMeta, cluster_key(c))) == Ok::<
                Option<(u32, u32)>,
                Failure,
            >(Some((ids.len() as u32, hubs_among(image, ids) as u32)))
            &&& drift_in(stored(image, Table::ClusterDrift, cluster_key(c))) is Ok
            &&& forall|i: int|
                0 <= i < ids.len() ==> cluster_at(image, #[trigger] ids[i]) == Ok::<
                    Option<u32>,
                    Failure,
                >(Some(c))
            &&& region_at(image, ids[0]) is Ok
            &&& region_at(image, ids[0])->Ok_0 is Some
            &&& forall|i: int|
                0 <= i < ids.len() ==> region_at(image, #[trigger] ids[i]) == region_at(
                    image,
                    ids[0],
                )
        },
    }
}

/// A node that the store knows is listed in its cluster.
pub open spec fn node_is_sound(image: Image, x: u128) -> bool {
    stored(image, Table::UuidToCluster, node_key(x)) is Some ==> {
        &&& cluster_at(image, x) matches Ok(Some(c))
        &&& members_at(image, c) is Ok
        &&& members_at(image, c)->Ok_0.contains(x)
    }
}

/// Everything that the store holds of clusters and nodes agrees.
pub open spec fn consistent(image: Image) -> bool {
    &&& forall|c: u32| #[trigger] cluster_is_sound(image, c)
    &&& forall|x: u128| #[trigger] node_is_sound(image, x)
}

/// The value under a key is the last one that was written there.
proof fn lemma_applied_last(image: Image, writes: Seq<Entry>, i: int)
    requires
        0 <= i < writes.len(),
        forall|j: int|
            i < j < writes.len() ==> ((#[trigger] writes[j]).0 != writes[i].0 || writes[j].1
                != writes[i].1),
    ensures
        stored(applied(image, writes), writes[i].0, writes[i].1) == Some(writes[i].2),
    decreases writes.len(),
{
    let front = writes.drop_last();
    if i < writes.len() - 1 {
        assert forall|j: int| i < j < front.len() implies ((#[trigger] front[j]).0 != front[i].0
            || front[j].1 != front[i].1) by {
            assert(front[j] == writes[j]);
        }
        lemma_applied_last(image, front, i);
        assert(writes[writes.len() - 1].0 != writes[i].0 || writes[writes.len() - 1].1
            != writes[i].1);
    }
}

/// A key that nothing is written under keeps its value.
pub proof fn lemma_applied_other(image: Image, writes: Seq<Entry>, table: Table, key: Seq<u8>)
    requires
        forall|j: int|
            0 <= j < writes.len() ==> ((#[trigger] writes[j]).0 != table || writes[j].1 != key),
    ensures
        stored(applied(image, writes), table, key) == stored(image, table, key),
    decreases writes.len(),
{
    if writes.len() > 0 {
        let front = writes.drop_last();
        assert forall|j: int| 0 <= j < front.len() implies ((#[trigger] front[j]).0 != table
            || front[j].1 != key) by {
            assert(front[j] == writes[j]);
        }
        lemma_applied_other(image, front, table, key);
        assert(writes[writes.len() - 1].0 != table || writes[writes.len() - 1].1 != key);
    }
}

/// Different nodes have different keys.
pub proof fn lemma_node_keys(x: u128, y: u128)
    requires
        node_key(x) == node_key(y),
    ensures
        x == y,
{
    lemma_pow256();
    lemma_be_bytes_injective(x as nat, y as nat, 16);
}

/// Different clusters have different keys.
pub proof fn lemma_cluster_keys(c: u32, d: u32)
    requires
        cluster_key(c) == cluster_key(d),
    ensures
        c == d,
{
    lemma_pow256();
    lemma_le_bytes_injective(c as nat, d as nat, 4);
}

/// The first values to write are those of the nodes, then those of the hubs, then those
/// of the clusters.
pub proof fn lemma_build_entries(l: Layout)
    ensures
        build_entries(l).len() == 3 * l.ids.len() + l.hubs.len() + 3 * l.count(),
        forall|i: int|
            0 <= i < 3 * l.ids.len() ==> #[trigger] build_entries(l)[i] == node_entry(l, i),
        forall|i: int|
            3 * l.ids.len() <= i < 3 * l.ids.len() + l.hubs.len() ==> #[trigger] build_entries(
                l,
            )[i] == hub_entry(l, i - 3 * l.ids.len()),
        forall|i: int|
            3 * l.ids.len() + l.hubs.len() <= i < build_entries(l).len()
                ==> #[trigger] build_entries(l)[i] == cluster_entry(
                l,
                i - 3 * l.ids.len() - l.hubs.len(),
            ),
{
}

/// What a build wrote of a node stands in the store.
proof fn lemma_built_node(image: Image, l: Layout, u: int)
    requires
        is_layout(l),
        0 <= u < l.ids.len(),
    ensures
        forall|r: int|
            0 <= r < 3 ==> stored(
                applied(image, build_entries(l)),
                (#[trigger] node_entry(l, 3 * u + r)).0,
                node_entry(l, 3 * u + r).1,
            ) == Some(node_entry(l, 3 * u + r).2),
{
    let w = build_entries(l);
    lemma_build_entries(l);
    assert forall|r: int| 0 <= r < 3 implies stored(
        applied(image, w),
        (#[trigger] node_entry(l, 3 * u + r)).0,
        node_entry(l, 3 * u + r).1,
    ) == Some(node_entry(l, 3 * u + r).2) by {
        let i = 3 * u + r;
        assert(w[i] == node_entry(l, i));
        assert forall|j: int| i < j < w.len() implies ((#[trigger] w[j]).0 != w[i].0 || w[j].1
            != w[i].1) by {
            if j < 3 * l.ids.len() {
                assert(w[j] == node_entry(l, j));
                if w[j].1 == w[i].1 {
                    lemma_node_keys(l.ids[j / 3], l.ids[i / 3]);
                    assert(j / 3 == i / 3);
                }
            } else if j < 3 * l.ids.len() + l.hubs.len() {
                assert(w[j] == hub_entry(l, j - 3 * l.ids.len()));
            } else {
                assert(w[j] == cluster_entry(l, j - 3 * l.ids.len() - l.hubs.len()));
            }
        }
        lemma_applied_last(image, w, i);
    }
}

/// What a build wrote of a hub stands in the store.
proof fn lemma_built_hub(image: Image, l: Layout, h: int)
    requires
        is_layout(l),
        0 <= h < l.hubs.len(),
    ensures
        stored(applied(image, build_entries(l)), hub_entry(l, h).0, hub_entry(l, h).1) == Some(
            hub_entry(l, h).2,
        ),
{
    let w = build_entries(l);
    lemma_build_entries(l);
    let i = 3 * l.ids.len() + h;
    assert(w[i] == hub_entry(l, h));
    assert forall|j: int| i < j < w.len() implies ((#[trigger] w[j]).0 != w[i].0 || w[j].1
        != w[i].1) by {
        if j < 3 * l.ids.len() + l.hubs.len() {
            let g = j - 3 * l.ids.len();
            assert(w[j] == hub_entry(l, g));
            if w[j].1 == w[i].1 {
                lemma_node_keys(l.ids[l.hubs[g] as int], l.ids[l.hubs[h] as int]);
                assert(l.hubs[h] < l.hubs[g]);
                assert(l.hubs[g] < l.ids.len());
            }
        } else {
            assert(w[j] == cluster_entry(l, j - 3 * l.ids.len() - l.hubs.len()));
        }
    }
    lemma_applied_last(image, w, i);
}

/// What a build wrote of a cluster stands in the store.
proof fn lemma_built_cluster(image: Image, l: Layout, c: int)
    requires
        is_layout(l),
        0 <= c < l.count() <= 0x1_0000_0000,
    ensures
        forall|r: int|
            0 <= r < 3 ==> stored(
                applied(image, build_entries(l)),
                (#[trigger] cluster_entry(l, 3 * c + r)).0,
                cluster_entry(l, 3 * c + r).1,
            ) == Some(cluster_entry(l, 3 * c + r).2),
{
    let w = build_entries(l);
    lemma_build_entries(l);
    let base = 3 * l.ids.len() + l.hubs.len();
    assert forall|r: int| 0 <= r < 3 implies stored(
        applied(image, w),
        (#[trigger] cluster_entry(l, 3 * c + r)).0,
        cluster_entry(l, 3 * c + r).1,
    ) == Some(cluster_entry(l, 3 * c + r).2) by {
        let i = base + 3 * c + r;
        assert(w[i] == cluster_entry(l, 3 * c + r));
        assert forall|j: int| i < j < w.len() implies ((#[trigger] w[j]).0 != w[i].0 || w[j].1
            != w[i].1) by {
            let k = j - base;
            assert(w[j] == cluster_entry(l, k));
            if w[j].1 == w[i].1 {
                lemma_cluster_keys((k / 3) as u32, c as u32);
                assert(k / 3 == c);
            }
        }
        lemma_applied_last(image, w, i);
    }
}

/// After a build every node reads back with its cluster, its region and its hub flag.
pub proof fn law_built_nodes_read_back(image: Image, l: Layout, u: int)
    requires
        is_layout(l),
        plan(l) is Ok,
        0 <= u < l.ids.len(),
    ensures
        cluster_at(applied(image, plan(l)->Ok_0), l.ids[u]) == Ok::<Option<u32>, Failure>(
            Some(l.labels[u] as u32),
        ),
        region_at(applied(image, plan(l)->Ok_0), l.ids[u]) == Ok::<Option<u32>, Failure>(
            Some(l.regions[l.labels[u] as int] as u32),
        ),
        hub_at(applied(image, plan(l)->Ok_0), l.ids[u]) == l.hubs.contains(u as usize),
{
    lemma_built_node(image, l, u);
    assert(l.labels[u] < l.count());
    assert(l.regions[l.labels[u] as int] < l.count());
    assert(node_entry(l, 3 * u + 0).2 == le_bytes(l.labels[u] as nat, 4));
    assert(node_entry(l, 3 * u + 1).2 == le_bytes(l.regions[l.labels[u] as int] as nat, 4));
    assert(node_entry(l, 3 * u + 2).0 == Table::UuidIsHub);
    law_u32_round_trip(l.labels[u] as u32, "cluster_of"@);
    law_u32_round_trip(l.regions[l.labels[u] as int] as u32, "region_of"@);
}

/// The nodes of a cluster are in order, and are those with its label.
pub proof fn lemma_cluster_ids(l: Layout, c: int)
    requires
        is_layout(l),
    ensures
        cluster_ids(l, c).len() == members(l.labels, c, l.labels.len()).len(),
        increasing_keys(cluster_ids(l, c)),
        forall|x: u128| #[trigger]
            cluster_ids(l, c).contains(x) <==> exists|u: int|
                0 <= u < l.ids.len() && l.labels[u] == c && #[trigger] l.ids[u] == x,
{
    let nodes = members(l.labels, c, l.labels.len());
    let plain = nodes.map_values(|u: usize| l.ids[u as int]);
    let sorted = cluster_ids(l, c);
    lemma_members(l.labels, c, l.labels.len());
    lemma_id_order();
    plain.lemma_sort_by_ensures(id_order());
    plain.to_multiset_ensures();
    sorted.to_multiset_ensures();
    assert(plain.no_duplicates()) by {
        assert forall|i: int, j: int|
            0 <= i < plain.len() && 0 <= j < plain.len() && i != j implies plain[i]
            != plain[j] by {
            assert(nodes[i] != nodes[j]);
            assert(nodes[i] < l.ids.len() && nodes[j] < l.ids.len());
        }
    }
    plain.lemma_multiset_has_no_duplicates();
    sorted.lemma_multiset_has_no_duplicates_conv();
    assert forall|i: int, j: int| 0 <= i < j < sorted.len() implies sorted[i] < sorted[j] by {
        assert(id_order()(sorted[i], sorted[j]));
    }
    assert forall|x: u128| #[trigger] sorted.contains(x) <==> exists|u: int|
        0 <= u < l.ids.len() && l.labels[u] == c && #[trigger] l.ids[u] == x by {
        assert(sorted.contains(x) <==> sorted.to_multiset().count(x) > 0);
        assert(plain.contains(x) <==> plain.to_multiset().count(x) > 0);
        if plain.contains(x) {
            let i = choose|i: int| 0 <= i < plain.len() && plain[i] == x;
            assert(nodes[i] < l.ids.len() && l.labels[nodes[i] as int] == c);
            assert(l.ids[nodes[i] as int] == x);
        }
        if exists|u: int| 0 <= u < l.ids.len() && l.labels[u] == c && #[trigger] l.ids[u] == x {
            let u = choose|u: int|
                0 <= u < l.ids.len() && l.labels[u] == c && #[trigger] l.ids[u] == x;
            assert(nodes.contains(u as usize));
            let i = choose|i: int| 0 <= i < nodes.len() && nodes[i] == u as usize;
            assert(plain[i] == x);
        }
    }
}

/// After a build every cluster reads back with its nodes in order, its size, its number
/// of hubs, and no drift.
pub proof fn law_built_clusters_read_back(image: Image, l: Layout, c: int)
    requires
        is_layout(l),
        all_version_7(l),
        plan(l) is Ok,
        0 <= c < l.count(),
    ensures
        members_at(applied(image, plan(l)->Ok_0), c as u32) == Ok::<Seq<u128>, Failure>(
            cluster_ids(l, c),
        ),
        increasing_keys(cluster_ids(l, c)),
        meta_in(
            stored(applied(image, plan(l)->Ok_0), Table::ClusterMeta, cluster_key(c as u32)),
        ) == Ok::<Option<(u32, u32)>, Failure>(
            Some(
                (
                    members(l.labels, c, l.labels.len()).len() as u32,
                    hub_total(l.hubs, members(l.labels, c, l.labels.len())) as u32,
                ),
            ),
        ),
        drift_in(
            stored(applied(image, plan(l)->Ok_0), Table::ClusterDrift, cluster_key(c as u32)),
        ) == Ok::<(u64, u32), Failure>((0, 0)),
{
    lemma_built_cluster(image, l, c);
    lemma_cluster_ids(l, c);
    let nodes = members(l.labels, c, l.labels.len());
    let ids = cluster_ids(l, c);
    assert(nodes.len() <= u32::MAX);
    assert forall|i: int| 0 <= i < ids.len() implies version_of(#[trigger] ids[i]) == 7 by {
        assert(ids.contains(ids[i]));
        let u = choose|u: int|
            0 <= u < l.ids.len() && l.labels[u] == c && #[trigger] l.ids[u] == ids[i];
        assert(version_of(l.ids[u]) == 7);
    }
    law_uuid_vec_round_trip(ids, "cluster_members"@);
    law_cluster_meta_round_trip(nodes.len() as u32, hub_total(l.hubs, nodes) as u32);
    law_cluster_drift_round_trip(0, 0);
    assert(cluster_entry(l, 3 * c + 0).2 == uuid_vec_bytes(ids));
    assert(cluster_entry(l, 3 * c + 1).0 == Table::ClusterMeta);
    assert(cluster_entry(l, 3 * c + 2).0 == Table::ClusterDrift);
}

/// After a build every hub reads back with its links.
pub proof fn law_built_links_read_back(image: Image, l: Layout, h: int)
    requires
        is_layout(l),
        all_version_7(l),
        plan(l) is Ok,
        0 <= h < l.hubs.len(),
    ensures
        links_at(applied(image, plan(l)->Ok_0), l.ids[l.hubs[h] as int]) == Ok::<
            Seq<(u128, u32)>,
            Failure,
        >(hub_links(l, l.hubs[h])),
{
    lemma_built_hub(image, l, h);
    let list = hub_links(l, l.hubs[h]);
    assert(list.len() <= u32::MAX);
    lemma_link_targets(l.lists, l.hubs, HUB_GRAPH_K_HOP as nat, l.hubs[h], l.hubs.len());
    let raw = crate::hub_graph::links(
        l.lists,
        l.hubs,
        HUB_GRAPH_K_HOP as nat,
        l.hubs[h],
        l.hubs.len(),
    );
    assert forall|i: int| 0 <= i < list.len() implies version_of((#[trigger] list[i]).0) == 7 by {
        assert(l.hubs.contains(raw[i].0));
        let p = choose|p: int| 0 <= p < l.hubs.len() && l.hubs[p] == raw[i].0;
        assert(l.hubs[p] < l.ids.len());
        assert(version_of(l.ids[l.hubs[p] as int]) == 7);
    }
    law_hub_neighbors_round_trip(list, "hub_neighbors"@);
}

/// A value in a store that was empty was written there.
pub proof fn lemma_applied_written(writes: Seq<Entry>, table: Table, key: Seq<u8>)
    requires
        stored(applied(Map::empty(), writes), table, key) is Some,
    ensures
        exists|i: int|
            0 <= i < writes.len() && (#[trigger] writes[i]).0 == table && writes[i].1 == key,
{
    if forall|j: int|
        0 <= j < writes.len() ==> ((#[trigger] writes[j]).0 != table || writes[j].1 != key) {
        lemma_applied_other(Map::empty(), writes, table, key);
    }
}

/// Taking a node out of a list takes its hub flag out of the count.
proof fn lemma_hubs_remove(image: Image, ids: Seq<u128>, k: int)
    requires
        0 <= k < ids.len(),
    ensures
        hubs_among(image, ids) == hubs_among(image, ids.remove(k)) + if hub_at(image, ids[k]) {
            1nat
        } else {
            0
        },
    decreases ids.len(),
{
    let less = ids.remove(k);
    if k == ids.len() - 1 {
        assert(less =~= ids.drop_last());
    } else {
        lemma_hubs_remove(image, ids.drop_last(), k);
        assert(less.drop_last() =~= ids.drop_last().remove(k));
        assert(less.last() == ids.last());
    }
}

/// The count of hubs does not depend on the order.
proof fn lemma_hubs_reorder(image: Image, a: Seq<u128>, b: Seq<u128>)
    requires
        a.to_multiset() == b.to_multiset(),
    ensures
        hubs_among(image, a) == hubs_among(image, b),
    decreases a.len(),
{
    a.to_multiset_ensures();
    b.to_multiset_ensures();
    if a.len() > 0 {
        let x = a.last();
        assert(a.contains(x));
        assert(a.to_multiset().count(x) > 0);
        assert(b.contains(x));
        let k = choose|k: int| 0 <= k < b.len() && b[k] == x;
        lemma_hubs_remove(image, b, k);
        let front = a.drop_last();
        assert(front =~= a.remove(a.len() - 1));
        assert(a.remove(a.len() - 1).to_multiset() =~= a.to_multiset().remove(x));
        assert(b.remove(k).to_multiset() =~= b.to_multiset().remove(x));
        lemma_hubs_reorder(image, front, b.remove(k));
    }
}

/// The hubs among the nodes of a layout are those marked in the store.
proof fn lemma_hub_total(image: Image, l: Layout, nodes: Seq<usize>)
    requires
        forall|i: int| 0 <= i < nodes.len() ==> (#[trigger] nodes[i]) < l.ids.len(),
        forall|u: int|
            0 <= u < l.ids.len() ==> hub_at(image, #[trigger] l.ids[u]) == l.hubs.contains(
                u as usize,
            ),
    ensures
        hubs_among(image, nodes.map_values(|u: usize| l.ids[u as int])) == hub_total(l.hubs, nodes),
        hub_total(l.hubs, nodes) <= nodes.len(),
    decreases nodes.len(),
{
    let ids = nodes.map_values(|u: usize| l.ids[u as int]);
    if nodes.len() > 0 {
        let front = nodes.drop_last();
        assert forall|i: int| 0 <= i < front.len() implies (#[trigger] front[i]) < l.ids.len() by {
            assert(front[i] == nodes[i]);
        }
        lemma_hub_total(image, l, front);
        assert(ids.drop_last() =~= front.map_values(|u: usize| l.ids[u as int]));
        let u = nodes[nodes.len() - 1];
        assert(ids.last() == l.ids[u as int]);
    }
}

/// A build leaves the nodes of earlier builds that it does not know as they were.
pub proof fn law_build_keeps_other_nodes(image: Image, l: Layout, id: u128)
    requires
        is_layout(l),
        plan(l) is Ok,
        !l.ids.contains(id),
    ensures
        cluster_at(applied(image, plan(l)->Ok_0), id) == cluster_at(image, id),
        region_at(applied(image, plan(l)->Ok_0), id) == region_at(image, id),
        hub_at(applied(image, plan(l)->Ok_0), id) == hub_at(image, id),
        links_at(applied(image, plan(l)->Ok_0), id) == links_at(image, id),
{
    let w = build_entries(l);
    lemma_build_entries(l);
    assert forall|j: int| 0 <= j < w.len() implies ((#[trigger] w[j]).1 != node_key(id) || w[j].0
        is ClusterMembers || w[j].0 is ClusterMeta || w[j].0 is ClusterDrift) by {
        if j < 3 * l.ids.len() {
            assert(w[j] == node_entry(l, j));
            if w[j].1 == node_key(id) {
                lemma_node_keys(l.ids[j / 3], id);
                assert(l.ids[j / 3] == id);
            }
        } else if j < 3 * l.ids.len() + l.hubs.len() {
            let h = j - 3 * l.ids.len();
            assert(w[j] == hub_entry(l, h));
            assert(l.hubs[h] < l.ids.len());
            if w[j].1 == node_key(id) {
                lemma_node_keys(l.ids[l.hubs[h] as int], id);
                assert(l.ids[l.hubs[h] as int] == id);
            }
        } else {
            assert(w[j] == cluster_entry(l, j - 3 * l.ids.len() - l.hubs.len()));
        }
    }
    lemma_applied_other(image, w, Table::UuidToCluster, node_key(id));
    lemma_applied_other(image, w, Table::UuidToRegion, node_key(id));
    lemma_applied_other(image, w, Table::UuidIsHub, node_key(id));
    lemma_applied_other(image, w, Table::HubNeighbors, node_key(id));
}

/// A build writes a consistent store into an empty one.
pub proof fn law_build_is_consistent(l: Layout)
    requires
        is_layout(l),
        all_version_7(l),
        plan(l) is Ok,
    ensures
        consistent(applied(Map::empty(), plan(l)->Ok_0)),
{
    let w = build_entries(l);
    let image = applied(Map::empty(), w);
    lemma_build_entries(l);
    assert forall|u: int| 0 <= u < l.ids.len() implies hub_at(image, #[trigger] l.ids[u])
        == l.hubs.contains(u as usize) by {
        law_built_nodes_read_back(Map::empty(), l, u);
    }
    assert forall|c: u32| #[trigger] cluster_is_sound(image, c) by {
        if c < l.count() {
            lemma_built_cluster_sound(l, c);
        } else {
            assert forall|t: Table|
                t == Table::ClusterMembers || t == Table::ClusterMeta || t
                    == Table::ClusterDrift implies #[trigger] stored(
                image,
                t,
                cluster_key(c),
            ) is None by {
                if stored(image, t, cluster_key(c)) is Some {
                    lemma_applied_written(w, t, cluster_key(c));
                    let i = choose|i: int|
                        0 <= i < w.len() && (#[trigger] w[i]).0 == t && w[i].1 == cluster_key(c);
                    if i < 3 * l.ids.len() {
                        assert(w[i] == node_entry(l, i));
                    } else if i < 3 * l.ids.len() + l.hubs.len() {
                        assert(w[i] == hub_entry(l, i - 3 * l.ids.len()));
                    } else {
                        let k = i - 3 * l.ids.len() - l.hubs.len();
                        assert(w[i] == cluster_entry(l, k));
                        lemma_cluster_keys((k / 3) as u32, c);
                    }
                    assert(false);
                }
            }
            assert(stored(image, Table::ClusterMembers, cluster_key(c)) is None);
            assert(stored(image, Table::ClusterMeta, cluster_key(c)) is None);
            assert(stored(image, Table::ClusterDrift, cluster_key(c)) is None);
        }
    }
    assert forall|x: u128| #[trigger] node_is_sound(image, x) by {
        if stored(image, Table::UuidToCluster, node_key(x)) is Some {
            lemma_applied_written(w, Table::UuidToCluster, node_key(x));
            let i = choose|i: int|
                0 <= i < w.len() && (#[trigger] w[i]).0 == Table::UuidToCluster && w[i].1
                    == node_key(x);
            if i < 3 * l.ids.len() {
                assert(w[i] == node_entry(l, i));
                let u = i / 3;
                lemma_node_keys(l.ids[u], x);
                law_built_nodes_read_back(Map::empty(), l, u);
                assert(l.labels[u] < l.count());
                let c = l.labels[u] as int;
                law_built_clusters_read_back(Map::empty(), l, c);
                lemma_cluster_ids(l, c);
                assert(l.labels[u] == c && l.ids[u] == x);
                assert(cluster_ids(l, c).contains(x));
            } else if i < 3 * l.ids.len() + l.hubs.len() {
                assert(w[i] == hub_entry(l, i - 3 * l.ids.len()));
                assert(false);
            } else {
                assert(w[i] == cluster_entry(l, i - 3 * l.ids.len() - l.hubs.len()));
                assert(false);
            }
        }
    }
}

proof fn lemma_built_cluster_sound(l: Layout, c: u32)
    requires
        is_layout(l),
        all_version_7(l),
        plan(l) is Ok,
        c < l.count(),
    ensures
        cluster_is_sound(applied(Map::empty(), plan(l)->Ok_0), c),
{
    let image = applied(Map::empty(), build_entries(l));
    let nodes = members(l.labels, c as int, l.labels.len());
    let plain = nodes.map_values(|u: usize| l.ids[u as int]);
    let ids = cluster_ids(l, c as int);
    law_built_clusters_read_back(Map::empty(), l, c as int);
    lemma_built_cluster(Map::empty(), l, c as int);
    lemma_cluster_ids(l, c as int);
    lemma_members(l.labels, c as int, l.labels.len());
    assert forall|u: int| 0 <= u < l.ids.len() implies hub_at(image, #[trigger] l.ids[u])
        == l.hubs.contains(u as usize) by {
        law_built_nodes_read_back(Map::empty(), l, u);
    }
    lemma_hub_total(image, l, nodes);
    lemma_id_order();
    plain.lemma_sort_by_ensures(id_order());
    lemma_hubs_reorder(image, plain, ids);
    assert(nodes.len() <= u32::MAX);
    assert(ids.len() > 0) by {
        assert(l.labels.contains((c as int) as usize));
        let u = choose|u: int| 0 <= u < l.labels.len() && l.labels[u] == c as usize;
        assert(l.labels[u] == c as int && l.ids[u] == l.ids[u]);
        assert(ids.contains(l.ids[u]));
    }
    assert(cluster_entry(l, 3 * c + 0).0 == Table::ClusterMembers);
    assert forall|i: int| 0 <= i < ids.len() implies cluster_at(image, #[trigger] ids[i]) == Ok::<
        Option<u32>,
        Failure,
    >(Some(c)) && region_at(image, ids[i]) == Ok::<Option<u32>, Failure>(
        Some(l.regions[c as int] as u32),
    ) by {
        assert(ids.contains(ids[i]));
        let u = choose|u: int|
            0 <= u < l.ids.len() && l.labels[u] == c as int && #[trigger] l.ids[u] == ids[i];
        law_built_nodes_read_back(Map::empty(), l, u);
    }
}

/// Each of the identifiers in a stored list is of version 7.
proof fn lemma_stored_version_7(body: Seq<u8>, context: Seq<char>, k: nat)
    ensures
        uuid_entries(body, context, k) matches Ok(ids) ==> forall|i: int|
            0 <= i < ids.len() ==> version_of(#[trigger] ids[i]) == 7,
    decreases k,
{
    if k > 0 {
        lemma_stored_version_7(body, context, (k - 1) as nat);
    }
}

/// An insertion either fails or puts the node into some cluster.
proof fn lemma_poll_joins(
    image: Image,
    keys: Seq<Seq<u8>>,
    id: u128,
    neighbors: Seq<u128>,
    i: nat,
    votes: Seq<u32>,
)
    ensures
        poll(image, keys, id, neighbors, i, votes) is Ok ==> exists|c: u32|
            poll(image, keys, id, neighbors, i, votes) == #[trigger] join(image, id, c),
    decreases neighbors.len() - i,
{
    if i < neighbors.len() {
        match cluster_at(image, neighbors[i as int]) {
            Ok(Some(c)) => {
                lemma_poll_joins(image, keys, id, neighbors, i + 1, votes.push(c));
            },
            Ok(None) => {
                lemma_poll_joins(image, keys, id, neighbors, i + 1, votes);
            },
            Err(e) => {},
        }
    }
}

/// What an insertion into cluster `c` wrote stands in the store, and nothing else
/// changed.
proof fn lemma_inserted(
    image: Image,
    id: u128,
    c: u32,
    list: Seq<u8>,
    region: u32,
    size: u32,
    hub_count: u32,
    generation: u64,
    delta: u32,
)
    ensures
        ({
            let after = applied(
                image,
                insert_entries(id, c, list, region, size, hub_count, generation, delta),
            );
            &&& stored(after, Table::UuidToCluster, node_key(id)) == Some(le_bytes(c as nat, 4))
            &&& stored(after, Table::UuidToRegion, node_key(id)) == Some(
                le_bytes(region as nat, 4),
            )
            &&& stored(after, Table::UuidIsHub, node_key(id)) == Some(seq![0u8])
            &&& stored(after, Table::ClusterMembers, cluster_key(c)) == Some(list)
            &&& stored(after, Table::ClusterMeta, cluster_key(c)) == Some(
                cluster_meta_bytes(size, hub_count),
            )
            &&& stored(after, Table::ClusterDrift, cluster_key(c)) == Some(
                cluster_drift_bytes(generation, delta),
            )
            &&& forall|t: Table, key: Seq<u8>|
                key != node_key(id) && key != cluster_key(c) ==> #[trigger] stored(after, t, key)
                    == stored(image, t, key)
            &&& forall|key: Seq<u8>| #[trigger]
                stored(after, Table::HubNeighbors, key) == stored(image, Table::HubNeighbors, key)
        }),
{
    let w = insert_entries(id, c, list, region, size, hub_count, generation, delta);
    let after = applied(image, w);
    lemma_applied_last(image, w, 0);
    lemma_applied_last(image, w, 1);
    lemma_applied_last(image, w, 2);
    lemma_applied_last(image, w, 3);
    lemma_applied_last(image, w, 4);
    lemma_applied_last(image, w, 5);
    assert forall|t: Table, key: Seq<u8>|
        key != node_key(id) && key != cluster_key(c) implies #[trigger] stored(after, t, key)
        == stored(image, t, key) by {
        lemma_applied_other(image, w, t, key);
    }
    assert forall|key: Seq<u8>| #[trigger] stored(after, Table::HubNeighbors, key) == stored(
        image,
        Table::HubNeighbors,
        key,
    ) by {
        lemma_applied_other(image, w, Table::HubNeighbors, key);
    }
}

/// The count of hubs among some nodes depends only on their flags.
pub proof fn lemma_hubs_same(a: Image, b: Image, ids: Seq<u128>)
    requires
        forall|i: int| 0 <= i < ids.len() ==> hub_at(a, #[trigger] ids[i]) == hub_at(b, ids[i]),
    ensures
        hubs_among(a, ids) == hubs_among(b, ids),
    decreases ids.len(),
{
    if ids.len() > 0 {
        let front = ids.drop_last();
        assert forall|i: int| 0 <= i < front.len() implies hub_at(a, #[trigger] front[i])
            == hub_at(b, front[i]) by {
            assert(front[i] == ids[i]);
        }
        lemma_hubs_same(a, b, front);
        assert(hub_at(a, ids[ids.len() - 1]) == hub_at(b, ids[ids.len() - 1]));
    }
}

/// A node put in its place keeps a list in order, and joins those that are there.
proof fn lemma_sorted_in(ids: Seq<u128>, id: u128)
    requires
        increasing_keys(ids),
        !ids.contains(id),
    ensures
        increasing_keys(sorted_in(ids, id)),
        sorted_in(ids, id).len() == ids.len() + 1,
        forall|x: u128| #[trigger] sorted_in(ids, id).contains(x) <==> x == id || ids.contains(x),
        sorted_in(ids, id).remove(place_for(ids, id) as int) == ids,
{
    lemma_place_for(ids, id);
    let p = place_for(ids, id) as int;
    let out = sorted_in(ids, id);
    assert forall|i: int, j: int| 0 <= i < j < out.len() implies out[i] < out[j] by {
        let a = if i < p {
            i
        } else {
            i - 1
        };
        let b = if j < p {
            j
        } else {
            j - 1
        };
        if i != p {
            assert(out[i] == ids[a]);
            assert(ids.contains(ids[a]));
        }
        if j != p {
            assert(out[j] == ids[b]);
            assert(ids.contains(ids[b]));
        }
        if j == p {
            assert(ids[i] <= id);
        } else if i == p {
            assert(ids[p] > id);
            if b > p {
                assert(ids[p] < ids[b]);
            }
        } else {
            assert(ids[a] < ids[b]);
        }
    }
    assert forall|x: u128| #[trigger] out.contains(x) <==> x == id || ids.contains(x) by {
        if x == id {
            assert(out[p] == id);
        }
        if ids.contains(x) {
            let i = choose|i: int| 0 <= i < ids.len() && ids[i] == x;
            if i < p {
                assert(out[i] == x);
            } else {
                assert(out[i + 1] == x);
            }
        }
        if out.contains(x) {
            let j = choose|j: int| 0 <= j < out.len() && out[j] == x;
            if j < p {
                assert(ids[j] == x);
            } else if j > p {
                assert(ids[j - 1] == x);
            }
        }
    }
    assert(out.remove(p) =~= ids);
}

/// The size and the number of hubs that are recorded of a cluster; none if nothing is.
pub open spec fn meta_at(image: Image, c: u32) -> Result<(u32, u32), Failure> {
    match meta_in(stored(image, Table::ClusterMeta, cluster_key(c))) {
        Err(e) => Err(e),
        Ok(None) => Ok((0, 0)),
        Ok(Some(meta)) => Ok(meta),
    }
}

/// The drift that is recorded of a cluster.
pub open spec fn drift_at(image: Image, c: u32) -> Result<(u64, u32), Failure> {
    drift_in(stored(image, Table::ClusterDrift, cluster_key(c)))
}

/// The node `id` has been put into cluster `c`: it reads back, it is no hub, the cluster
/// lists it in its place, its size and its inserts grew by one, and what is stored of
/// other nodes and clusters, and the links between hubs, stayed as it was.
pub open spec fn is_inserted(before: Image, after: Image, id: u128, c: u32) -> bool {
    &&& stored(before, Table::UuidToCluster, node_key(id)) is None
    &&& cluster_at(after, id) == Ok::<Option<u32>, Failure>(Some(c))
    &&& !hub_at(after, id)
    &&& members_at(before, c) is Ok
    &&& !members_at(before, c)->Ok_0.contains(id)
    &&& members_at(after, c) == Ok::<Seq<u128>, Failure>(
        sorted_in(members_at(before, c)->Ok_0, id),
    )
    &&& region_at(after, id) == (if members_at(before, c)->Ok_0.len() > 0 {
        match region_at(before, members_at(before, c)->Ok_0[0]) {
            Ok(None) => Ok::<Option<u32>, Failure>(Some(0)),
            other => other,
        }
    } else {
        Ok::<Option<u32>, Failure>(Some(0))
    })
    &&& meta_at(before, c) is Ok
    &&& meta_at(before, c)->Ok_0.0 < u32::MAX
    &&& meta_in(stored(after, Table::ClusterMeta, cluster_key(c))) == Ok::<
        Option<(u32, u32)>,
        Failure,
    >({
        let (size, hub_count) = meta_at(before, c)->Ok_0;
        Some(((size + 1) as u32, hub_count))
    })
    &&& drift_at(before, c) is Ok
    &&& drift_at(before, c)->Ok_0.1 < u32::MAX
    &&& drift_at(after, c) == Ok::<(u64, u32), Failure>({
        let (generation, delta) = drift_at(before, c)->Ok_0;
        (generation, (delta + 1) as u32)
    })
    &&& forall|t: Table, key: Seq<u8>|
        key != node_key(id) && key != cluster_key(c) ==> #[trigger] stored(after, t, key)
            == stored(before, t, key)
    &&& forall|key: Seq<u8>| #[trigger]
        stored(after, Table::HubNeighbors, key) == stored(before, Table::HubNeighbors, key)
}

proof fn lemma_members_version_7(image: Image, c: u32)
    ensures
        members_at(image, c) matches Ok(ids) ==> forall|i: int|
            0 <= i < ids.len() ==> version_of(#[trigger] ids[i]) == 7,
{
    match stored(image, Table::ClusterMembers, cluster_key(c)) {
        None => {},
        Some(bytes) => {
            match list_body(bytes, "cluster_members"@, 16) {
                Ok((body, n)) => {
                    lemma_stored_version_7(body, "cluster_members"@, n);
                },
                Err(e) => {},
            }
        },
    }
}

proof fn lemma_join(image: Image, id: u128, c: u32)
    requires
        version_of(id) == 7,
        join(image, id, c) is Ok,
    ensures
        ({
            let (d, writes) = join(image, id, c)->Ok_0;
            d == c && is_inserted(image, applied(image, writes), id, c)
        }),
{
    let (d, writes) = join(image, id, c)->Ok_0;
    let ids = members_at(image, c)->Ok_0;
    let list = sorted_in(ids, id);
    lemma_members_version_7(image, c);
    lemma_place_for(ids, id);
    let p = place_for(ids, id) as int;
    assert(list.len() <= u32::MAX);
    assert forall|i: int| 0 <= i < list.len() implies version_of(#[trigger] list[i]) == 7 by {
        if i < p {
            assert(list[i] == ids[i]);
        } else if i > p {
            assert(list[i] == ids[i - 1]);
        }
    }
    law_uuid_vec_round_trip(list, "cluster_members"@);
    let region = if ids.len() == 0 {
        0
    } else {
        match region_at(image, ids[0]) {
            Ok(Some(region)) => region,
            _ => 0,
        }
    };
    let (size, hub_count) = meta_at(image, c)->Ok_0;
    let (generation, delta) = drift_at(image, c)->Ok_0;
    lemma_inserted(
        image,
        id,
        c,
        uuid_vec_bytes(list),
        region,
        (size + 1) as u32,
        hub_count,
        generation,
        (delta + 1) as u32,
    );
    law_u32_round_trip(c, "cluster_of"@);
    law_u32_round_trip(region, "region_of"@);
    law_cluster_meta_round_trip((size + 1) as u32, hub_count);
    law_cluster_drift_round_trip(generation, (delta + 1) as u32);
}

/// An insertion that succeeds puts the node into the cluster that it names, and changes
/// nothing else.
pub proof fn law_insert_reads_back(
    image: Image,
    keys: Seq<Seq<u8>>,
    id: u128,
    neighbors: Seq<u128>,
)
    requires
        version_of(id) == 7,
        insertion(image, keys, id, neighbors) is Ok,
    ensures
        ({
            let (c, writes) = insertion(image, keys, id, neighbors)->Ok_0;
            is_inserted(image, applied(image, writes), id, c)
        }),
{
    lemma_poll_joins(image, keys, id, neighbors, 0, Seq::empty());
    let c = choose|c: u32|
        poll(image, keys, id, neighbors, 0, Seq::empty()) == #[trigger] join(image, id, c);
    lemma_join(image, id, c);
}

/// What is stored of a node other than `id` stayed as it was.
proof fn lemma_other_node(before: Image, after: Image, id: u128, c: u32, x: u128)
    requires
        is_inserted(before, after, id, c),
        x != id,
    ensures
        stored(after, Table::UuidToCluster, node_key(x)) == stored(
            before,
            Table::UuidToCluster,
            node_key(x),
        ),
        cluster_at(after, x) == cluster_at(before, x),
        region_at(after, x) == region_at(before, x),
        hub_at(after, x) == hub_at(before, x),
{
    if node_key(x) == node_key(id) {
        lemma_node_keys(x, id);
    }
    crate::bytes::lemma_be_bytes_len(x as nat, 16);
    crate::bytes::lemma_le_bytes_len(c as nat, 4);
    assert(node_key(x) != cluster_key(c));
}

/// What is stored of a cluster other than `c` stayed as it was.
proof fn lemma_other_cluster(before: Image, after: Image, id: u128, c: u32, d: u32)
    requires
        is_inserted(before, after, id, c),
        d != c,
    ensures
        forall|t: Table| #[trigger]
            stored(after, t, cluster_key(d)) == stored(before, t, cluster_key(d)),
{
    if cluster_key(d) == cluster_key(c) {
        lemma_cluster_keys(d, c);
    }
    crate::bytes::lemma_be_bytes_len(id as nat, 16);
    crate::bytes::lemma_le_bytes_len(d as nat, 4);
    assert(node_key(id) != cluster_key(d));
}

/// A node that is not known is in no list of a consistent store.
proof fn lemma_unknown_not_listed(image: Image, id: u128, d: u32)
    requires
        consistent(image),
        stored(image, Table::UuidToCluster, node_key(id)) is None,
    ensures
        members_at(image, d) is Ok,
        !members_at(image, d)->Ok_0.contains(id),
{
    assert(cluster_is_sound(image, d));
    let ids = members_at(image, d)->Ok_0;
    if ids.contains(id) {
        let i = choose|i: int| 0 <= i < ids.len() && ids[i] == id;
        assert(cluster_at(image, ids[i]) == Ok::<Option<u32>, Failure>(Some(d)));
    }
}

/// An insertion keeps a consistent store consistent.
pub proof fn law_insert_keeps_consistent(
    image: Image,
    keys: Seq<Seq<u8>>,
    id: u128,
    neighbors: Seq<u128>,
)
    requires
        consistent(image),
        version_of(id) == 7,
        insertion(image, keys, id, neighbors) is Ok,
    ensures
        ({
            let (c, writes) = insertion(image, keys, id, neighbors)->Ok_0;
            consistent(applied(image, writes))
        }),
{
    law_insert_reads_back(image, keys, id, neighbors);
    let (c, writes) = insertion(image, keys, id, neighbors)->Ok_0;
    let after = applied(image, writes);
    assert forall|d: u32| #[trigger] cluster_is_sound(after, d) by {
        assert(cluster_is_sound(image, d));
        if d != c {
            lemma_other_cluster(image, after, id, c, d);
            assert(stored(after, Table::ClusterMembers, cluster_key(d)) == stored(
                image,
                Table::ClusterMembers,
                cluster_key(d),
            ));
            assert(stored(after, Table::ClusterMeta, cluster_key(d)) == stored(
                image,
                Table::ClusterMeta,
                cluster_key(d),
            ));
            assert(stored(after, Table::ClusterDrift, cluster_key(d)) == stored(
                image,
                Table::ClusterDrift,
                cluster_key(d),
            ));
            lemma_unknown_not_listed(image, id, d);
            let ids = members_at(image, d)->Ok_0;
            assert forall|i: int| 0 <= i < ids.len() implies cluster_at(after, #[trigger] ids[i])
                == cluster_at(image, ids[i]) && region_at(after, ids[i]) == region_at(
                image,
                ids[i],
            ) && hub_at(after, ids[i]) == hub_at(image, ids[i]) by {
                assert(ids.contains(ids[i]));
                lemma_other_node(image, after, id, c, ids[i]);
            }
            lemma_hubs_same(after, image, ids);
        } else {
            lemma_joined_cluster(image, after, id, c);
        }
    }
    assert forall|x: u128| #[trigger] node_is_sound(after, x) by {
        assert(node_is_sound(image, x));
        lemma_unknown_not_listed(image, id, c);
        let ids = members_at(image, c)->Ok_0;
        assert(cluster_is_sound(image, c));
        lemma_sorted_in(ids, id);
        if x == id {
            assert(sorted_in(ids, id).contains(x));
        } else {
            lemma_other_node(image, after, id, c, x);
            if stored(image, Table::UuidToCluster, node_key(x)) is Some {
                let d = cluster_at(image, x)->Ok_0->0;
                if d == c {
                    assert(sorted_in(ids, id).contains(x));
                } else {
                    lemma_other_cluster(image, after, id, c, d);
                    assert(stored(after, Table::ClusterMembers, cluster_key(d)) == stored(
                        image,
                        Table::ClusterMembers,
                        cluster_key(d),
                    ));
                }
            }
        }
    }
}

proof fn lemma_joined_cluster(
    image: Image,
    after: Image,
    id: u128,
    c: u32,
)
    requires
        consistent(image),
        is_inserted(image, after, id, c),
    ensures
        cluster_is_sound(after, c),
{
    assert(cluster_is_sound(image, c));
    let ids = members_at(image, c)->Ok_0;
    let list = sorted_in(ids, id);
    let p = place_for(ids, id) as int;
    lemma_place_for(ids, id);
    lemma_sorted_in(ids, id);
    assert(members_in(stored(after, Table::ClusterMembers, cluster_key(c))) == Ok::<
        Option<Seq<u128>>,
        Failure,
    >(Some(list)));
    assert forall|i: int| 0 <= i < ids.len() implies cluster_at(after, #[trigger] ids[i])
        == cluster_at(image, ids[i]) && region_at(after, ids[i]) == region_at(image, ids[i])
        && hub_at(after, ids[i]) == hub_at(image, ids[i]) by {
        assert(ids.contains(ids[i]));
        lemma_other_node(image, after, id, c, ids[i]);
    }
    lemma_hubs_same(after, image, ids);
    lemma_hubs_remove(after, list, p);
    assert(hubs_among(after, list) == hubs_among(image, ids));
    let region = region_at(after, id);
    assert(region is Ok && region->Ok_0 is Some);
    assert forall|i: int| 0 <= i < list.len() implies cluster_at(after, #[trigger] list[i]) == Ok::<
        Option<u32>,
        Failure,
    >(Some(c)) && region_at(after, list[i]) == region by {
        if i < p {
            assert(list[i] == ids[i]);
        } else if i > p {
            assert(list[i] == ids[i - 1]);
        }
    }
    assert(region_at(after, list[0]) == region);
}

/// In a consistent store a node that is known is found in its own cluster, whose nodes
/// come in order.
pub proof fn law_same_cluster_holds_start(image: Image, start: u128)
    requires
        consistent(image),
        stored(image, Table::UuidToCluster, node_key(start)) is Some,
    ensures
        same_cluster(image, start) is Ok,
        same_cluster(image, start)->Ok_0.uuids.contains(start),
        increasing_keys(same_cluster(image, start)->Ok_0.uuids),
        same_cluster(image, start)->Ok_0.clusters == 1,
        same_cluster(image, start)->Ok_0.hubs == 0,
{
    assert(node_is_sound(image, start));
    let c = cluster_at(image, start)->Ok_0->0;
    assert(cluster_is_sound(image, c));
}

/// Every cluster has room for one more node.
pub open spec fn has_room(image: Image) -> bool {
    forall|c: u32|
        {
            &&& (#[trigger] members_at(image, c) matches Ok(ids) ==> ids.len() < u32::MAX)
            &&& (drift_at(image, c) matches Ok((generation, delta)) ==> delta < u32::MAX)
        }
}

proof fn lemma_join_succeeds(image: Image, id: u128, c: u32)
    requires
        consistent(image),
        has_room(image),
        stored(image, Table::UuidToCluster, node_key(id)) is None,
    ensures
        join(image, id, c) is Ok,
{
    assert(cluster_is_sound(image, c));
    lemma_unknown_not_listed(image, id, c);
    assert(members_at(image, c) is Ok);
    let ids = members_at(image, c)->Ok_0;
    assert(ids.len() < u32::MAX);
    assert(drift_at(image, c) is Ok);
}

/// In a consistent store with room, a node that is not known can be inserted next to any
/// neighbors.
pub proof fn law_insert_succeeds(
    image: Image,
    keys: Seq<Seq<u8>>,
    id: u128,
    neighbors: Seq<u128>,
)
    requires
        consistent(image),
        has_room(image),
        next_cluster(keys) is Ok,
        stored(image, Table::UuidToCluster, node_key(id)) is None,
    ensures
        insertion(image, keys, id, neighbors) is Ok,
{
    lemma_poll_succeeds(image, keys, id, neighbors, 0, Seq::empty());
}

proof fn lemma_poll_succeeds(
    image: Image,
    keys: Seq<Seq<u8>>,
    id: u128,
    neighbors: Seq<u128>,
    i: nat,
    votes: Seq<u32>,
)
    requires
        consistent(image),
        has_room(image),
        next_cluster(keys) is Ok,
        stored(image, Table::UuidToCluster, node_key(id)) is None,
    ensures
        poll(image, keys, id, neighbors, i, votes) is Ok,
    decreases neighbors.len() - i,
{
    if i < neighbors.len() {
        assert(node_is_sound(image, neighbors[i as int]));
        match cluster_at(image, neighbors[i as int]) {
            Ok(Some(c)) => {
                lemma_poll_succeeds(image, keys, id, neighbors, i + 1, votes.push(c));
            },
            Ok(None) => {
                lemma_poll_succeeds(image, keys, id, neighbors, i + 1, votes);
            },
            Err(e) => {},
        }
    } else if votes.len() == 0 {
        lemma_join_succeeds(image, id, next_cluster(keys)->Ok_0);
    } else {
        lemma_join_succeeds(image, id, winner(votes));
    }
}

} // verus!
