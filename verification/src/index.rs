//! The stored index: what it holds and how single values are read.
//!
//! An index is a store of ten tables, each a map from bytes to bytes.
//!
//! | Table | Key | Value |
//! |-------|-----|-------|
//! | `uuid_to_cluster` | node | cluster |
//! | `uuid_to_region` | node | region |
//! | `uuid_is_hub` | node | 1 for a hub, else 0 |
//! | `hub_neighbors` | hub | the hubs that it is linked to, with weights |
//! | `cluster_members` | cluster | its nodes, ascending |
//! | `cluster_meta` | cluster | its size and its number of hubs |
//! | `cluster_drift` | cluster | its generation and the inserts since |
//! | `cluster_neighbors` | cluster | the clusters that it has edges to, with weights |
//! | `uuid_to_label` | node | its label |
//! | `label_to_uuid` | label | the node that has it |
//!
//! The functions of this library never touch the store. They say what to read and what
//! to write, and are handed what was read.
use crate::bytes::{be_bytes, le_bytes, le_value, lemma_pow256, read_le};
use crate::codec::{
    corrupt, decode_cluster_drift, decode_cluster_meta, decode_hub_neighbors, decode_u32,
    decode_uuid_vec, link_values, stored_drift, stored_links, stored_meta, stored_u32, stored_uuids,
    values, Failure, SwIndexError,
};
use crate::distinct::{lemma_orderly, orderly};
use crate::id::Uuid7;
use crate::maintenance::{ClusterDrift, DriftReport, MaintenancePolicy, MaintenanceReport};
use crate::text::{decimal, push_decimal, text};
use std::collections::BTreeMap;
use vstd::prelude::*;
use vstd::string::StringExecFns;

verus! {

/// A table of the store.
#[derive(Debug, Clone, Copy, PartialEq, Eq, Structural)]
pub enum Table {
    UuidToCluster,
    UuidToRegion,
    UuidIsHub,
    HubNeighbors,
    ClusterMembers,
    ClusterMeta,
    ClusterDrift,
    UuidToLabel,
    LabelToUuid,
    ClusterNeighbors,
}

impl Table {
    /// The name of the table.
    pub open spec fn named(self) -> Seq<char> {
        match self {
            Table::UuidToCluster => "uuid_to_cluster"@,
            Table::UuidToRegion => "uuid_to_region"@,
            Table::UuidIsHub => "uuid_is_hub"@,
            Table::HubNeighbors => "hub_neighbors"@,
            Table::ClusterMembers => "cluster_members"@,
            Table::ClusterMeta => "cluster_meta"@,
            Table::ClusterDrift => "cluster_drift"@,
            Table::UuidToLabel => "uuid_to_label"@,
            Table::LabelToUuid => "label_to_uuid"@,
            Table::ClusterNeighbors => "cluster_neighbors"@,
        }
    }

    /// The name of the table.
    pub fn name(&self) -> (name: &'static str)
        ensures
            name@ == self.named(),
    {
        match self {
            Table::UuidToCluster => "uuid_to_cluster",
            Table::UuidToRegion => "uuid_to_region",
            Table::UuidIsHub => "uuid_is_hub",
            Table::HubNeighbors => "hub_neighbors",
            Table::ClusterMembers => "cluster_members",
            Table::ClusterMeta => "cluster_meta",
            Table::ClusterDrift => "cluster_drift",
            Table::UuidToLabel => "uuid_to_label",
            Table::LabelToUuid => "label_to_uuid",
            Table::ClusterNeighbors => "cluster_neighbors",
        }
    }
}

/// The contents of a store.
pub type Image = Map<(Table, Seq<u8>), Seq<u8>>;

/// The value under a key, if there is one.
pub open spec fn stored(image: Image, table: Table, key: Seq<u8>) -> Option<Seq<u8>> {
    if image.contains_key((table, key)) {
        Some(image[(table, key)])
    } else {
        None
    }
}

/// What was read, as a value.
pub open spec fn raw_value(raw: Option<&[u8]>) -> Option<Seq<u8>> {
    match raw {
        Some(bytes) => Some(bytes@),
        None => None,
    }
}

/// A value to write.
pub struct Write {
    /// The table.
    pub table: Table,
    /// The key.
    pub key: Vec<u8>,
    /// The value.
    pub value: Vec<u8>,
}

/// A value to write, as a value.
pub type Entry = (Table, Seq<u8>, Seq<u8>);

impl View for Write {
    type V = Entry;

    open spec fn view(&self) -> Entry {
        (self.table, self.key@, self.value@)
    }
}

/// The values to write, as values.
pub open spec fn entries(writes: Seq<Write>) -> Seq<Entry> {
    writes.map_values(|w: Write| w@)
}

/// A store after some writes, in order.
pub open spec fn applied(image: Image, writes: Seq<Entry>) -> Image
    decreases writes.len(),
{
    if writes.len() == 0 {
        image
    } else {
        let (table, key, value) = writes.last();
        applied(image, writes.drop_last()).insert((table, key), value)
    }
}

/// The key of a node.
pub open spec fn node_key(id: u128) -> Seq<u8> {
    be_bytes(id as nat, 16)
}

/// The key of a cluster.
pub open spec fn cluster_key(c: u32) -> Seq<u8> {
    le_bytes(c as nat, 4)
}

/// What a build found.
#[derive(Debug, Clone, Copy, PartialEq, Eq, Structural)]
pub struct BuildStats {
    /// The number of nodes.
    pub nodes: usize,
    /// The number of clusters.
    pub clusters: usize,
    /// The number of regions.
    pub regions: usize,
    /// The number of hubs.
    pub hubs: usize,
}

/// What to look for.
#[derive(Debug, Clone, Copy, PartialEq, Eq, Structural)]
pub enum QueryKind {
    /// Every node of the cluster of `start`, `start` among them.
    SameCluster { start: Uuid7 },
    /// At most `limit` nodes near `start`: those of its cluster first, then those of
    /// clusters that the hub graph links to it.
    Similar { start: Uuid7, limit: usize },
}

/// What a query had to do.
#[derive(Debug, Clone, Copy, PartialEq, Eq, Structural)]
pub struct QueryStats {
    /// The number of distinct clusters whose members were inspected.
    pub clusters_visited: usize,
    /// The number of links of the hub graph that were followed.
    pub hubs_visited: usize,
}

impl Default for QueryStats {
    fn default() -> (stats: Self)
        ensures
            stats == (QueryStats { clusters_visited: 0, hubs_visited: 0 }),
    {
        QueryStats { clusters_visited: 0, hubs_visited: 0 }
    }
}

/// What a query found.
#[derive(Debug, Clone)]
pub struct QueryResult {
    /// The nodes, in order of priority.
    pub uuids: Vec<Uuid7>,
    /// What the query had to do.
    pub stats: QueryStats,
}

/// The sizes of the tables.
#[derive(Debug, Clone, Copy, PartialEq, Eq, Structural)]
pub struct SwStats {
    /// The number of nodes.
    pub nodes: usize,
    /// The number of clusters.
    pub clusters: usize,
    /// The number of hubs.
    pub hubs: usize,
}

impl Default for SwStats {
    fn default() -> (stats: Self)
        ensures
            stats == (SwStats { nodes: 0, clusters: 0, hubs: 0 }),
    {
        SwStats { nodes: 0, clusters: 0, hubs: 0 }
    }
}

/// The number in a value that was read, if it was there.
pub open spec fn number_in(raw: Option<Seq<u8>>, context: Seq<char>) -> Result<
    Option<u32>,
    Failure,
> {
    match raw {
        None => Ok(None),
        Some(bytes) => match stored_u32(bytes, context) {
            Ok(x) => Ok(Some(x)),
            Err(e) => Err(e),
        },
    }
}

/// Whether a value that was read marks a hub.
pub open spec fn flag_in(raw: Option<Seq<u8>>) -> bool {
    match raw {
        None => false,
        Some(bytes) => bytes.len() > 0 && bytes[0] == 1,
    }
}

/// The nodes in a value that was read, if it was there.
pub open spec fn members_in(raw: Option<Seq<u8>>) -> Result<Option<Seq<u128>>, Failure> {
    match raw {
        None => Ok(None),
        Some(bytes) => match stored_uuids(bytes, "cluster_members"@) {
            Ok(ids) => Ok(Some(ids)),
            Err(e) => Err(e),
        },
    }
}

/// The links in a value that was read; none if it was not there.
pub open spec fn links_in(raw: Option<Seq<u8>>) -> Result<Seq<(u128, u32)>, Failure> {
    match raw {
        None => Ok(Seq::empty()),
        Some(bytes) => stored_links(bytes, "hub_neighbors"@),
    }
}

/// The size and the number of hubs in a value that was read, if it was there.
pub open spec fn meta_in(raw: Option<Seq<u8>>) -> Result<Option<(u32, u32)>, Failure> {
    match raw {
        None => Ok(None),
        Some(bytes) => match stored_meta(bytes) {
            Ok(meta) => Ok(Some(meta)),
            Err(e) => Err(e),
        },
    }
}

/// The drift in a value that was read; none if it was not there.
pub open spec fn drift_in(raw: Option<Seq<u8>>) -> Result<(u64, u32), Failure> {
    match raw {
        None => Ok((0, 0)),
        Some(bytes) => stored_drift(bytes),
    }
}

/// The cluster of a node, given what the store holds for it.
pub fn cluster_of(raw: Option<&[u8]>) -> (r: Result<Option<u32>, SwIndexError>)
    ensures
        match (r, number_in(raw_value(raw), "cluster_of"@)) {
            (Ok(a), Ok(b)) => a == b,
            (Err(e), Err(f)) => e@ == f,
            _ => false,
        },
{
    match raw {
        None => Ok(None),
        Some(bytes) => match decode_u32(bytes, "cluster_of") {
            Ok(x) => Ok(Some(x)),
            Err(e) => Err(e),
        },
    }
}

/// The region of a node, given what the store holds for it.
pub fn region_of(raw: Option<&[u8]>) -> (r: Result<Option<u32>, SwIndexError>)
    ensures
        match (r, number_in(raw_value(raw), "region_of"@)) {
            (Ok(a), Ok(b)) => a == b,
            (Err(e), Err(f)) => e@ == f,
            _ => false,
        },
{
    match raw {
        None => Ok(None),
        Some(bytes) => match decode_u32(bytes, "region_of") {
            Ok(x) => Ok(Some(x)),
            Err(e) => Err(e),
        },
    }
}

/// Whether a node is a hub, given what the store holds for it.
pub fn is_hub(raw: Option<&[u8]>) -> (r: bool)
    ensures
        r == flag_in(raw_value(raw)),
{
    match raw {
        None => false,
        Some(bytes) => bytes.len() > 0 && bytes[0] == 1,
    }
}

/// The nodes of a cluster, given what the store holds for it.
pub fn cluster_members(raw: Option<&[u8]>) -> (r: Result<Option<Vec<Uuid7>>, SwIndexError>)
    ensures
        match (r, members_in(raw_value(raw))) {
            (Ok(Some(ids)), Ok(Some(s))) => values(ids@) == s,
            (Ok(None), Ok(None)) => true,
            (Err(e), Err(f)) => e@ == f,
            _ => false,
        },
{
    match raw {
        None => Ok(None),
        Some(bytes) => match decode_uuid_vec(bytes, "cluster_members") {
            Ok(ids) => Ok(Some(ids)),
            Err(e) => Err(e),
        },
    }
}

/// The hubs that a hub is linked to, given what the store holds for it. A weight is the
/// bit pattern of a single-precision number.
pub fn hub_neighbors(raw: Option<&[u8]>) -> (r: Result<Vec<(Uuid7, u32)>, SwIndexError>)
    ensures
        match (r, links_in(raw_value(raw))) {
            (Ok(links), Ok(s)) => link_values(links@) == s && links@.len() < usize::MAX,
            (Err(e), Err(f)) => e@ == f,
            _ => false,
        },
{
    match raw {
        None => {
            let none: Vec<(Uuid7, u32)> = Vec::new();
            assert(link_values(none@) =~= Seq::empty());
            Ok(none)
        },
        Some(bytes) => decode_hub_neighbors(bytes, "hub_neighbors"),
    }
}

/// The size and the number of hubs of a cluster, given what the store holds for it.
pub fn cluster_meta(raw: Option<&[u8]>) -> (r: Result<Option<(u32, u32)>, SwIndexError>)
    ensures
        match (r, meta_in(raw_value(raw))) {
            (Ok(a), Ok(b)) => a == b,
            (Err(e), Err(f)) => e@ == f,
            _ => false,
        },
{
    match raw {
        None => Ok(None),
        Some(bytes) => match decode_cluster_meta(bytes) {
            Ok(meta) => Ok(Some(meta)),
            Err(e) => Err(e),
        },
    }
}

/// The generation of a cluster and the inserts since, given what the store holds for it.
pub fn cluster_drift(raw: Option<&[u8]>) -> (r: Result<(u64, u32), SwIndexError>)
    ensures
        match (r, drift_in(raw_value(raw))) {
            (Ok(a), Ok(b)) => a == b,
            (Err(e), Err(f)) => e@ == f,
            _ => false,
        },
{
    match raw {
        None => Ok((0, 0)),
        Some(bytes) => decode_cluster_drift(bytes),
    }
}

/// The cluster that a key of the table `table` names.
pub open spec fn keyed_cluster(key: Seq<u8>, table: Seq<char>) -> Result<u32, Failure> {
    if key.len() != 4 {
        Err(Failure::Corruption(table + " key expected 4 bytes, got "@ + decimal(key.len())))
    } else {
        Ok(le_value(key) as u32)
    }
}

/// The cluster that a key of the table `table` names.
fn read_cluster_key(key: &[u8], table: &str) -> (r: Result<u32, SwIndexError>)
    ensures
        match (r, keyed_cluster(key@, table@)) {
            (Ok(a), Ok(b)) => a == b,
            (Err(e), Err(f)) => e@ == f,
            _ => false,
        },
{
    if key.len() != 4 {
        let mut message = text(table);
        message.append(" key expected 4 bytes, got ");
        push_decimal(&mut message, key.len() as u64);
        return Err(SwIndexError::Corruption(message));
    }
    proof {
        lemma_pow256();
        assert(key@.subrange(0, 4) =~= key@);
    }
    Ok(read_le(key, 0, 4) as u32)
}

/// The bytes of some keys and values.
pub open spec fn row_bytes(rows: Seq<(Vec<u8>, Vec<u8>)>) -> Seq<(Seq<u8>, Seq<u8>)> {
    rows.map_values(|r: (Vec<u8>, Vec<u8>)| (r.0@, r.1@))
}

/// The drift that the first `k` rows of the drift table record.
pub open spec fn recorded_drift(rows: Seq<(Seq<u8>, Seq<u8>)>, k: nat) -> Result<
    Map<u32, ClusterDrift>,
    Failure,
>
    decreases k,
{
    if k == 0 {
        Ok(Map::empty())
    } else {
        match recorded_drift(rows, (k - 1) as nat) {
            Err(e) => Err(e),
            Ok(m) => match keyed_cluster(rows[k - 1].0, "cluster_drift"@) {
                Err(e) => Err(e),
                Ok(c) => match stored_drift(rows[k - 1].1) {
                    Err(e) => Err(e),
                    Ok((generation, delta_inserts)) => Ok(
                        m.insert(c, ClusterDrift { generation, delta_inserts }),
                    ),
                },
            },
        }
    }
}

proof fn lemma_recorded_drift_stops(rows: Seq<(Seq<u8>, Seq<u8>)>, k: nat, n: nat)
    requires
        k <= n,
        recorded_drift(rows, k) is Err,
    ensures
        recorded_drift(rows, n) == recorded_drift(rows, k),
    decreases n,
{
    if k < n {
        lemma_recorded_drift_stops(rows, k, (n - 1) as nat);
    }
}

/// The drift of every cluster, given the rows of the drift table.
pub fn drift_report(rows: &[(Vec<u8>, Vec<u8>)]) -> (r: Result<DriftReport, SwIndexError>)
    ensures
        match (r, recorded_drift(row_bytes(rows@), rows@.len())) {
            (Ok(report), Ok(m)) => report.per_cluster@ == m,
            (Err(e), Err(f)) => e@ == f,
            _ => false,
        },
{
    broadcast use vstd::std_specs::btree::group_btree_axioms;

    proof {
        lemma_orderly();
    }
    let ghost given = row_bytes(rows@);
    let ghost goal = recorded_drift(given, given.len());
    let mut per_cluster: BTreeMap<u32, ClusterDrift> = BTreeMap::new();
    let mut k: usize = 0;
    while k < rows.len()
        invariant
            k <= rows@.len(),
            orderly::<u32>(),
            given == row_bytes(rows@),
            goal == recorded_drift(given, given.len()),
            goal == recorded_drift(row_bytes(rows@), rows@.len()),
            recorded_drift(given, k as nat) == Ok::<Map<u32, ClusterDrift>, Failure>(per_cluster@),
        decreases rows@.len() - k,
    {
        assert(given[k as int] == (rows@[k as int].0@, rows@[k as int].1@));
        let c: u32 = match read_cluster_key(rows[k].0.as_slice(), "cluster_drift") {
            Ok(c) => c,
            Err(e) => {
                proof {
                    lemma_recorded_drift_stops(given, (k + 1) as nat, given.len());
                }
                return Err(e);
            },
        };
        match decode_cluster_drift(rows[k].1.as_slice()) {
            Ok((generation, delta_inserts)) => {
                per_cluster.insert(c, ClusterDrift { generation, delta_inserts });
            },
            Err(e) => {
                proof {
                    lemma_recorded_drift_stops(given, (k + 1) as nat, given.len());
                }
                return Err(e);
            },
        }
        k += 1;
    }
    Ok(DriftReport { per_cluster })
}

/// Asks a policy what to do about some drift. What it returns is all that is done.
pub fn maintain<P: MaintenancePolicy>(policy: &P, drift: &DriftReport) -> (report:
    MaintenanceReport)
    ensures
        call_ensures(P::decide, (policy, drift), report.actions_taken),
{
    MaintenanceReport { actions_taken: policy.decide(drift) }
}

/// The bytes of some keys.
pub open spec fn key_bytes(keys: Seq<Vec<u8>>) -> Seq<Seq<u8>> {
    keys.map_values(|k: Vec<u8>| k@)
}

/// The largest cluster among the first `k` keys of the table of cluster sizes.
pub open spec fn largest_cluster(keys: Seq<Seq<u8>>, k: nat) -> Result<Option<u32>, Failure>
    decreases k,
{
    if k == 0 {
        Ok(None)
    } else {
        match largest_cluster(keys, (k - 1) as nat) {
            Err(e) => Err(e),
            Ok(max) => match keyed_cluster(keys[k - 1], "cluster_meta"@) {
                Err(e) => Err(e),
                Ok(c) => match max {
                    Some(m) => if m >= c {
                        Ok(Some(m))
                    } else {
                        Ok(Some(c))
                    },
                    None => Ok(Some(c)),
                },
            },
        }
    }
}

/// The first cluster number above all in use, given the keys of the table of cluster
/// sizes.
pub open spec fn next_cluster(keys: Seq<Seq<u8>>) -> Result<u32, Failure> {
    match largest_cluster(keys, keys.len()) {
        Err(e) => Err(e),
        Ok(None) => Ok(0),
        Ok(Some(m)) => if m == u32::MAX {
            Err(Failure::Corruption("cluster id space exhausted"@))
        } else {
            Ok((m + 1) as u32)
        },
    }
}

proof fn lemma_largest_cluster_stops(keys: Seq<Seq<u8>>, k: nat, n: nat)
    requires
        k <= n,
        largest_cluster(keys, k) is Err,
    ensures
        largest_cluster(keys, n) == largest_cluster(keys, k),
    decreases n,
{
    if k < n {
        lemma_largest_cluster_stops(keys, k, (n - 1) as nat);
    }
}

/// The first cluster number above all in use, given the keys of the table of cluster
/// sizes.
pub fn allocate_next_cluster_id(keys: &[Vec<u8>]) -> (r: Result<u32, SwIndexError>)
    ensures
        match (r, next_cluster(key_bytes(keys@))) {
            (Ok(a), Ok(b)) => a == b,
            (Err(e), Err(f)) => e@ == f,
            _ => false,
        },
{
    let ghost given = key_bytes(keys@);
    let ghost goal = next_cluster(given);
    let mut max: Option<u32> = None;
    let mut k: usize = 0;
    while k < keys.len()
        invariant
            k <= keys@.len(),
            given == key_bytes(keys@),
            goal == next_cluster(given),
            largest_cluster(given, k as nat) == Ok::<Option<u32>, Failure>(max),
        decreases keys@.len() - k,
    {
        assert(given[k as int] == keys@[k as int]@);
        match read_cluster_key(keys[k].as_slice(), "cluster_meta") {
            Ok(c) => {
                max = match max {
                    Some(m) => if m >= c {
                        Some(m)
                    } else {
                        Some(c)
                    },
                    None => Some(c),
                };
            },
            Err(e) => {
                proof {
                    lemma_largest_cluster_stops(given, (k + 1) as nat, given.len());
                }
                return Err(e);
            },
        }
        k += 1;
    }
    match max {
        None => Ok(0),
        Some(m) => if m == u32::MAX {
            Err(corrupt("cluster id space exhausted"))
        } else {
            Ok(m + 1)
        },
    }
}

/// The number that is handed out is not in use.
pub proof fn law_next_cluster_is_new(keys: Seq<Seq<u8>>, i: int)
    requires
        0 <= i < keys.len(),
        next_cluster(keys) is Ok,
    ensures
        keyed_cluster(keys[i], "cluster_meta"@) is Ok,
        keyed_cluster(keys[i], "cluster_meta"@)->Ok_0 < next_cluster(keys)->Ok_0,
{
    lemma_largest_cluster(keys, i, keys.len());
}

proof fn lemma_largest_cluster(keys: Seq<Seq<u8>>, i: int, k: nat)
    requires
        0 <= i < k <= keys.len(),
        largest_cluster(keys, k) is Ok,
    ensures
        keyed_cluster(keys[i], "cluster_meta"@) is Ok,
        largest_cluster(keys, k)->Ok_0 is Some,
        keyed_cluster(keys[i], "cluster_meta"@)->Ok_0 <= largest_cluster(keys, k)->Ok_0->0,
    decreases k,
{
    if i < k - 1 {
        lemma_largest_cluster(keys, i, (k - 1) as nat);
    }
}

/// The number that is handed out is 0 if none is in use, and otherwise one more than a
/// number in use.
pub proof fn law_next_cluster_is_next(keys: Seq<Seq<u8>>)
    requires
        next_cluster(keys) is Ok,
    ensures
        keys.len() == 0 <==> next_cluster(keys)->Ok_0 == 0,
        keys.len() > 0 ==> exists|i: int|
            0 <= i < keys.len() && (#[trigger] keyed_cluster(keys[i], "cluster_meta"@)) is Ok
                && keyed_cluster(keys[i], "cluster_meta"@)->Ok_0 + 1 == next_cluster(keys)->Ok_0,
{
    if keys.len() > 0 {
        lemma_largest_is_one(keys, keys.len());
    }
}

proof fn lemma_largest_is_one(keys: Seq<Seq<u8>>, k: nat)
    requires
        0 < k <= keys.len(),
        largest_cluster(keys, k) is Ok,
    ensures
        largest_cluster(keys, k)->Ok_0 is Some,
        exists|i: int|
            0 <= i < k && (#[trigger] keyed_cluster(keys[i], "cluster_meta"@)) == Ok::<
                u32,
                Failure,
            >(largest_cluster(keys, k)->Ok_0->0),
    decreases k,
{
    assert(keyed_cluster(keys[k - 1], "cluster_meta"@) is Ok);
    if k > 1 {
        lemma_largest_is_one(keys, (k - 1) as nat);
    }
}

} // verus!
