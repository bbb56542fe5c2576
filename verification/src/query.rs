//! Queries over a stored index.
//!
//! A [`Query`] says which value of the store it wants next, takes what the store
//! holds, and goes on until it has its result. What it finds is a function of the
//! store's contents.

use crate::bytes::{lemma_le_value_bound, lemma_pow256};
use crate::codec::{
    encode_u32, link_entries, link_values, list_body, uuid_key, values, Failure, SwIndexError,
};
use crate::distinct::{distinct, lemma_distinct, lemma_orderly, Interner};
use crate::id::Uuid7;
use crate::index::{
    cluster_key, cluster_members, cluster_of, flag_in, hub_neighbors, is_hub, links_in, members_in,
    node_key, number_in, raw_value, stored, Image, QueryKind, QueryResult, QueryStats, Table,
};
use crate::sort::{precedes, sort_items};
use vstd::prelude::*;
use vstd::relations::{sorted_by, total_ordering};

verus! {

/// What a query found, as a value.
pub struct Finding {
    /// The nodes, in order of priority.
    pub uuids: Seq<u128>,
    /// The number of distinct clusters whose members were inspected.
    pub clusters: nat,
    /// The number of links that were followed.
    pub hubs: nat,
}

impl View for QueryResult {
    type V = Finding;

    open spec fn view(&self) -> Finding {
        Finding {
            uuids: values(self.uuids@),
            clusters: self.stats.clusters_visited as nat,
            hubs: self.stats.hubs_visited as nat,
        }
    }
}

/// A result, as a value.
pub open spec fn settled(r: Result<QueryResult, SwIndexError>) -> Result<Finding, Failure> {
    match r {
        Ok(found) => Ok(found@),
        Err(e) => Err(e@),
    }
}

/// The finding of nothing.
pub open spec fn nothing() -> Finding {
    Finding { uuids: Seq::empty(), clusters: 0, hubs: 0 }
}

/// The cluster of a node.
pub open spec fn cluster_at(image: Image, id: u128) -> Result<Option<u32>, Failure> {
    number_in(stored(image, Table::UuidToCluster, node_key(id)), "cluster_of"@)
}

/// Whether a node is a hub.
pub open spec fn hub_at(image: Image, id: u128) -> bool {
    flag_in(stored(image, Table::UuidIsHub, node_key(id)))
}

/// The nodes of a cluster; none if it is not known.
pub open spec fn members_at(image: Image, c: u32) -> Result<Seq<u128>, Failure> {
    known_members(stored(image, Table::ClusterMembers, cluster_key(c)))
}

/// The nodes in a value that was read; none if it was not there.
pub open spec fn known_members(raw: Option<Seq<u8>>) -> Result<Seq<u128>, Failure> {
    match members_in(raw) {
        Err(e) => Err(e),
        Ok(None) => Ok(Seq::empty()),
        Ok(Some(ids)) => Ok(ids),
    }
}

/// The links of a hub.
pub open spec fn links_at(image: Image, id: u128) -> Result<Seq<(u128, u32)>, Failure> {
    links_in(stored(image, Table::HubNeighbors, node_key(id)))
}

/// The nodes of the cluster of `start`.
pub open spec fn same_cluster(image: Image, start: u128) -> Result<Finding, Failure> {
    match cluster_at(image, start) {
        Err(e) => Err(e),
        Ok(None) => Ok(nothing()),
        Ok(Some(c)) => same_members(image, c),
    }
}

/// The nodes of cluster `c`.
pub open spec fn same_members(image: Image, c: u32) -> Result<Finding, Failure> {
    match members_at(image, c) {
        Err(e) => Err(e),
        Ok(ids) => Ok(Finding { uuids: ids, clusters: 1, hubs: 0 }),
    }
}

/// `out` with those of the first `k` nodes of `ids` that are not `start` and not in it
/// yet, up to `limit` in all.
pub open spec fn gathered(
    out: Seq<u128>,
    start: u128,
    limit: nat,
    ids: Seq<u128>,
    k: nat,
) -> Seq<u128>
    decreases k,
{
    if k == 0 {
        out
    } else {
        let so_far = gathered(out, start, limit, ids, (k - 1) as nat);
        if so_far.len() < limit && ids[k - 1] != start && !so_far.contains(ids[k - 1]) {
            so_far.push(ids[k - 1])
        } else {
            so_far
        }
    }
}

/// A number that orders weights from the strongest to the weakest. A weight is the bit
/// pattern of a single-precision number; the two zeros are equally strong.
pub open spec fn lightness(weight: u32) -> u128 {
    if weight < 0x8000_0000 {
        (0x1_8000_0000 - weight) as u128
    } else {
        (0x1_0000_0000 + weight) as u128
    }
}

/// The links by their weight and place.
pub open spec fn weighted_places(links: Seq<(u128, u32)>) -> Seq<(u128, usize)> {
    Seq::new(links.len(), |i: int| (lightness(links[i].1), i as usize))
}

/// The order of keyed places.
pub open spec fn place_order() -> spec_fn((u128, usize), (u128, usize)) -> bool {
    |a: (u128, usize), b: (u128, usize)| precedes(a, b)
}

/// The hubs of the links, the strongest link first; of equally strong ones the first
/// one first.
pub open spec fn by_weight(links: Seq<(u128, u32)>) -> Seq<u128> {
    weighted_places(links).sort_by(place_order()).map_values(
        |x: (u128, usize)| links[x.1 as int].0,
    )
}

/// What is sought near `start`, and what has been found so far.
pub struct Search {
    pub start: u128,
    pub limit: nat,
    /// The cluster of `start`.
    pub cluster: u32,
    /// The clusters whose members were inspected.
    pub seen: Set<u32>,
    pub out: Seq<u128>,
}

/// At most `limit` nodes near `start`.
pub open spec fn similar(image: Image, start: u128, limit: nat) -> Result<Finding, Failure> {
    if limit == 0 {
        Ok(nothing())
    } else {
        match cluster_at(image, start) {
            Err(e) => Err(e),
            Ok(None) => Ok(nothing()),
            Ok(Some(c)) => similar_local(image, start, limit, c),
        }
    }
}

/// The nodes of the cluster of `start` come first.
pub open spec fn similar_local(image: Image, start: u128, limit: nat, c: u32) -> Result<
    Finding,
    Failure,
> {
    match members_at(image, c) {
        Err(e) => Err(e),
        Ok(ids) => {
            let out = gathered(Seq::empty(), start, limit, ids, ids.len());
            let s = Search { start, limit, cluster: c, seen: set![c], out };
            if out.len() >= limit {
                Ok(Finding { uuids: out, clusters: s.seen.len(), hubs: 0 })
            } else {
                similar_entry(image, s, ids)
            }
        },
    }
}

/// The hub graph is entered at `start`, if it is a hub, or at the first hub of its
/// cluster.
pub open spec fn similar_entry(image: Image, s: Search, ids: Seq<u128>) -> Result<
    Finding,
    Failure,
> {
    if hub_at(image, s.start) {
        similar_links(image, s, s.start)
    } else {
        similar_scan(image, s, ids, 0)
    }
}

/// The search for the first hub of the cluster, from the place `i` on.
pub open spec fn similar_scan(image: Image, s: Search, ids: Seq<u128>, i: nat) -> Result<
    Finding,
    Failure,
>
    decreases ids.len() - i,
{
    if i >= ids.len() {
        Ok(Finding { uuids: s.out, clusters: s.seen.len(), hubs: 0 })
    } else if hub_at(image, ids[i as int]) {
        similar_links(image, s, ids[i as int])
    } else {
        similar_scan(image, s, ids, i + 1)
    }
}

/// The links of the hub `entry` are followed, the strongest first.
pub open spec fn similar_links(image: Image, s: Search, entry: u128) -> Result<Finding, Failure> {
    match links_at(image, entry) {
        Err(e) => Err(e),
        Ok(links) => walk(image, s, by_weight(links), 0),
    }
}

/// The walk along the linked hubs, from the place `i` on. A hub of a cluster other than
/// that of `start` brings in the nodes of its cluster.
pub open spec fn walk(image: Image, s: Search, hubs: Seq<u128>, i: nat) -> Result<Finding, Failure>
    decreases hubs.len() - i, 1nat,
{
    if i >= hubs.len() {
        Ok(Finding { uuids: s.out, clusters: s.seen.len(), hubs: i })
    } else {
        match cluster_at(image, hubs[i as int]) {
            Err(e) => Err(e),
            Ok(None) => walk(image, s, hubs, i + 1),
            Ok(Some(c)) => if c == s.cluster {
                walk(image, s, hubs, i + 1)
            } else {
                walk_into(image, s, hubs, i, c)
            },
        }
    }
}

/// The walk brings in the nodes of cluster `c`, and goes on if there is room.
pub open spec fn walk_into(image: Image, s: Search, hubs: Seq<u128>, i: nat, c: u32) -> Result<
    Finding,
    Failure,
>
    decreases hubs.len() - i, 0nat,
    when i < hubs.len()
{
    match members_at(image, c) {
        Err(e) => Err(e),
        Ok(ids) => {
            let out = gathered(s.out, s.start, s.limit, ids, ids.len());
            let further = Search { seen: s.seen.insert(c), out, ..s };
            if out.len() >= s.limit {
                Ok(Finding { uuids: out, clusters: further.seen.len(), hubs: i + 1 })
            } else {
                walk(image, further, hubs, i + 1)
            }
        },
    }
}

/// The store holds `raw` under the wanted key.
pub open spec fn holds(
    image: Image,
    wanted: Option<(Table, Seq<u8>)>,
    raw: Option<Seq<u8>>,
) -> bool {
    match wanted {
        Some((table, key)) => stored(image, table, key) == raw,
        None => false,
    }
}

/// What a query finds.
pub open spec fn findings(image: Image, kind: QueryKind) -> Result<Finding, Failure> {
    match kind {
        QueryKind::SameCluster { start } => same_cluster(image, start@),
        QueryKind::Similar { start, limit } => similar(image, start@, limit as nat),
    }
}

proof fn lemma_place_order()
    ensures
        total_ordering(place_order()),
{
    let le = place_order();
    assert forall|a: (u128, usize), b: (u128, usize)| #[trigger] le(a, b) && #[trigger] le(
        b,
        a,
    ) implies a == b by {
        assert(a.0 == b.0 && a.1 == b.1);
    }
}

/// The hubs of some links, the strongest link first.
fn strongest_first(links: &Vec<(Uuid7, u32)>) -> (hubs: Vec<Uuid7>)
    ensures
        values(hubs@) == by_weight(link_values(links@)),
        hubs@.len() == links@.len(),
{
    let ghost all = link_values(links@);
    let ghost keyed = weighted_places(all);
    let mut items: Vec<(u128, usize)> = Vec::new();
    let mut i: usize = 0;
    while i < links.len()
        invariant
            i <= links@.len(),
            all == link_values(links@),
            keyed == weighted_places(all),
            items@ == keyed.take(i as int),
        decreases links@.len() - i,
    {
        let w: u32 = links[i].1;
        let key: u128 = if w < 0x8000_0000 {
            (0x1_8000_0000 - w as u64) as u128
        } else {
            (0x1_0000_0000 + w as u64) as u128
        };
        items.push((key, i));
        proof {
            assert(all[i as int] == (links@[i as int].0@, w));
            assert(keyed[i as int] == (key, i));
            assert(keyed.take(i + 1) =~= keyed.take(i as int).push(keyed[i as int]));
        }
        i += 1;
    }
    assert(keyed.take(i as int) =~= keyed);
    let sorted = sort_items(items);
    let ghost order = keyed.sort_by(place_order());
    proof {
        lemma_place_order();
        keyed.lemma_sort_by_ensures(place_order());
        assert(sorted_by(sorted@, place_order()));
        vstd::seq_lib::lemma_sorted_unique(sorted@, order, place_order());
        crate::sort::lemma_sorted_items(keyed, order);
        assert(links@.len() == links.len());
        assert forall|j: int| 0 <= j < order.len() implies (#[trigger] order[j]).1
            < links@.len() by {
            assert(order.contains(order[j]));
            assert(keyed.contains(order[j]));
            let h = choose|h: int| 0 <= h < keyed.len() && keyed[h] == order[j];
            assert(keyed[h].1 == h);
        }
    }
    let mut hubs: Vec<Uuid7> = Vec::new();
    let mut k: usize = 0;
    while k < sorted.len()
        invariant
            k <= sorted@.len(),
            sorted@ == order,
            order.len() == links@.len(),
            all == link_values(links@),
            forall|j: int| 0 <= j < order.len() ==> (#[trigger] order[j]).1 < links@.len(),
            hubs@.len() == k,
            forall|j: int| 0 <= j < k ==> (#[trigger] hubs@[j])@ == all[order[j].1 as int].0,
        decreases sorted@.len() - k,
    {
        assert(order[k as int].1 < links@.len());
        hubs.push(links[sorted[k].1].0);
        k += 1;
    }
    assert(values(hubs@) =~= by_weight(all));
    hubs
}

/// What is sought near a node, and what has been found so far.
struct Progress {
    start: Uuid7,
    limit: usize,
    cluster: u32,
    uuids: Vec<Uuid7>,
    seen: Interner<u128>,
    inspected: Interner<u32>,
}

impl Progress {
    spec fn wf(&self) -> bool {
        &&& self.seen.wf()
        &&& self.seen@ == seq![self.start@] + values(self.uuids@)
        &&& self.inspected.wf()
    }

    spec fn model(&self) -> Search {
        Search {
            start: self.start@,
            limit: self.limit as nat,
            cluster: self.cluster,
            seen: self.inspected@.to_set(),
            out: values(self.uuids@),
        }
    }

    fn new(start: Uuid7, limit: usize, cluster: u32) -> (p: Self)
        ensures
            p.wf(),
            p.model() == (Search {
                start: start@,
                limit: limit as nat,
                cluster,
                seen: set![cluster],
                out: Seq::empty(),
            }),
    {
        proof {
            lemma_orderly();
        }
        let uuids: Vec<Uuid7> = Vec::new();
        let mut seen: Interner<u128> = Interner::new();
        let at: usize = seen.intern(start.as_uuid());
        let mut inspected: Interner<u32> = Interner::new();
        let first: usize = inspected.intern(cluster);
        proof {
            assert(values(uuids@) =~= Seq::empty());
            assert(seen@ =~= seq![start@] + values(uuids@));
            assert(inspected@ =~= seq![cluster]);
            assert(inspected@.to_set() =~= set![cluster]) by {
                assert(inspected@[0] == cluster);
            }
        }
        Progress { start, limit, cluster, uuids, seen, inspected }
    }

    /// Notes that the members of a cluster are inspected.
    fn inspect(&mut self, cluster: u32)
        requires
            old(self).wf(),
        ensures
            final(self).wf(),
            final(self).model() == (Search {
                seen: old(self).model().seen.insert(cluster),
                ..old(self).model()
            }),
    {
        let ghost before = self.inspected@;
        let at: usize = self.inspected.intern(cluster);
        proof {
            let after = self.inspected@;
            assert(after.to_set() =~= before.to_set().insert(cluster)) by {
                assert forall|x: u32| #[trigger] after.contains(x) <==> before.contains(x) || x
                    == cluster by {
                    if before.contains(x) {
                        let j = choose|j: int| 0 <= j < before.len() && before[j] == x;
                        assert(after[j] == x);
                    }
                    if x == cluster && !before.contains(x) {
                        assert(after[before.len() as int] == x);
                    }
                    if after.contains(x) && x != cluster {
                        let j = choose|j: int| 0 <= j < after.len() && after[j] == x;
                        assert(before[j] == x);
                    }
                }
            }
        }
    }

    /// Takes in the nodes that are new, while there is room.
    fn gather(&mut self, ids: &Vec<Uuid7>)
        requires
            old(self).wf(),
        ensures
            final(self).wf(),
            final(self).model() == (Search {
                out: gathered(
                    old(self).model().out,
                    old(self).model().start,
                    old(self).model().limit,
                    values(ids@),
                    ids@.len(),
                ),
                ..old(self).model()
            }),
    {
        let ghost first = self.model();
        let ghost all = values(ids@);
        let mut k: usize = 0;
        while k < ids.len()
            invariant
                k <= ids@.len(),
                all == values(ids@),
                self.wf(),
                self.model() == (Search {
                    out: gathered(first.out, first.start, first.limit, all, k as nat),
                    ..first
                }),
            decreases ids@.len() - k,
        {
            let id = ids[k];
            let ghost before = values(self.uuids@);
            let ghost head = seq![self.start@];
            proof {
                assert(all[k as int] == id@);
                assert((head + before).contains(id@) <==> id@ == self.start@ || before.contains(
                    id@,
                )) by {
                    if id@ == self.start@ {
                        assert((head + before)[0] == id@);
                    }
                    if before.contains(id@) {
                        let j = choose|j: int| 0 <= j < before.len() && before[j] == id@;
                        assert((head + before)[j + 1] == id@);
                    }
                    if (head + before).contains(id@) {
                        let j = choose|j: int|
                            0 <= j < (head + before).len() && (head + before)[j] == id@;
                        if j > 0 {
                            assert(before[j - 1] == id@);
                        }
                    }
                }
            }
            if self.uuids.len() < self.limit {
                match self.seen.lookup(id.as_uuid()) {
                    Some(_) => {},
                    None => {
                        let at: usize = self.seen.intern(id.as_uuid());
                        self.uuids.push(id);
                        proof {
                            assert(values(self.uuids@) =~= before.push(id@));
                            assert(self.seen@ =~= head + values(self.uuids@));
                        }
                    },
                }
            }
            k += 1;
        }
    }

    /// The result, with what has been found so far.
    fn finish(self, hubs: usize) -> (state: State)
        requires
            self.wf(),
        ensures
            state.wf(),
            forall|image: Image| #[trigger]
                state.outcome(image) == Ok::<Finding, Failure>(
                    Finding {
                        uuids: self.model().out,
                        clusters: self.model().seen.len(),
                        hubs: hubs as nat,
                    },
                ),
            state.phase() == 0,
    {
        let clusters: usize = self.inspected.len();
        proof {
            self.inspected.lemma_wf();
            self.inspected@.unique_seq_to_set();
        }
        State::Done(
            Ok(
                QueryResult {
                    uuids: self.uuids,
                    stats: QueryStats { clusters_visited: clusters, hubs_visited: hubs },
                },
            ),
        )
    }
}

/// How far a query has come.
enum State {
    SameStart { start: Uuid7 },
    SameMembers { cluster: u32 },
    SimilarStart { start: Uuid7, limit: usize },
    SimilarLocal { start: Uuid7, limit: usize, cluster: u32 },
    Flag { progress: Progress, ids: Vec<Uuid7> },
    Scan { progress: Progress, ids: Vec<Uuid7>, at: usize },
    Links { progress: Progress, entry: Uuid7 },
    Walk { progress: Progress, hubs: Vec<Uuid7>, at: usize },
    Into { progress: Progress, hubs: Vec<Uuid7>, at: usize, cluster: u32 },
    Done(Result<QueryResult, SwIndexError>),
}

impl State {
    spec fn wf(&self) -> bool {
        match self {
            State::Flag { progress, ids } => progress.wf(),
            State::Scan { progress, ids, at } => progress.wf() && *at < ids@.len(),
            State::Links { progress, entry } => progress.wf(),
            State::Walk { progress, hubs, at } => progress.wf() && *at < hubs@.len(),
            State::Into { progress, hubs, at, cluster } => progress.wf() && *at
                < hubs@.len(),
            _ => true,
        }
    }

    spec fn wants(&self) -> Option<(Table, Seq<u8>)> {
        match self {
            State::SameStart { start } => Some((Table::UuidToCluster, node_key(start@))),
            State::SameMembers { cluster } => Some((Table::ClusterMembers, cluster_key(*cluster))),
            State::SimilarStart { start, limit } => Some((Table::UuidToCluster, node_key(start@))),
            State::SimilarLocal { start, limit, cluster } => Some(
                (Table::ClusterMembers, cluster_key(*cluster)),
            ),
            State::Flag { progress, ids } => Some((Table::UuidIsHub, node_key(progress.start@))),
            State::Scan { progress, ids, at } => Some(
                (Table::UuidIsHub, node_key(ids@[*at as int]@)),
            ),
            State::Links { progress, entry } => Some((Table::HubNeighbors, node_key(entry@))),
            State::Walk { progress, hubs, at } => Some(
                (Table::UuidToCluster, node_key(hubs@[*at as int]@)),
            ),
            State::Into { progress, hubs, at, cluster } => Some(
                (Table::ClusterMembers, cluster_key(*cluster)),
            ),
            State::Done(r) => None,
        }
    }

    spec fn outcome(&self, image: Image) -> Result<Finding, Failure> {
        match self {
            State::SameStart { start } => same_cluster(image, start@),
            State::SameMembers { cluster } => same_members(image, *cluster),
            State::SimilarStart { start, limit } => similar(image, start@, *limit as nat),
            State::SimilarLocal { start, limit, cluster } => similar_local(
                image,
                start@,
                *limit as nat,
                *cluster,
            ),
            State::Flag { progress, ids } => similar_entry(image, progress.model(), values(ids@)),
            State::Scan { progress, ids, at } => similar_scan(
                image,
                progress.model(),
                values(ids@),
                *at as nat,
            ),
            State::Links { progress, entry } => similar_links(image, progress.model(), entry@),
            State::Walk { progress, hubs, at } => walk(
                image,
                progress.model(),
                values(hubs@),
                *at as nat,
            ),
            State::Into { progress, hubs, at, cluster } => walk_into(
                image,
                progress.model(),
                values(hubs@),
                *at as nat,
                *cluster,
            ),
            State::Done(r) => settled(*r),
        }
    }

    spec fn phase(&self) -> nat {
        match self {
            State::SameStart { start } => 7,
            State::SimilarStart { start, limit } => 7,
            State::SameMembers { cluster } => 6,
            State::SimilarLocal { start, limit, cluster } => 6,
            State::Flag { progress, ids } => 5,
            State::Scan { progress, ids, at } => 4,
            State::Links { progress, entry } => 3,
            State::Walk { progress, hubs, at } => 2,
            State::Into { progress, hubs, at, cluster } => 2,
            State::Done(r) => 0,
        }
    }

    spec fn rest(&self) -> nat {
        match self {
            State::Scan { progress, ids, at } => (ids@.len() - *at) as nat,
            State::Walk { progress, hubs, at } => (2 * (hubs@.len() - *at) + 1) as nat,
            State::Into { progress, hubs, at, cluster } => (2 * (hubs@.len()
                - *at)) as nat,
            _ => 0,
        }
    }

    /// The search for a hub, from the place `at` on.
    fn scan(progress: Progress, ids: Vec<Uuid7>, at: usize) -> (state: Self)
        requires
            progress.wf(),
            at <= ids@.len(),
        ensures
            state.wf(),
            forall|image: Image| #[trigger]
                state.outcome(image) == similar_scan(
                    image,
                    progress.model(),
                    values(ids@),
                    at as nat,
                ),
            state.phase() <= 4,
            state.phase() == 4 ==> state.rest() == ids@.len() - at,
    {
        if at < ids.len() {
            State::Scan { progress, ids, at }
        } else {
            progress.finish(0)
        }
    }

    /// The walk, from the place `at` on.
    fn walk_on(progress: Progress, hubs: Vec<Uuid7>, at: usize) -> (state: Self)
        requires
            progress.wf(),
            at <= hubs@.len(),
        ensures
            state.wf(),
            forall|image: Image| #[trigger]
                state.outcome(image) == walk(
                    image,
                    progress.model(),
                    values(hubs@),
                    at as nat,
                ),
            state.phase() <= 2,
            state.phase() == 2 ==> state.rest() == 2 * (hubs@.len() - at) + 1,
    {
        if at < hubs.len() {
            State::Walk { progress, hubs, at }
        } else {
            progress.finish(at)
        }
    }
}

/// A query on its way.
pub struct Query {
    state: State,
}

impl Query {
    /// The query is in a state that it can reach.
    #[verifier::type_invariant]
    spec fn wf(&self) -> bool {
        self.state.wf()
    }

    /// The value of the store that is wanted next; none when the query is done.
    pub closed spec fn wants(&self) -> Option<(Table, Seq<u8>)> {
        self.state.wants()
    }

    /// What the query will find in a store with the given contents.
    pub closed spec fn outcome(&self, image: Image) -> Result<Finding, Failure> {
        self.state.outcome(image)
    }

    /// The stage of the query. It never rises, and is 0 when the query is done.
    pub closed spec fn stage(&self) -> nat {
        self.state.phase()
    }

    /// A bound on the values that are still wanted in this stage.
    pub closed spec fn left(&self) -> nat {
        self.state.rest()
    }

    /// Starts a query.
    pub fn new(kind: QueryKind) -> (query: Self)
        ensures
            forall|image: Image| #[trigger] query.outcome(image) == findings(image, kind),
    {
        match kind {
            QueryKind::SameCluster { start } => Query { state: State::SameStart { start } },
            QueryKind::Similar { start, limit } => if limit == 0 {
                let uuids: Vec<Uuid7> = Vec::new();
                assert(values(uuids@) =~= Seq::empty());
                let stats = QueryStats { clusters_visited: 0, hubs_visited: 0 };
                Query { state: State::Done(Ok(QueryResult { uuids, stats })) }
            } else {
                Query { state: State::SimilarStart { start, limit } }
            },
        }
    }

    /// The table and the key of the value that is wanted next.
    pub fn wanted(&self) -> (r: Option<(Table, Vec<u8>)>)
        ensures
            match r {
                Some((table, key)) => self.wants() == Some((table, key@)),
                None => self.wants() is None,
            },
    {
        proof {
            use_type_invariant(self);
        }
        match &self.state {
            State::SameStart { start } => Some((Table::UuidToCluster, uuid_key(start))),
            State::SameMembers { cluster } => Some((Table::ClusterMembers, encode_u32(*cluster))),
            State::SimilarStart { start, limit } => Some((Table::UuidToCluster, uuid_key(start))),
            State::SimilarLocal { start, limit, cluster } => Some(
                (Table::ClusterMembers, encode_u32(*cluster)),
            ),
            State::Flag { progress, ids } => Some((Table::UuidIsHub, uuid_key(&progress.start))),
            State::Scan { progress, ids, at } => Some((Table::UuidIsHub, uuid_key(&ids[*at]))),
            State::Links { progress, entry } => Some((Table::HubNeighbors, uuid_key(entry))),
            State::Walk { progress, hubs, at } => Some(
                (Table::UuidToCluster, uuid_key(&hubs[*at])),
            ),
            State::Into { progress, hubs, at, cluster } => Some(
                (Table::ClusterMembers, encode_u32(*cluster)),
            ),
            State::Done(r) => None,
        }
    }

    /// Takes what the store holds under the key that was wanted, and goes on.
    pub fn answer(self, raw: Option<&[u8]>) -> (next: Self)
        requires
            self.wants() is Some,
        ensures
            forall|image: Image|
                holds(image, self.wants(), raw_value(raw))
                    ==> #[trigger] next.outcome(image) == self.outcome(image),
            next.stage() < self.stage() || (next.stage() == self.stage() && next.left()
                < self.left()),
    {
        proof {
            use_type_invariant(&self);
        }
        let Query { state } = self;
        Query { state: next_state(state, raw) }
    }

    /// The result of a query that is done.
    pub fn result(self) -> (r: Result<QueryResult, SwIndexError>)
        requires
            self.wants() is None,
        ensures
            forall|image: Image| settled(r) == #[trigger] self.outcome(image),
    {
        let Query { state } = self;
        match state {
            State::Done(r) => r,
            _ => {
                let uuids: Vec<Uuid7> = Vec::new();
                Ok(
                    QueryResult {
                        uuids,
                        stats: QueryStats { clusters_visited: 0, hubs_visited: 0 },
                    },
                )
            },
        }
    }
}

/// The members in a value that was read; none if it was not there.
pub fn read_members(raw: Option<&[u8]>) -> (r: Result<Vec<Uuid7>, SwIndexError>)
    ensures
        match (r, known_members(raw_value(raw))) {
            (Ok(ids), Ok(s)) => values(ids@) == s,
            (Err(e), Err(f)) => e@ == f,
            _ => false,
        },
{
    match cluster_members(raw) {
        Err(e) => Err(e),
        Ok(Some(ids)) => Ok(ids),
        Ok(None) => {
            let none: Vec<Uuid7> = Vec::new();
            assert(values(none@) =~= Seq::empty());
            Ok(none)
        },
    }
}

/// The finding of nothing.
fn found_nothing() -> (r: Result<QueryResult, SwIndexError>)
    ensures
        settled(r) == Ok::<Finding, Failure>(nothing()),
{
    let uuids: Vec<Uuid7> = Vec::new();
    assert(values(uuids@) =~= Seq::empty());
    Ok(QueryResult { uuids, stats: QueryStats { clusters_visited: 0, hubs_visited: 0 } })
}

/// The next state, given what the store holds under the key that was wanted.
fn next_state(state: State, raw: Option<&[u8]>) -> (next: State)
    requires
        state.wf(),
        state.wants() is Some,
    ensures
        next.wf(),
        forall|image: Image|
            holds(image, state.wants(), raw_value(raw))
                ==> #[trigger] next.outcome(image) == state.outcome(image),
        next.phase() < state.phase() || (next.phase() == state.phase() && next.rest()
            < state.rest()),
{
    match state {
        State::SameStart { start } => match cluster_of(raw) {
            Err(e) => State::Done(Err(e)),
            Ok(None) => State::Done(found_nothing()),
            Ok(Some(cluster)) => State::SameMembers { cluster },
        },
        State::SameMembers { cluster } => match read_members(raw) {
            Err(e) => State::Done(Err(e)),
            Ok(uuids) => State::Done(
                Ok(
                    QueryResult {
                        uuids,
                        stats: QueryStats { clusters_visited: 1, hubs_visited: 0 },
                    },
                ),
            ),
        },
        State::SimilarStart { start, limit } => if limit == 0 {
            State::Done(found_nothing())
        } else {
            match cluster_of(raw) {
                Err(e) => State::Done(Err(e)),
                Ok(None) => State::Done(found_nothing()),
                Ok(Some(cluster)) => State::SimilarLocal { start, limit, cluster },
            }
        },
        State::SimilarLocal { start, limit, cluster } => match read_members(raw) {
            Err(e) => State::Done(Err(e)),
            Ok(ids) => {
                let mut progress = Progress::new(start, limit, cluster);
                progress.gather(&ids);
                assert(values(ids@).len() == ids@.len());
                if progress.uuids.len() >= limit {
                    progress.finish(0)
                } else {
                    State::Flag { progress, ids }
                }
            },
        },
        State::Flag { progress, ids } => if is_hub(raw) {
            let entry = progress.start;
            State::Links { progress, entry }
        } else {
            State::scan(progress, ids, 0)
        },
        State::Scan { progress, ids, at } => {
            assert(values(ids@)[at as int] == ids@[at as int]@);
            assert(ids.len() == ids@.len());
            if is_hub(raw) {
                let entry = ids[at];
                State::Links { progress, entry }
            } else {
                State::scan(progress, ids, at + 1)
            }
        },
        State::Links { progress, entry } => match hub_neighbors(raw) {
            Err(e) => State::Done(Err(e)),
            Ok(links) => {
                let hubs = strongest_first(&links);
                State::walk_on(progress, hubs, 0)
            },
        },
        State::Walk { progress, hubs, at } => {
            assert(values(hubs@)[at as int] == hubs@[at as int]@);
            assert(hubs.len() == hubs@.len());
            match cluster_of(raw) {
                Err(e) => State::Done(Err(e)),
                Ok(None) => State::walk_on(progress, hubs, at + 1),
                Ok(Some(cluster)) => if cluster == progress.cluster {
                    State::walk_on(progress, hubs, at + 1)
                } else {
                    State::Into { progress, hubs, at, cluster }
                },
            }
        },
        State::Into { progress, hubs, at, cluster } => match read_members(raw) {
            Err(e) => State::Done(Err(e)),
            Ok(ids) => {
                let mut progress = progress;
                progress.inspect(cluster);
                progress.gather(&ids);
                assert(values(ids@).len() == ids@.len());
                assert(hubs.len() == hubs@.len());
                if progress.uuids.len() >= progress.limit {
                    progress.finish(at + 1)
                } else {
                    State::walk_on(progress, hubs, at + 1)
                }
            },
        },
        State::Done(r) => State::Done(r),
    }
}

/// A list of findings is sound: within the limit, without repetition and without the
/// start.
pub open spec fn is_sound(out: Seq<u128>, start: u128, limit: nat) -> bool {
    &&& out.len() <= limit
    &&& out.no_duplicates()
    &&& !out.contains(start)
}

proof fn lemma_gathered(out: Seq<u128>, start: u128, limit: nat, ids: Seq<u128>, k: nat)
    requires
        is_sound(out, start, limit),
        k <= ids.len(),
    ensures
        is_sound(gathered(out, start, limit, ids, k), start, limit),
        out.len() <= gathered(out, start, limit, ids, k).len(),
        gathered(out, start, limit, ids, k).take(out.len() as int) == out,
        forall|x: u128| #[trigger]
            gathered(out, start, limit, ids, k).contains(x) ==> out.contains(x)
                || ids.contains(x),
    decreases k,
{
    if k == 0 {
        assert(out.take(out.len() as int) =~= out);
    } else {
        lemma_gathered(out, start, limit, ids, (k - 1) as nat);
        let before = gathered(out, start, limit, ids, (k - 1) as nat);
        let after = gathered(out, start, limit, ids, k);
        if after.len() != before.len() {
            let x = ids[k - 1];
            assert(after == before.push(x));
            assert(after.take(out.len() as int) =~= before.take(out.len() as int));
            assert(ids.contains(x));
            assert forall|y: u128| #[trigger] after.contains(y) implies out.contains(y)
                || ids.contains(y) by {
                let j = choose|j: int| 0 <= j < after.len() && after[j] == y;
                if j < before.len() {
                    assert(before[j] == y);
                    assert(before.contains(y));
                }
            }
            assert forall|i: int, j: int| 0 <= i < after.len() && 0 <= j < after.len() && i
                != j implies after[i] != after[j] by {
                if i < before.len() {
                    assert(before[i] == after[i]);
                    assert(before.contains(after[i]));
                }
                if j < before.len() {
                    assert(before[j] == after[j]);
                    assert(before.contains(after[j]));
                }
            }
            if after.contains(start) {
                let j = choose|j: int| 0 <= j < after.len() && after[j] == start;
                assert(before[j] == start);
                assert(before.contains(start));
            }
        }
    }
}

/// A node is listed in some cluster of the store.
pub open spec fn is_listed(image: Image, x: u128) -> bool {
    exists|c: u32|
        (#[trigger] members_at(image, c)) is Ok && members_at(image, c)->Ok_0.contains(x)
}

/// The findings are sound, all of them are listed, and those that came first stay first.
pub open spec fn extends(image: Image, s: Search, out: Seq<u128>) -> bool {
    &&& is_sound(out, s.start, s.limit)
    &&& s.out.len() <= out.len()
    &&& out.take(s.out.len() as int) == s.out
    &&& forall|x: u128| #[trigger] out.contains(x) ==> is_listed(image, x)
}

spec fn listed_search(image: Image, s: Search) -> bool {
    &&& is_sound(s.out, s.start, s.limit)
    &&& forall|x: u128| #[trigger] s.out.contains(x) ==> is_listed(image, x)
}

proof fn lemma_gathered_extends(image: Image, s: Search, c: u32, ids: Seq<u128>)
    requires
        listed_search(image, s),
        members_at(image, c) == Ok::<Seq<u128>, Failure>(ids),
    ensures
        extends(image, s, gathered(s.out, s.start, s.limit, ids, ids.len())),
{
    lemma_gathered(s.out, s.start, s.limit, ids, ids.len());
    let out = gathered(s.out, s.start, s.limit, ids, ids.len());
    assert forall|x: u128| #[trigger] out.contains(x) implies is_listed(image, x) by {
        if ids.contains(x) {
            assert(members_at(image, c) is Ok && members_at(image, c)->Ok_0.contains(x));
        }
    }
}

proof fn lemma_walk(image: Image, s: Search, hubs: Seq<u128>, i: nat)
    requires
        listed_search(image, s),
    ensures
        walk(image, s, hubs, i) matches Ok(f) ==> extends(image, s, f.uuids),
    decreases hubs.len() - i,
{
    reveal_with_fuel(walk, 2);
    reveal_with_fuel(walk_into, 2);
    assert(s.out.take(s.out.len() as int) =~= s.out);
    if i < hubs.len() {
        match cluster_at(image, hubs[i as int]) {
            Err(e) => {},
            Ok(None) => {
                lemma_walk(image, s, hubs, i + 1);
            },
            Ok(Some(c)) => {
                if c == s.cluster {
                    lemma_walk(image, s, hubs, i + 1);
                } else {
                    match members_at(image, c) {
                        Err(e) => {},
                        Ok(ids) => {
                            lemma_gathered_extends(image, s, c, ids);
                            let out = gathered(s.out, s.start, s.limit, ids, ids.len());
                            let further = Search { seen: s.seen.insert(c), out, ..s };
                            lemma_walk(image, further, hubs, i + 1);
                            match walk(image, further, hubs, i + 1) {
                                Err(e) => {},
                                Ok(f) => {
                                    assert(f.uuids.take(s.out.len() as int) =~= f.uuids.take(
                                        out.len() as int,
                                    ).take(s.out.len() as int));
                                },
                            }
                        },
                    }
                }
            },
        }
    }
}

proof fn lemma_scan(image: Image, s: Search, ids: Seq<u128>, i: nat)
    requires
        listed_search(image, s),
    ensures
        similar_scan(image, s, ids, i) matches Ok(f) ==> extends(image, s, f.uuids),
    decreases ids.len() - i,
{
    assert(s.out.take(s.out.len() as int) =~= s.out);
    if i < ids.len() {
        if hub_at(image, ids[i as int]) {
            lemma_links(image, s, ids[i as int]);
        } else {
            lemma_scan(image, s, ids, i + 1);
        }
    }
}

proof fn lemma_links(image: Image, s: Search, entry: u128)
    requires
        listed_search(image, s),
    ensures
        similar_links(image, s, entry) matches Ok(f) ==> extends(image, s, f.uuids),
{
    match links_at(image, entry) {
        Err(e) => {},
        Ok(links) => {
            lemma_walk(image, s, by_weight(links), 0);
        },
    }
}

/// The nodes near a node are at most as many as asked for, occur once each, do not
/// hold the node itself, and are listed in clusters of the store.
pub proof fn law_similar_is_sound(image: Image, start: u128, limit: nat)
    ensures
        similar(image, start, limit) matches Ok(f) ==> {
            &&& is_sound(f.uuids, start, limit)
            &&& forall|x: u128| #[trigger] f.uuids.contains(x) ==> is_listed(image, x)
        },
{
    if limit > 0 {
        match cluster_at(image, start) {
            Ok(Some(c)) => {
                match members_at(image, c) {
                    Ok(ids) => {
                        law_similar_own_cluster_first(image, start, limit, c, ids);
                    },
                    Err(e) => {},
                }
            },
            _ => {},
        }
    }
}

/// The nodes of the cluster of the start come first, in the order in which the cluster
/// lists them. All of them are found if there is room.
pub proof fn law_similar_own_cluster_first(
    image: Image,
    start: u128,
    limit: nat,
    c: u32,
    ids: Seq<u128>,
)
    requires
        limit > 0,
        cluster_at(image, start) == Ok::<Option<u32>, Failure>(Some(c)),
        members_at(image, c) == Ok::<Seq<u128>, Failure>(ids),
    ensures
        similar(image, start, limit) matches Ok(f) ==> {
            let own = gathered(Seq::empty(), start, limit, ids, ids.len());
            &&& own.len() <= f.uuids.len()
            &&& f.uuids.take(own.len() as int) == own
            &&& own.len() == limit || forall|x: u128|
                ids.contains(x) && x != start ==> #[trigger] own.contains(x)
            &&& is_sound(f.uuids, start, limit)
            &&& forall|x: u128| #[trigger] f.uuids.contains(x) ==> is_listed(image, x)
        },
{
    let none = Search { start, limit, cluster: c, seen: set![c], out: Seq::empty() };
    assert(listed_search(image, none));
    lemma_gathered_extends(image, none, c, ids);
    lemma_gathered_all(start, limit, ids, ids.len());
    let own = gathered(Seq::empty(), start, limit, ids, ids.len());
    let s = Search { start, limit, cluster: c, seen: set![c], out: own };
    assert(own.take(own.len() as int) =~= own);
    if own.len() < limit {
        if hub_at(image, start) {
            lemma_links(image, s, start);
        } else {
            lemma_scan(image, s, ids, 0);
        }
    }
}

/// The clusters among that of the start, `c`, and those of the first `k` hubs.
pub open spec fn clusters_on(image: Image, c: u32, hubs: Seq<u128>, k: nat) -> Set<u32>
    decreases k,
{
    if k == 0 {
        set![c]
    } else {
        let before = clusters_on(image, c, hubs, (k - 1) as nat);
        match cluster_at(image, hubs[k - 1]) {
            Ok(Some(x)) => before.insert(x),
            _ => before,
        }
    }
}

/// The first hub from the place `i` on.
pub open spec fn first_hub(image: Image, ids: Seq<u128>, i: nat) -> Option<u128>
    decreases ids.len() - i,
{
    if i >= ids.len() {
        None
    } else if hub_at(image, ids[i as int]) {
        Some(ids[i as int])
    } else {
        first_hub(image, ids, i + 1)
    }
}

/// The hubs that a search from `start`, in a cluster of the nodes `ids`, walks along.
pub open spec fn route(image: Image, start: u128, ids: Seq<u128>) -> Seq<u128> {
    let entry = if hub_at(image, start) {
        Some(start)
    } else {
        first_hub(image, ids, 0)
    };
    match entry {
        Some(id) => match links_at(image, id) {
            Ok(links) => by_weight(links),
            Err(e) => Seq::empty(),
        },
        None => Seq::empty(),
    }
}

/// The clusters on the way are that of the start and those of the hubs, and nothing else.
pub proof fn law_clusters_on_the_way(image: Image, c: u32, hubs: Seq<u128>, k: nat)
    ensures
        clusters_on(image, c, hubs, k).finite(),
        forall|x: u32| #[trigger]
            clusters_on(image, c, hubs, k).contains(x) <==> x == c || exists|j: int|
                0 <= j < k && cluster_at(image, #[trigger] hubs[j]) == Ok::<Option<u32>, Failure>(
                    Some(x),
                ),
    decreases k,
{
    if k > 0 {
        law_clusters_on_the_way(image, c, hubs, (k - 1) as nat);
        let before = clusters_on(image, c, hubs, (k - 1) as nat);
        let after = clusters_on(image, c, hubs, k);
        assert forall|x: u32| #[trigger] after.contains(x) <==> x == c || exists|j: int|
            0 <= j < k && cluster_at(image, #[trigger] hubs[j]) == Ok::<Option<u32>, Failure>(
                Some(x),
            ) by {
            if before.contains(x) && x != c {
                let j = choose|j: int|
                    0 <= j < k - 1 && cluster_at(image, #[trigger] hubs[j]) == Ok::<
                        Option<u32>,
                        Failure,
                    >(Some(x));
                assert(0 <= j < k);
            }
            if after.contains(x) && !before.contains(x) {
                assert(cluster_at(image, hubs[k - 1]) == Ok::<Option<u32>, Failure>(Some(x)));
            }
        }
    }
}

proof fn lemma_walk_clusters(image: Image, s: Search, hubs: Seq<u128>, i: nat)
    requires
        i <= hubs.len(),
        s.seen == clusters_on(image, s.cluster, hubs, i),
    ensures
        walk(image, s, hubs, i) matches Ok(f) ==> {
            &&& i <= f.hubs <= hubs.len()
            &&& f.clusters == clusters_on(image, s.cluster, hubs, f.hubs).len()
        },
    decreases hubs.len() - i,
{
    reveal_with_fuel(walk, 2);
    reveal_with_fuel(walk_into, 2);
    if i < hubs.len() {
        let after = clusters_on(image, s.cluster, hubs, i + 1);
        match cluster_at(image, hubs[i as int]) {
            Err(e) => {},
            Ok(None) => {
                lemma_walk_clusters(image, s, hubs, i + 1);
            },
            Ok(Some(c)) => {
                if c == s.cluster {
                    law_clusters_on_the_way(image, s.cluster, hubs, i);
                    assert(after =~= s.seen);
                    lemma_walk_clusters(image, s, hubs, i + 1);
                } else {
                    match members_at(image, c) {
                        Err(e) => {},
                        Ok(ids) => {
                            let out = gathered(s.out, s.start, s.limit, ids, ids.len());
                            let further = Search { seen: s.seen.insert(c), out, ..s };
                            assert(further.seen == after);
                            lemma_walk_clusters(image, further, hubs, i + 1);
                        },
                    }
                }
            },
        }
    }
}

proof fn lemma_scan_entry(image: Image, s: Search, ids: Seq<u128>, i: nat)
    ensures
        similar_scan(image, s, ids, i) == match first_hub(image, ids, i) {
            Some(id) => similar_links(image, s, id),
            None => Ok::<Finding, Failure>(
                Finding { uuids: s.out, clusters: s.seen.len(), hubs: 0 },
            ),
        },
    decreases ids.len() - i,
{
    if i < ids.len() && !hub_at(image, ids[i as int]) {
        lemma_scan_entry(image, s, ids, i + 1);
    }
}

/// A search counts each cluster once, however many of the hubs on its way belong to it:
/// that of the start, and those of the hubs that it reached.
pub proof fn law_similar_counts_distinct_clusters(
    image: Image,
    start: u128,
    limit: nat,
    c: u32,
    ids: Seq<u128>,
)
    requires
        limit > 0,
        cluster_at(image, start) == Ok::<Option<u32>, Failure>(Some(c)),
        members_at(image, c) == Ok::<Seq<u128>, Failure>(ids),
    ensures
        similar(image, start, limit) matches Ok(f) ==> {
            let hubs = route(image, start, ids);
            &&& f.hubs <= hubs.len()
            &&& f.clusters == clusters_on(image, c, hubs, f.hubs).len()
        },
{
    let out = gathered(Seq::empty(), start, limit, ids, ids.len());
    let s = Search { start, limit, cluster: c, seen: set![c], out };
    let hubs = route(image, start, ids);
    assert(clusters_on(image, c, hubs, 0) == set![c]);
    if out.len() < limit {
        if !hub_at(image, start) {
            lemma_scan_entry(image, s, ids, 0);
        }
        lemma_walk_clusters(image, s, hubs, 0);
    }
}

proof fn lemma_gathered_all(start: u128, limit: nat, ids: Seq<u128>, k: nat)
    requires
        k <= ids.len(),
        limit > 0,
    ensures
        gathered(Seq::empty(), start, limit, ids, k).len() <= limit,
        gathered(Seq::empty(), start, limit, ids, k).len() < limit ==> forall|j: int|
            0 <= j < k && ids[j] != start ==> gathered(
                Seq::empty(),
                start,
                limit,
                ids,
                k,
            ).contains(#[trigger] ids[j]),
    decreases k,
{
    if k > 0 {
        lemma_gathered_all(start, limit, ids, (k - 1) as nat);
        let before = gathered(Seq::empty(), start, limit, ids, (k - 1) as nat);
        let after = gathered(Seq::empty(), start, limit, ids, k);
        if after.len() < limit {
            assert forall|j: int| 0 <= j < k && ids[j] != start implies after.contains(
                #[trigger] ids[j],
            ) by {
                if j < k - 1 {
                    assert(before.contains(ids[j]));
                    let h = choose|h: int| 0 <= h < before.len() && before[h] == ids[j];
                    assert(after[h] == ids[j]);
                } else if !before.contains(ids[j]) {
                    assert(after[before.len() as int] == ids[j]);
                }
            }
        }
    }
}

/// A stronger link comes before a weaker one, and equally strong links keep their order.
pub proof fn law_strongest_first(links: Seq<(u128, u32)>, i: int, j: int)
    requires
        0 <= i < j < links.len() <= usize::MAX,
    ensures
        weighted_places(links).sort_by(place_order()).len() == links.len(),
        precedes(
            weighted_places(links).sort_by(place_order())[i],
            weighted_places(links).sort_by(place_order())[j],
        ),
        by_weight(links).len() == links.len(),
{
    let keyed = weighted_places(links);
    lemma_place_order();
    keyed.lemma_sort_by_ensures(place_order());
    crate::sort::lemma_sorted_items(keyed, keyed.sort_by(place_order()));
    let order = keyed.sort_by(place_order());
    assert(place_order()(order[i], order[j]));
}


/// `hub` is where a search from `start`, in a cluster of the nodes `ids`, enters the hub
/// graph: at `start` if it is a hub, or else at the first hub that the cluster lists.
pub open spec fn is_entry(image: Image, start: u128, ids: Seq<u128>, hub: u128) -> bool {
    if hub_at(image, start) {
        hub == start
    } else {
        exists|i: int|
            {
                &&& 0 <= i < ids.len()
                &&& #[trigger] ids[i] == hub
                &&& hub_at(image, hub)
                &&& forall|j: int| 0 <= j < i ==> !hub_at(image, #[trigger] ids[j])
            }
    }
}

/// Neither `start` nor any node of its cluster is a hub.
pub open spec fn has_no_entry(image: Image, start: u128, ids: Seq<u128>) -> bool {
    &&& !hub_at(image, start)
    &&& forall|i: int| 0 <= i < ids.len() ==> !hub_at(image, #[trigger] ids[i])
}

/// The nodes of the cluster of a hub; none if it has no cluster.
pub open spec fn nodes_around(image: Image, hub: u128) -> Seq<u128> {
    match cluster_at(image, hub) {
        Ok(Some(d)) => match members_at(image, d) {
            Ok(ids) => ids,
            Err(e) => Seq::empty(),
        },
        _ => Seq::empty(),
    }
}

/// What is read in turn: the nodes `ids`, and those around the first `k` hubs.
pub open spec fn reading(image: Image, ids: Seq<u128>, hubs: Seq<u128>, k: nat) -> Seq<u128>
    decreases k,
{
    if k == 0 {
        ids
    } else {
        reading(image, ids, hubs, (k - 1) as nat) + nodes_around(image, hubs[k - 1])
    }
}

/// The nodes other than `start`.
pub open spec fn other_than(start: u128) -> spec_fn(u128) -> bool {
    |x: u128| x != start
}

/// The different nodes of a list other than `start`, each at its first place, `limit` of
/// them at most.
pub open spec fn first_others(list: Seq<u128>, start: u128, limit: nat) -> Seq<u128> {
    let all = distinct(list.filter(other_than(start)));
    if all.len() <= limit {
        all
    } else {
        all.take(limit as int)
    }
}

/// Gathering one list after another is gathering both together.
proof fn lemma_gathered_both(
    out: Seq<u128>,
    start: u128,
    limit: nat,
    a: Seq<u128>,
    b: Seq<u128>,
    k: nat,
)
    requires
        k <= b.len(),
    ensures
        gathered(gathered(out, start, limit, a, a.len()), start, limit, b, k) == gathered(
            out,
            start,
            limit,
            a + b,
            a.len() + k,
        ),
    decreases k,
{
    if k > 0 {
        lemma_gathered_both(out, start, limit, a, b, (k - 1) as nat);
        assert((a + b)[a.len() + k - 1] == b[k - 1]);
    } else {
        lemma_gathered_prefix(out, start, limit, a, a + b, a.len());
    }
}

/// What is gathered of the first places depends on those only.
proof fn lemma_gathered_prefix(
    out: Seq<u128>,
    start: u128,
    limit: nat,
    a: Seq<u128>,
    b: Seq<u128>,
    k: nat,
)
    requires
        k <= a.len() <= b.len(),
        forall|i: int| 0 <= i < k ==> a[i] == b[i],
    ensures
        gathered(out, start, limit, a, k) == gathered(out, start, limit, b, k),
    decreases k,
{
    if k > 0 {
        lemma_gathered_prefix(out, start, limit, a, b, (k - 1) as nat);
    }
}

/// Nodes that are there already add nothing.
proof fn lemma_gathered_again(out: Seq<u128>, start: u128, limit: nat, ids: Seq<u128>, k: nat)
    requires
        k <= ids.len(),
        forall|i: int| 0 <= i < ids.len() && ids[i] != start ==> out.contains(#[trigger] ids[i]),
    ensures
        gathered(out, start, limit, ids, k) == out,
    decreases k,
{
    if k > 0 {
        lemma_gathered_again(out, start, limit, ids, (k - 1) as nat);
        assert(ids[k - 1] == start || out.contains(ids[k - 1]));
    }
}

/// What is gathered are the first different nodes other than the start.
proof fn lemma_gathered_is_first(start: u128, limit: nat, ids: Seq<u128>, k: nat)
    requires
        k <= ids.len(),
    ensures
        gathered(Seq::empty(), start, limit, ids, k) == first_others(
            ids.take(k as int),
            start,
            limit,
        ),
    decreases k,
{
    reveal(Seq::filter);
    let keep = other_than(start);
    if k == 0 {
        assert(ids.take(0).filter(keep) =~= Seq::empty());
        assert(first_others(ids.take(0), start, limit) =~= Seq::empty());
    } else {
        lemma_gathered_is_first(start, limit, ids, (k - 1) as nat);
        let x = ids[k - 1];
        let before = ids.take(k - 1);
        let now = ids.take(k as int);
        assert(now.drop_last() =~= before);
        assert(now.last() == x);
        let a = before.filter(keep);
        let b = now.filter(keep);
        let d = distinct(a);
        if x == start {
            assert(b == a);
        } else {
            assert(b == a.push(x));
            assert(b.drop_last() =~= a);
            assert(b.last() == x);
            if d.len() < limit {
                assert(first_others(before, start, limit) == d);
                if !d.contains(x) {
                    assert(distinct(b) == d.push(x));
                    assert(first_others(now, start, limit) =~= d.push(x));
                }
            } else {
                assert(distinct(b).len() >= d.len());
                assert(first_others(now, start, limit) =~= first_others(before, start, limit));
            }
        }
    }
}

/// What a walk finds is what is gathered of what it read, and it goes on while there is
/// room.
proof fn lemma_walk_reads(image: Image, s: Search, hubs: Seq<u128>, i: nat, ids: Seq<u128>)
    requires
        i <= hubs.len(),
        members_at(image, s.cluster) == Ok::<Seq<u128>, Failure>(ids),
        s.out == gathered(
            Seq::empty(),
            s.start,
            s.limit,
            reading(image, ids, hubs, i),
            reading(image, ids, hubs, i).len(),
        ),
        s.out.len() < s.limit,
        forall|j: int| 0 <= j < ids.len() && ids[j] != s.start ==> s.out.contains(#[trigger] ids[j]),
    ensures
        walk(image, s, hubs, i) matches Ok(f) ==> {
            let read = reading(image, ids, hubs, f.hubs);
            &&& i <= f.hubs <= hubs.len()
            &&& f.uuids == gathered(Seq::empty(), s.start, s.limit, read, read.len())
            &&& f.hubs < hubs.len() ==> f.uuids.len() >= s.limit
            &&& f.hubs > i ==> gathered(
                Seq::empty(),
                s.start,
                s.limit,
                reading(image, ids, hubs, (f.hubs - 1) as nat),
                reading(image, ids, hubs, (f.hubs - 1) as nat).len(),
            ).len() < s.limit
            &&& forall|j: int|
                i <= j < f.hubs ==> {
                    &&& (#[trigger] cluster_at(image, hubs[j])) is Ok
                    &&& cluster_at(image, hubs[j])->Ok_0 is Some ==> members_at(
                        image,
                        cluster_at(image, hubs[j])->Ok_0->0,
                    ) is Ok
                }
        },
    decreases hubs.len() - i,
{
    reveal_with_fuel(walk, 2);
    reveal_with_fuel(walk_into, 2);
    if i < hubs.len() {
        let before = reading(image, ids, hubs, i);
        let now = reading(image, ids, hubs, i + 1);
        let around = nodes_around(image, hubs[i as int]);
        lemma_gathered_both(Seq::empty(), s.start, s.limit, before, around, around.len());
        assert(now == before + around);
        match cluster_at(image, hubs[i as int]) {
            Err(e) => {},
            Ok(None) => {
                assert(now =~= before);
                lemma_walk_reads(image, s, hubs, i + 1, ids);
            },
            Ok(Some(c)) => {
                if c == s.cluster {
                    lemma_gathered_again(s.out, s.start, s.limit, around, around.len());
                    lemma_walk_reads(image, s, hubs, i + 1, ids);
                } else {
                    match members_at(image, c) {
                        Err(e) => {},
                        Ok(more) => {
                            let out = gathered(s.out, s.start, s.limit, more, more.len());
                            let further = Search { seen: s.seen.insert(c), out, ..s };
                            lemma_gathered_keeps(s.out, s.start, s.limit, more, more.len());
                            if out.len() < s.limit {
                                assert forall|j: int|
                                    0 <= j < ids.len() && ids[j]
                                        != s.start implies out.contains(#[trigger] ids[j]) by {
                                    assert(s.out.contains(ids[j]));
                                }
                                lemma_walk_reads(image, further, hubs, i + 1, ids);
                            }
                        },
                    }
                }
            },
        }
    }
}

/// What was gathered stays.
proof fn lemma_gathered_keeps(out: Seq<u128>, start: u128, limit: nat, ids: Seq<u128>, k: nat)
    requires
        k <= ids.len(),
    ensures
        out.len() <= gathered(out, start, limit, ids, k).len(),
        forall|x: u128| out.contains(x) ==> #[trigger]
            gathered(out, start, limit, ids, k).contains(x),
    decreases k,
{
    if k > 0 {
        lemma_gathered_keeps(out, start, limit, ids, (k - 1) as nat);
        let before = gathered(out, start, limit, ids, (k - 1) as nat);
        let after = gathered(out, start, limit, ids, k);
        assert forall|x: u128| out.contains(x) implies #[trigger] after.contains(x) by {
            assert(before.contains(x));
            let j = choose|j: int| 0 <= j < before.len() && before[j] == x;
            assert(after[j] == x);
        }
    }
}

/// A search finds the first hub that the cluster lists, if there is one.
proof fn lemma_first_hub(image: Image, ids: Seq<u128>, i: nat)
    requires
        i <= ids.len(),
    ensures
        match first_hub(image, ids, i) {
            Some(hub) => exists|k: int|
                {
                    &&& i <= k < ids.len()
                    &&& #[trigger] ids[k] == hub
                    &&& hub_at(image, hub)
                    &&& forall|j: int| i <= j < k ==> !hub_at(image, #[trigger] ids[j])
                },
            None => forall|k: int| i <= k < ids.len() ==> !hub_at(image, #[trigger] ids[k]),
        },
    decreases ids.len() - i,
{
    if i < ids.len() {
        if hub_at(image, ids[i as int]) {
            assert(ids[i as int] == ids[i as int]);
        } else {
            lemma_first_hub(image, ids, i + 1);
        }
    }
}

/// Without a hub in the cluster of the start, only that cluster is searched.
pub proof fn law_similar_without_hubs(
    image: Image,
    start: u128,
    limit: nat,
    c: u32,
    ids: Seq<u128>,
)
    requires
        limit > 0,
        cluster_at(image, start) == Ok::<Option<u32>, Failure>(Some(c)),
        members_at(image, c) == Ok::<Seq<u128>, Failure>(ids),
        has_no_entry(image, start, ids),
    ensures
        similar(image, start, limit) == Ok::<Finding, Failure>(
            Finding { uuids: first_others(ids, start, limit), clusters: 1, hubs: 0 },
        ),
{
    let s = Search {
        start,
        limit,
        cluster: c,
        seen: set![c],
        out: gathered(Seq::empty(), start, limit, ids, ids.len()),
    };
    lemma_gathered_is_first(start, limit, ids, ids.len());
    assert(ids.take(ids.len() as int) =~= ids);
    lemma_scan_entry(image, s, ids, 0);
    lemma_first_hub(image, ids, 0);
}

/// A search reads in turn: the cluster of the start, and then the clusters of the hubs
/// that the entry hub is linked to, the strongest link first. What it finds are the first
/// different nodes of these, other than the start. It follows no more links than it needs
/// to find as many nodes as were asked for, and all of them if that does not do.
pub proof fn law_similar_reads_in_turn(
    image: Image,
    start: u128,
    limit: nat,
    c: u32,
    ids: Seq<u128>,
    entry: u128,
    links: Seq<(u128, u32)>,
)
    requires
        limit > 0,
        cluster_at(image, start) == Ok::<Option<u32>, Failure>(Some(c)),
        members_at(image, c) == Ok::<Seq<u128>, Failure>(ids),
        is_entry(image, start, ids, entry),
        links_at(image, entry) == Ok::<Seq<(u128, u32)>, Failure>(links),
    ensures
        similar(image, start, limit) matches Ok(f) ==> {
            let hubs = by_weight(links);
            &&& f.hubs <= hubs.len()
            &&& f.uuids == first_others(reading(image, ids, hubs, f.hubs), start, limit)
            &&& f.hubs < hubs.len() ==> f.uuids.len() == limit
            &&& f.hubs > 0 ==> first_others(
                reading(image, ids, hubs, (f.hubs - 1) as nat),
                start,
                limit,
            ).len() < limit
            &&& forall|j: int|
                0 <= j < f.hubs ==> {
                    &&& (#[trigger] cluster_at(image, hubs[j])) is Ok
                    &&& cluster_at(image, hubs[j])->Ok_0 is Some ==> members_at(
                        image,
                        cluster_at(image, hubs[j])->Ok_0->0,
                    ) is Ok
                }
        },
{
    let hubs = by_weight(links);
    let own = gathered(Seq::empty(), start, limit, ids, ids.len());
    let s = Search { start, limit, cluster: c, seen: set![c], out: own };
    assert(reading(image, ids, hubs, 0) == ids);
    lemma_gathered_is_first(start, limit, ids, ids.len());
    assert(ids.take(ids.len() as int) =~= ids);
    if own.len() < limit {
        lemma_gathered_all(start, limit, ids, ids.len());
        lemma_walk_reads(image, s, hubs, 0, ids);
        if !hub_at(image, start) {
            lemma_scan_entry(image, s, ids, 0);
            lemma_first_hub(image, ids, 0);
            let hub = first_hub(image, ids, 0)->0;
            let i = choose|i: int|
                {
                    &&& 0 <= i < ids.len()
                    &&& #[trigger] ids[i] == entry
                    &&& hub_at(image, entry)
                    &&& forall|j: int| 0 <= j < i ==> !hub_at(image, #[trigger] ids[j])
                };
            assert(hub_at(image, ids[i]));
            assert(first_hub(image, ids, 0) is Some);
            let k = choose|k: int|
                {
                    &&& 0 <= k < ids.len()
                    &&& #[trigger] ids[k] == hub
                    &&& hub_at(image, hub)
                    &&& forall|j: int| 0 <= j < k ==> !hub_at(image, #[trigger] ids[j])
                };
            assert(i == k) by {
                if i < k {
                    assert(!hub_at(image, ids[i]));
                } else if k < i {
                    assert(!hub_at(image, ids[k]));
                }
            }
        }
        match similar(image, start, limit) {
            Err(e) => {},
            Ok(f) => {
                assert(walk(image, s, hubs, 0) == Ok::<Finding, Failure>(f));
                let read = reading(image, ids, hubs, f.hubs);
                lemma_gathered_is_first(start, limit, read, read.len());
                assert(read.take(read.len() as int) =~= read);
                if f.hubs > 0 {
                    let less = reading(image, ids, hubs, (f.hubs - 1) as nat);
                    lemma_gathered_is_first(start, limit, less, less.len());
                    assert(less.take(less.len() as int) =~= less);
                }
            },
        }
    }
}

/// What is read of `k` hubs holds what is around each of them.
proof fn lemma_reading_holds(
    image: Image,
    ids: Seq<u128>,
    hubs: Seq<u128>,
    k: nat,
    j: int,
    x: u128,
)
    requires
        0 <= j < k <= hubs.len(),
        nodes_around(image, hubs[j]).contains(x),
    ensures
        reading(image, ids, hubs, k).contains(x),
    decreases k,
{
    let before = reading(image, ids, hubs, (k - 1) as nat);
    let around = nodes_around(image, hubs[k - 1]);
    let now = reading(image, ids, hubs, k);
    if j < k - 1 {
        lemma_reading_holds(image, ids, hubs, (k - 1) as nat, j, x);
        let p = choose|p: int| 0 <= p < before.len() && before[p] == x;
        assert(now[p] == x);
    } else {
        let p = choose|p: int| 0 <= p < around.len() && around[p] == x;
        assert(now[before.len() + p] == x);
    }
}

/// What is read holds the nodes that are read first.
proof fn lemma_reading_starts(image: Image, ids: Seq<u128>, hubs: Seq<u128>, k: nat, x: u128)
    requires
        ids.contains(x),
    ensures
        reading(image, ids, hubs, k).contains(x),
    decreases k,
{
    if k > 0 {
        lemma_reading_starts(image, ids, hubs, (k - 1) as nat, x);
        let before = reading(image, ids, hubs, (k - 1) as nat);
        let p = choose|p: int| 0 <= p < before.len() && before[p] == x;
        assert(reading(image, ids, hubs, k)[p] == x);
    }
}

/// Of a list, the first different nodes other than the start are all of them, if they are
/// fewer than the limit.
proof fn lemma_first_others_all(list: Seq<u128>, start: u128, limit: nat, x: u128)
    requires
        list.contains(x),
        x != start,
        first_others(list, start, limit).len() < limit,
    ensures
        first_others(list, start, limit).contains(x),
{
    let keep = other_than(start);
    let kept = list.filter(keep);
    lemma_distinct(kept);
    let p = choose|p: int| 0 <= p < list.len() && list[p] == x;
    list.filter_lemma(keep);
    assert(keep(list[p]));
    assert(kept.contains(list[p]));
    assert(distinct(kept).contains(x));
}

/// A search that succeeds with fewer nodes than were asked for has found everything near:
/// every other node of the cluster of the start; and where a hub is the start or in its
/// cluster, it has followed every link of the entry hub, and found every other node of
/// every cluster that one of the linked hubs is in.
pub proof fn law_similar_is_complete(
    image: Image,
    start: u128,
    limit: nat,
    c: u32,
    ids: Seq<u128>,
    f: Finding,
)
    requires
        cluster_at(image, start) == Ok::<Option<u32>, Failure>(Some(c)),
        members_at(image, c) == Ok::<Seq<u128>, Failure>(ids),
        similar(image, start, limit) == Ok::<Finding, Failure>(f),
        f.uuids.len() < limit,
    ensures
        forall|x: u128| #[trigger] ids.contains(x) && x != start ==> f.uuids.contains(x),
        forall|entry: u128| #[trigger]
            is_entry(image, start, ids, entry) ==> {
                &&& links_at(image, entry) is Ok
                &&& f.hubs == links_at(image, entry)->Ok_0.len()
                &&& forall|j: int, x: u128|
                    0 <= j < f.hubs && #[trigger] nodes_around(
                        image,
                        links_at(image, entry)->Ok_0[j].0,
                    ).contains(x) && x != start ==> f.uuids.contains(x)
            },
{
    if has_no_entry(image, start, ids) {
        law_similar_without_hubs(image, start, limit, c, ids);
        assert forall|x: u128| #[trigger] ids.contains(x) && x != start implies f.uuids.contains(
            x,
        ) by {
            lemma_first_others_all(ids, start, limit, x);
        }
        assert forall|entry: u128| #[trigger] is_entry(image, start, ids, entry) implies false by {
            let i = choose|i: int|
                {
                    &&& 0 <= i < ids.len()
                    &&& #[trigger] ids[i] == entry
                    &&& hub_at(image, entry)
                    &&& forall|j: int| 0 <= j < i ==> !hub_at(image, #[trigger] ids[j])
                };
            assert(!hub_at(image, ids[i]));
        }
    } else {
        let own = gathered(Seq::empty(), start, limit, ids, ids.len());
        let s = Search { start, limit, cluster: c, seen: set![c], out: own };
        lemma_first_hub(image, ids, 0);
        lemma_scan_entry(image, s, ids, 0);
        let entry = if hub_at(image, start) {
            start
        } else {
            first_hub(image, ids, 0)->0
        };
        assert(is_entry(image, start, ids, entry)) by {
            if !hub_at(image, start) {
                let k = choose|k: int|
                    {
                        &&& 0 <= k < ids.len()
                        &&& #[trigger] ids[k] == entry
                        &&& hub_at(image, entry)
                        &&& forall|j: int| 0 <= j < k ==> !hub_at(image, #[trigger] ids[j])
                    };
                assert(ids[k] == entry);
            }
        }
        assert(links_at(image, entry) is Ok);
        let links = links_at(image, entry)->Ok_0;
        let hubs = by_weight(links);
        law_similar_reads_in_turn(image, start, limit, c, ids, entry, links);
        lemma_links_short(image, entry);
        lemma_by_weight(links);
        assert(f.hubs == hubs.len());
        let read = reading(image, ids, hubs, f.hubs);
        assert forall|x: u128| #[trigger] ids.contains(x) && x != start implies f.uuids.contains(
            x,
        ) by {
            lemma_reading_starts(image, ids, hubs, f.hubs, x);
            lemma_first_others_all(read, start, limit, x);
        }
        assert forall|other: u128| #[trigger] is_entry(image, start, ids, other) implies other
            == entry by {
            lemma_one_entry(image, start, ids, entry, other);
        }
        assert forall|j: int, x: u128|
            0 <= j < f.hubs && #[trigger] nodes_around(image, links[j].0).contains(x) && x
                != start implies f.uuids.contains(x) by {
            let p = choose|p: int| 0 <= p < hubs.len() && hubs[p] == (#[trigger] links[j]).0;
            assert(hubs.contains(links[j].0));
            lemma_reading_holds(image, ids, hubs, f.hubs, p, x);
            lemma_first_others_all(read, start, limit, x);
        }
    }
}

/// There is one way in at most.
proof fn lemma_one_entry(image: Image, start: u128, ids: Seq<u128>, a: u128, b: u128)
    requires
        is_entry(image, start, ids, a),
        is_entry(image, start, ids, b),
    ensures
        a == b,
{
    if !hub_at(image, start) {
        let i = choose|i: int|
            {
                &&& 0 <= i < ids.len()
                &&& #[trigger] ids[i] == a
                &&& hub_at(image, a)
                &&& forall|j: int| 0 <= j < i ==> !hub_at(image, #[trigger] ids[j])
            };
        let k = choose|k: int|
            {
                &&& 0 <= k < ids.len()
                &&& #[trigger] ids[k] == b
                &&& hub_at(image, b)
                &&& forall|j: int| 0 <= j < k ==> !hub_at(image, #[trigger] ids[j])
            };
        if i < k {
            assert(!hub_at(image, ids[i]));
        } else if k < i {
            assert(!hub_at(image, ids[k]));
        }
    }
}

/// How strong a weight is: what a single-precision number with these bits is ordered by.
pub open spec fn strength(weight: u32) -> int {
    if weight < 0x8000_0000 {
        weight as int
    } else {
        -(weight - 0x8000_0000)
    }
}

/// `order` names the places of the links, each once, the strongest first, and of equally
/// strong ones the first one first.
pub open spec fn is_strength_order(links: Seq<(u128, u32)>, order: Seq<int>) -> bool {
    &&& order.len() == links.len()
    &&& order.no_duplicates()
    &&& forall|i: int| 0 <= i < order.len() ==> 0 <= (#[trigger] order[i]) < links.len()
    &&& forall|i: int, j: int|
        0 <= i < j < order.len() ==> {
            ||| strength(links[#[trigger] order[i]].1) > strength(links[#[trigger] order[j]].1)
            ||| strength(links[order[i]].1) == strength(links[order[j]].1) && order[i] < order[j]
        }
}

/// Links are followed from the strongest to the weakest.
pub proof fn law_links_by_strength(links: Seq<(u128, u32)>)
    requires
        links.len() <= usize::MAX,
    ensures
        exists|order: Seq<int>|
            #![trigger is_strength_order(links, order)]
            is_strength_order(links, order) && by_weight(links) == order.map_values(
                |p: int| links[p].0,
            ),
{
    let keyed = weighted_places(links);
    lemma_place_order();
    keyed.lemma_sort_by_ensures(place_order());
    let sorted = keyed.sort_by(place_order());
    crate::sort::lemma_sorted_items(keyed, sorted);
    let order = sorted.map_values(|x: (u128, usize)| x.1 as int);
    assert forall|i: int| 0 <= i < sorted.len() implies (#[trigger] sorted[i]).1 < links.len()
        && sorted[i].0 == lightness(links[sorted[i].1 as int].1) by {
        assert(sorted.contains(sorted[i]));
        assert(keyed.contains(sorted[i]));
        let h = choose|h: int| 0 <= h < keyed.len() && keyed[h] == sorted[i];
        assert(keyed[h].1 == h);
    }
    assert forall|i: int, j: int| 0 <= i < j < order.len() implies ({
        ||| strength(links[#[trigger] order[i]].1) > strength(links[#[trigger] order[j]].1)
        ||| strength(links[order[i]].1) == strength(links[order[j]].1) && order[i] < order[j]
    }) by {
        law_strongest_first(links, i, j);
        assert(sorted[i].0 == lightness(links[sorted[i].1 as int].1));
        assert(sorted[j].0 == lightness(links[sorted[j].1 as int].1));
        assert(keyed.no_duplicates());
        assert(sorted[i] != sorted[j]);
    }
    assert(is_strength_order(links, order)) by {
        assert forall|i: int| 0 <= i < order.len() implies 0 <= (#[trigger] order[i])
            < links.len() by {
            assert(sorted[i].1 < links.len());
        }
        assert forall|i: int, j: int|
            0 <= i < order.len() && 0 <= j < order.len() && i != j implies order[i]
            != order[j] by {
            if i < j {
                assert(order[i] == order[i] && order[j] == order[j]);
            }
        }
    }
    assert(by_weight(links) =~= order.map_values(|p: int| links[p].0));
}

/// Every link is followed in some turn.
proof fn lemma_by_weight(links: Seq<(u128, u32)>)
    requires
        links.len() <= usize::MAX,
    ensures
        by_weight(links).len() == links.len(),
        forall|j: int|
            0 <= j < links.len() ==> by_weight(links).contains((#[trigger] links[j]).0),
{
    let keyed = weighted_places(links);
    lemma_place_order();
    keyed.lemma_sort_by_ensures(place_order());
    let sorted = keyed.sort_by(place_order());
    crate::sort::lemma_sorted_items(keyed, sorted);
    let hubs = by_weight(links);
    assert forall|j: int| 0 <= j < links.len() implies hubs.contains((#[trigger] links[j]).0) by {
        assert(keyed[j].1 == j);
        assert(keyed.contains(keyed[j]));
        assert(sorted.contains(keyed[j]));
        let i = choose|i: int| 0 <= i < sorted.len() && sorted[i] == keyed[j];
        assert(hubs[i] == links[j].0);
    }
}

/// A stored list of links is no longer than its length can say.
proof fn lemma_links_short(image: Image, id: u128)
    ensures
        links_at(image, id) matches Ok(links) ==> links.len() <= u32::MAX,
{
    match stored(image, Table::HubNeighbors, node_key(id)) {
        None => {},
        Some(bytes) => {
            match list_body(bytes, "hub_neighbors"@, 20) {
                Ok((body, n)) => {
                    lemma_pow256();
                    lemma_le_value_bound(body.take(4));
                    lemma_link_count(body, "hub_neighbors"@, n);
                },
                Err(e) => {},
            }
        },
    }
}

proof fn lemma_link_count(body: Seq<u8>, context: Seq<char>, k: nat)
    ensures
        link_entries(body, context, k) matches Ok(links) ==> links.len() == k,
    decreases k,
{
    if k > 0 {
        lemma_link_count(body, context, (k - 1) as nat);
    }
}


/// Everything that the store holds of nodes, clusters and links can be read.
pub open spec fn is_readable(image: Image) -> bool {
    &&& forall|x: u128| (#[trigger] cluster_at(image, x)) is Ok
    &&& forall|c: u32| (#[trigger] members_at(image, c)) is Ok
    &&& forall|x: u128| (#[trigger] links_at(image, x)) is Ok
}

proof fn lemma_walk_succeeds(image: Image, s: Search, hubs: Seq<u128>, i: nat)
    requires
        is_readable(image),
    ensures
        walk(image, s, hubs, i) is Ok,
    decreases hubs.len() - i,
{
    reveal_with_fuel(walk, 2);
    reveal_with_fuel(walk_into, 2);
    if i < hubs.len() {
        assert(cluster_at(image, hubs[i as int]) is Ok);
        match cluster_at(image, hubs[i as int])->Ok_0 {
            None => {
                lemma_walk_succeeds(image, s, hubs, i + 1);
            },
            Some(c) => {
                assert(members_at(image, c) is Ok);
                let ids = members_at(image, c)->Ok_0;
                let out = gathered(s.out, s.start, s.limit, ids, ids.len());
                let further = Search { seen: s.seen.insert(c), out, ..s };
                lemma_walk_succeeds(image, s, hubs, i + 1);
                lemma_walk_succeeds(image, further, hubs, i + 1);
            },
        }
    }
}

/// Queries succeed on a store that can be read. The cluster of a node that is known is
/// found whole, in the order in which it is listed, and a node that is not known finds
/// nothing, nor does a search for no nodes.
pub proof fn law_queries_succeed(image: Image, start: u128, limit: nat)
    requires
        is_readable(image),
    ensures
        similar(image, start, limit) is Ok,
        same_cluster(image, start) is Ok,
        limit == 0 ==> similar(image, start, limit)->Ok_0.uuids.len() == 0,
        match cluster_at(image, start)->Ok_0 {
            None => {
                &&& similar(image, start, limit)->Ok_0 == same_cluster(image, start)->Ok_0
                &&& same_cluster(image, start)->Ok_0.uuids.len() == 0
                &&& same_cluster(image, start)->Ok_0.clusters == 0
                &&& same_cluster(image, start)->Ok_0.hubs == 0
            },
            Some(c) => {
                &&& same_cluster(image, start)->Ok_0.uuids == members_at(image, c)->Ok_0
                &&& same_cluster(image, start)->Ok_0.clusters == 1
                &&& same_cluster(image, start)->Ok_0.hubs == 0
            },
        },
{
    assert(cluster_at(image, start) is Ok);
    match cluster_at(image, start)->Ok_0 {
        None => {},
        Some(c) => {
            assert(members_at(image, c) is Ok);
            let ids = members_at(image, c)->Ok_0;
            let out = gathered(Seq::empty(), start, limit, ids, ids.len());
            let s = Search { start, limit, cluster: c, seen: set![c], out };
            lemma_scan_entry(image, s, ids, 0);
            let entry = if hub_at(image, start) {
                start
            } else {
                match first_hub(image, ids, 0) {
                    Some(id) => id,
                    None => start,
                }
            };
            assert(links_at(image, entry) is Ok);
            lemma_walk_succeeds(image, s, by_weight(links_at(image, entry)->Ok_0), 0);
        },
    }
}

} // verus!
