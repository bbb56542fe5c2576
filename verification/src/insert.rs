//! Adding a node to a stored index.
//!
//! An [`Insert`] works as a query does: it says which value of the store it wants next,
//! takes what the store holds, and goes on until it has its result, which is the
//! cluster of the new node and the values to write. They are to be written together or
//! not at all.
//!
//! The new node joins the cluster that most of its neighbors are in, the one with the
//! lowest number if several are tied. If none of its neighbors is known it gets a
//! cluster of its own.
use crate::bytes::le_bytes;
use crate::codec::{
    cluster_drift_bytes, cluster_meta_bytes, corrupt, encode_cluster_drift, encode_cluster_meta,
    encode_u32, encode_uuid_vec, uuid_key, uuid_vec_bytes, values, Failure, SwIndexError,
};
use crate::distinct::{lemma_orderly, orderly};
use crate::id::{hyphenated, Uuid7};
use crate::index::{
    allocate_next_cluster_id, cluster_drift, cluster_key, cluster_meta, cluster_of, drift_in,
    entries, key_bytes, meta_in, next_cluster, node_key, number_in, raw_value, region_of, stored,
    Entry, Image, Table, Write,
};
use crate::node::Node;
use crate::query::{cluster_at, holds, members_at, read_members};
use crate::text::text;
use std::collections::BTreeMap;
use vstd::prelude::*;
use vstd::string::StringExecFns;

verus! {

/// How many of the votes are for `c`.
pub open spec fn votes_for(votes: Seq<u32>, c: u32) -> nat
    decreases votes.len(),
{
    if votes.len() == 0 {
        0
    } else {
        votes_for(votes.drop_last(), c) + if votes.last() == c {
            1nat
        } else {
            0
        }
    }
}

/// `c` has votes, no other has more, and none below it has as many.
pub open spec fn is_winner(votes: Seq<u32>, c: u32) -> bool {
    &&& votes_for(votes, c) > 0
    &&& forall|d: u32|
        (#[trigger] votes_for(votes, d)) < votes_for(votes, c) || (votes_for(votes, d)
            == votes_for(votes, c) && c <= d)
}

/// The winner of a vote.
pub open spec fn winner(votes: Seq<u32>) -> u32 {
    choose|c: u32| is_winner(votes, c)
}

proof fn lemma_winner(votes: Seq<u32>, c: u32)
    requires
        is_winner(votes, c),
    ensures
        winner(votes) == c,
{
    let w = winner(votes);
    assert(is_winner(votes, w));
    assert(votes_for(votes, w) < votes_for(votes, c) || (votes_for(votes, w) == votes_for(votes, c)
        && c <= w));
    assert(votes_for(votes, c) < votes_for(votes, w) || (votes_for(votes, c) == votes_for(votes, w)
        && w <= c));
}

proof fn lemma_votes_bounded(votes: Seq<u32>, c: u32)
    ensures
        votes_for(votes, c) <= votes.len(),
    decreases votes.len(),
{
    if votes.len() > 0 {
        lemma_votes_bounded(votes.drop_last(), c);
    }
}

/// The winner of a vote has the most votes, and the lowest number of those that have as
/// many.
pub proof fn law_winner_has_most_votes(votes: Seq<u32>)
    requires
        votes.len() > 0,
    ensures
        is_winner(votes, winner(votes)),
    decreases votes.len(),
{
    let front = votes.drop_last();
    let c = votes.last();
    assert forall|d: u32| #[trigger] votes_for(votes, d) == votes_for(front, d) + if d == c {
        1nat
    } else {
        0
    } by {}
    if front.len() == 0 {
        assert forall|d: u32|
            (#[trigger] votes_for(votes, d)) < votes_for(votes, c) || (votes_for(votes, d)
                == votes_for(votes, c) && c <= d) by {
            lemma_votes_bounded(front, d);
        }
        assert(is_winner(votes, c));
    } else {
        law_winner_has_most_votes(front);
        let b = winner(front);
        let w = if votes_for(votes, c) > votes_for(votes, b) || (votes_for(votes, c) == votes_for(
            votes,
            b,
        ) && c < b) {
            c
        } else {
            b
        };
        assert forall|d: u32|
            (#[trigger] votes_for(votes, d)) < votes_for(votes, w) || (votes_for(votes, d)
                == votes_for(votes, w) && w <= d) by {
            assert(votes_for(front, d) < votes_for(front, b) || (votes_for(front, d) == votes_for(
                front,
                b,
            ) && b <= d));
        }
        assert(is_winner(votes, w));
    }
}

/// The place of `id` in an ascending list: before the first node that is greater.
pub open spec fn place_for(ids: Seq<u128>, id: u128) -> nat
    decreases ids.len(),
{
    if ids.len() == 0 || ids[0] > id {
        0
    } else {
        1 + place_for(ids.drop_first(), id)
    }
}

/// An ascending list with `id` in its place.
pub open spec fn sorted_in(ids: Seq<u128>, id: u128) -> Seq<u128> {
    ids.insert(place_for(ids, id) as int, id)
}

/// The error for a node that is there already.
pub open spec fn already_exists(id: u128) -> Failure {
    Failure::Corruption(
        "insert_node: uuid "@ + hyphenated(id) + " already exists in the index"@,
    )
}

/// The cluster of the new node and the values to write, or an error.
pub type Insertion = Result<(u32, Seq<Entry>), Failure>;

/// The insertion of the node `id` next to some neighbors, given the keys of the table
/// of cluster sizes.
pub open spec fn insertion(
    image: Image,
    keys: Seq<Seq<u8>>,
    id: u128,
    neighbors: Seq<u128>,
) -> Insertion {
    poll(image, keys, id, neighbors, 0, Seq::empty())
}

/// The neighbors from the place `i` on vote for their clusters; those that are not
/// known have no vote.
pub open spec fn poll(
    image: Image,
    keys: Seq<Seq<u8>>,
    id: u128,
    neighbors: Seq<u128>,
    i: nat,
    votes: Seq<u32>,
) -> Insertion
    decreases neighbors.len() - i,
{
    if i >= neighbors.len() {
        elect(image, keys, id, votes)
    } else {
        match cluster_at(image, neighbors[i as int]) {
            Err(e) => Err(e),
            Ok(None) => poll(image, keys, id, neighbors, i + 1, votes),
            Ok(Some(c)) => poll(image, keys, id, neighbors, i + 1, votes.push(c)),
        }
    }
}

/// The winner of the vote takes the node, or a new cluster does if there was no vote.
pub open spec fn elect(image: Image, keys: Seq<Seq<u8>>, id: u128, votes: Seq<u32>) -> Insertion {
    if votes.len() == 0 {
        found(image, keys, id)
    } else {
        join(image, id, winner(votes))
    }
}

/// A new cluster takes the node.
pub open spec fn found(image: Image, keys: Seq<Seq<u8>>, id: u128) -> Insertion {
    match next_cluster(keys) {
        Err(e) => Err(e),
        Ok(c) => join(image, id, c),
    }
}

/// Cluster `c` takes the node.
pub open spec fn join(image: Image, id: u128, c: u32) -> Insertion {
    match members_at(image, c) {
        Err(e) => Err(e),
        Ok(ids) => locate(image, id, c, ids),
    }
}

/// The region of a node.
pub open spec fn region_at(image: Image, id: u128) -> Result<Option<u32>, Failure> {
    number_in(stored(image, Table::UuidToRegion, node_key(id)), "region_of"@)
}

/// The node goes to the region of the first node of its cluster, or to region 0.
pub open spec fn locate(image: Image, id: u128, c: u32, ids: Seq<u128>) -> Insertion {
    if ids.len() == 0 {
        accept_new(image, id, c, ids, 0)
    } else {
        match region_at(image, ids[0]) {
            Err(e) => Err(e),
            Ok(None) => accept_new(image, id, c, ids, 0),
            Ok(Some(region)) => accept_new(image, id, c, ids, region),
        }
    }
}

/// The node must not be there already.
pub open spec fn accept_new(image: Image, id: u128, c: u32, ids: Seq<u128>, region: u32) -> Insertion {
    if stored(image, Table::UuidToCluster, node_key(id)) is Some || ids.contains(id) {
        Err(already_exists(id))
    } else if ids.len() + 1 > u32::MAX {
        Err(Failure::Corruption("vec len exceeds u32"@))
    } else {
        resize(image, id, c, uuid_vec_bytes(sorted_in(ids, id)), region)
    }
}

/// The size of the cluster grows by one.
pub open spec fn resize(image: Image, id: u128, c: u32, list: Seq<u8>, region: u32) -> Insertion {
    match meta_in(stored(image, Table::ClusterMeta, cluster_key(c))) {
        Err(e) => Err(e),
        Ok(meta) => {
            let (size, hub_count) = match meta {
                Some(m) => m,
                None => (0, 0),
            };
            if size == u32::MAX {
                Err(Failure::Corruption("cluster size overflow on insert"@))
            } else {
                record(image, id, c, list, region, (size + 1) as u32, hub_count)
            }
        },
    }
}

/// The inserts into the cluster grow by one.
pub open spec fn record(
    image: Image,
    id: u128,
    c: u32,
    list: Seq<u8>,
    region: u32,
    size: u32,
    hub_count: u32,
) -> Insertion {
    match drift_in(stored(image, Table::ClusterDrift, cluster_key(c))) {
        Err(e) => Err(e),
        Ok((generation, delta)) => if delta == u32::MAX {
            Err(Failure::Corruption("cluster_drift overflow on insert"@))
        } else {
            Ok(
                (
                    c,
                    insert_entries(
                        id,
                        c,
                        list,
                        region,
                        size,
                        hub_count,
                        generation,
                        (delta + 1) as u32,
                    ),
                ),
            )
        },
    }
}

/// The values to write.
pub open spec fn insert_entries(
    id: u128,
    c: u32,
    list: Seq<u8>,
    region: u32,
    size: u32,
    hub_count: u32,
    generation: u64,
    delta: u32,
) -> Seq<Entry> {
    seq![
        (Table::UuidToCluster, node_key(id), le_bytes(c as nat, 4)),
        (Table::UuidToRegion, node_key(id), le_bytes(region as nat, 4)),
        (Table::UuidIsHub, node_key(id), seq![0u8]),
        (Table::ClusterMembers, cluster_key(c), list),
        (Table::ClusterMeta, cluster_key(c), cluster_meta_bytes(size, hub_count)),
        (Table::ClusterDrift, cluster_key(c), cluster_drift_bytes(generation, delta)),
    ]
}

/// The votes so far, counted.
struct Ballot {
    counts: BTreeMap<u32, u64>,
    best: Option<u32>,
    cast: u64,
    votes: Ghost<Seq<u32>>,
}

impl Ballot {
    spec fn wf(&self) -> bool {
        &&& orderly::<u32>()
        &&& self.cast == self.votes@.len()
        &&& forall|c: u32|
            (#[trigger] self.counts@.contains_key(c)) <==> votes_for(self.votes@, c) > 0
        &&& forall|c: u32| #[trigger]
            self.counts@.contains_key(c) ==> self.counts@[c] == votes_for(self.votes@, c)
        &&& match self.best {
            None => self.votes@.len() == 0,
            Some(c) => self.votes@.len() > 0 && is_winner(self.votes@, c),
        }
    }

    fn new() -> (ballot: Self)
        ensures
            ballot.wf(),
            ballot.votes@ == Seq::<u32>::empty(),
    {
        broadcast use vstd::std_specs::btree::group_btree_axioms;

        proof {
            lemma_orderly();
        }
        Ballot { counts: BTreeMap::new(), best: None, cast: 0, votes: Ghost(Seq::empty()) }
    }

    /// How many votes `c` has.
    fn count(&self, c: u32) -> (n: u64)
        requires
            self.wf(),
        ensures
            n == votes_for(self.votes@, c),
    {
        broadcast use vstd::std_specs::btree::group_btree_axioms;

        match self.counts.get(&c) {
            Some(n) => *n,
            None => 0,
        }
    }

    /// One more vote.
    fn cast(self, c: u32) -> (after: Self)
        requires
            self.wf(),
            self.cast < u64::MAX,
        ensures
            after.wf(),
            after.votes@ == self.votes@.push(c),
    {
        broadcast use vstd::std_specs::btree::group_btree_axioms;

        let n: u64 = self.count(c);
        let ghost before = self.votes@;
        let ghost after = before.push(c);
        proof {
            lemma_votes_bounded(before, c);
            assert(after.drop_last() =~= before);
            assert forall|d: u32| #[trigger] votes_for(after, d) == votes_for(before, d) + if d
                == c {
                1nat
            } else {
                0
            } by {}
        }
        let leads = match self.best {
            None => {
                proof {
                    assert forall|d: u32| #[trigger] votes_for(before, d) == 0 by {
                        lemma_votes_bounded(before, d);
                    }
                }
                true
            },
            Some(b) => {
                let top: u64 = self.count(b);
                n + 1 > top || (n + 1 == top && c < b)
            },
        };
        let best: Option<u32> = if leads {
            Some(c)
        } else {
            self.best
        };
        proof {
            match self.best {
                None => {
                    assert forall|d: u32|
                        (#[trigger] votes_for(after, d)) < votes_for(after, c) || (votes_for(
                            after,
                            d,
                        ) == votes_for(after, c) && c <= d) by {
                        lemma_votes_bounded(before, d);
                    }
                },
                Some(b) => {
                    let w = best->0;
                    assert forall|d: u32|
                        (#[trigger] votes_for(after, d)) < votes_for(after, w) || (votes_for(
                            after,
                            d,
                        ) == votes_for(after, w) && w <= d) by {
                        assert(votes_for(before, d) < votes_for(before, b) || (votes_for(before, d)
                            == votes_for(before, b) && b <= d));
                        assert(votes_for(before, c) < votes_for(before, b) || (votes_for(before, c)
                            == votes_for(before, b) && b <= c));
                    }
                },
            }
        }
        let mut counts = self.counts;
        counts.insert(c, n + 1);
        Ballot { counts, best, cast: self.cast + 1, votes: Ghost(after) }
    }
}

/// An ascending list with `id` in its place.
fn place_in(ids: Vec<Uuid7>, id: Uuid7) -> (list: Vec<Uuid7>)
    ensures
        values(list@) == sorted_in(values(ids@), id@),
{
    let ghost all = values(ids@);
    let mut i: usize = 0;
    assert(all.skip(0) =~= all);
    while i < ids.len() && ids[i].as_uuid() <= id.as_uuid()
        invariant
            i <= ids@.len(),
            all == values(ids@),
            place_for(all, id@) == i + place_for(all.skip(i as int), id@),
        decreases ids@.len() - i,
    {
        proof {
            assert(all.skip(i as int)[0] == ids@[i as int]@);
            assert(all.skip(i as int).drop_first() =~= all.skip(i + 1));
        }
        i += 1;
    }
    proof {
        if i < ids@.len() {
            assert(all.skip(i as int)[0] == ids@[i as int]@);
        }
    }
    let mut list = ids;
    list.insert(i, id);
    assert(values(list@) =~= sorted_in(all, id@));
    list
}

/// Whether a list holds a node.
fn has_node(ids: &Vec<Uuid7>, id: Uuid7) -> (r: bool)
    ensures
        r == values(ids@).contains(id@),
{
    let ghost all = values(ids@);
    let mut i: usize = 0;
    while i < ids.len()
        invariant
            i <= ids@.len(),
            all == values(ids@),
            forall|j: int| 0 <= j < i ==> all[j] != id@,
        decreases ids@.len() - i,
    {
        assert(all[i as int] == ids@[i as int]@);
        if ids[i].as_uuid() == id.as_uuid() {
            return true;
        }
        i += 1;
    }
    false
}

/// The error for a node that is there already.
fn exists_already(id: Uuid7) -> (e: SwIndexError)
    ensures
        e@ == already_exists(id@),
{
    let mut message = text("insert_node: uuid ");
    message.append(id.to_string().as_str());
    message.append(" already exists in the index");
    SwIndexError::Corruption(message)
}

/// What an insertion came to.
pub struct Inserted {
    /// The cluster of the new node.
    pub cluster: u32,
    /// The values to write.
    pub writes: Vec<Write>,
}

/// A result, as a value.
pub open spec fn completed(r: Result<Inserted, SwIndexError>) -> Insertion {
    match r {
        Ok(done) => Ok((done.cluster, entries(done.writes@))),
        Err(e) => Err(e@),
    }
}

/// How far an insertion has come.
enum Step {
    Poll { id: Uuid7, neighbors: Vec<Uuid7>, at: usize, ballot: Ballot },
    Found { id: Uuid7 },
    Join { id: Uuid7, cluster: u32 },
    Locate { id: Uuid7, cluster: u32, ids: Vec<Uuid7> },
    Accept { id: Uuid7, cluster: u32, ids: Vec<Uuid7>, region: u32 },
    Resize { id: Uuid7, cluster: u32, list: Vec<u8>, region: u32 },
    Record { id: Uuid7, cluster: u32, list: Vec<u8>, region: u32, size: u32, hub_count: u32 },
    Done(Result<Inserted, SwIndexError>),
}

impl Step {
    spec fn wf(&self) -> bool {
        match self {
            Step::Poll { id, neighbors, at, ballot } => *at < neighbors@.len() && ballot.wf()
                && ballot.cast <= *at,
            Step::Locate { id, cluster, ids } => ids@.len() > 0,
            _ => true,
        }
    }

    spec fn wants(&self) -> Option<(Table, Seq<u8>)> {
        match self {
            Step::Poll { id, neighbors, at, ballot } => Some(
                (Table::UuidToCluster, node_key(neighbors@[*at as int]@)),
            ),
            Step::Found { id } => None,
            Step::Join { id, cluster } => Some((Table::ClusterMembers, cluster_key(*cluster))),
            Step::Locate { id, cluster, ids } => Some((Table::UuidToRegion, node_key(ids@[0]@))),
            Step::Accept { id, cluster, ids, region } => Some(
                (Table::UuidToCluster, node_key(id@)),
            ),
            Step::Resize { id, cluster, list, region } => Some(
                (Table::ClusterMeta, cluster_key(*cluster)),
            ),
            Step::Record { id, cluster, list, region, size, hub_count } => Some(
                (Table::ClusterDrift, cluster_key(*cluster)),
            ),
            Step::Done(r) => None,
        }
    }

    spec fn outcome(&self, image: Image, keys: Seq<Seq<u8>>) -> Insertion {
        match self {
            Step::Poll { id, neighbors, at, ballot } => poll(
                image,
                keys,
                id@,
                values(neighbors@),
                *at as nat,
                ballot.votes@,
            ),
            Step::Found { id } => found(image, keys, id@),
            Step::Join { id, cluster } => join(image, id@, *cluster),
            Step::Locate { id, cluster, ids } => locate(image, id@, *cluster, values(ids@)),
            Step::Accept { id, cluster, ids, region } => accept_new(
                image,
                id@,
                *cluster,
                values(ids@),
                *region,
            ),
            Step::Resize { id, cluster, list, region } => resize(
                image,
                id@,
                *cluster,
                list@,
                *region,
            ),
            Step::Record { id, cluster, list, region, size, hub_count } => record(
                image,
                id@,
                *cluster,
                list@,
                *region,
                *size,
                *hub_count,
            ),
            Step::Done(r) => completed(*r),
        }
    }

    spec fn phase(&self) -> nat {
        match self {
            Step::Poll { id, neighbors, at, ballot } => 7,
            Step::Found { id } => 6,
            Step::Join { id, cluster } => 5,
            Step::Locate { id, cluster, ids } => 4,
            Step::Accept { id, cluster, ids, region } => 3,
            Step::Resize { id, cluster, list, region } => 2,
            Step::Record { id, cluster, list, region, size, hub_count } => 1,
            Step::Done(r) => 0,
        }
    }

    spec fn rest(&self) -> nat {
        match self {
            Step::Poll { id, neighbors, at, ballot } => (neighbors@.len() - *at) as nat,
            _ => 0,
        }
    }

    /// The poll, from the place `at` on.
    fn poll_on(id: Uuid7, neighbors: Vec<Uuid7>, at: usize, ballot: Ballot) -> (step: Self)
        requires
            ballot.wf(),
            at <= neighbors@.len(),
            ballot.cast <= at,
        ensures
            step.wf(),
            forall|image: Image, keys: Seq<Seq<u8>>| #[trigger]
                step.outcome(image, keys) == poll(
                    image,
                    keys,
                    id@,
                    values(neighbors@),
                    at as nat,
                    ballot.votes@,
                ),
            step.phase() <= 7,
            step.phase() == 7 ==> step.rest() == neighbors@.len() - at,
    {
        if at < neighbors.len() {
            Step::Poll { id, neighbors, at, ballot }
        } else {
            match ballot.best {
                None => Step::Found { id },
                Some(cluster) => {
                    proof {
                        lemma_winner(ballot.votes@, cluster);
                    }
                    Step::Join { id, cluster }
                },
            }
        }
    }
}

/// An insertion on its way.
pub struct Insert {
    step: Step,
}

impl Insert {
    /// The insertion is in a state that it can reach.
    #[verifier::type_invariant]
    spec fn wf(&self) -> bool {
        self.step.wf()
    }

    /// The value of the store that is wanted next, if one is.
    pub closed spec fn wants(&self) -> Option<(Table, Seq<u8>)> {
        self.step.wants()
    }

    /// The keys of the table of cluster sizes are wanted next.
    pub closed spec fn wants_keys(&self) -> bool {
        self.step is Found
    }

    /// What the insertion will come to in a store with the given contents, whose table of
    /// cluster sizes has the given keys.
    pub closed spec fn outcome(&self, image: Image, keys: Seq<Seq<u8>>) -> Insertion {
        self.step.outcome(image, keys)
    }

    /// The stage of the insertion. It never rises, and is 0 when the insertion is done.
    pub closed spec fn stage(&self) -> nat {
        self.step.phase()
    }

    /// A bound on the values that are still wanted in this stage.
    pub closed spec fn left(&self) -> nat {
        self.step.rest()
    }

    /// Starts the insertion of a node next to some neighbors.
    pub fn new(node: &Node, seed_neighbors: &[Uuid7]) -> (insert: Self)
        ensures
            forall|image: Image, keys: Seq<Seq<u8>>| #[trigger]
                insert.outcome(image, keys) == insertion(
                    image,
                    keys,
                    node.id@,
                    values(seed_neighbors@),
                ),
    {
        let mut neighbors: Vec<Uuid7> = Vec::new();
        let mut i: usize = 0;
        while i < seed_neighbors.len()
            invariant
                i <= seed_neighbors@.len(),
                neighbors@ == seed_neighbors@.take(i as int),
            decreases seed_neighbors@.len() - i,
        {
            neighbors.push(seed_neighbors[i]);
            assert(seed_neighbors@.take(i + 1) =~= seed_neighbors@.take(i as int).push(
                seed_neighbors@[i as int],
            ));
            i += 1;
        }
        assert(seed_neighbors@.take(i as int) =~= seed_neighbors@);
        Insert { step: Step::poll_on(node.id, neighbors, 0, Ballot::new()) }
    }

    /// The table and the key of the value that is wanted next.
    pub fn wanted(&self) -> (r: Option<(Table, Vec<u8>)>)
        ensures
            match r {
                Some((table, key)) => self.wants() == Some((table, key@)),
                None => self.wants() is None,
            },
    {
        proof {
            use_type_invariant(self);
        }
        match &self.step {
            Step::Poll { id, neighbors, at, ballot } => Some(
                (Table::UuidToCluster, uuid_key(&neighbors[*at])),
            ),
            Step::Found { id } => None,
            Step::Join { id, cluster } => Some((Table::ClusterMembers, encode_u32(*cluster))),
            Step::Locate { id, cluster, ids } => Some((Table::UuidToRegion, uuid_key(&ids[0]))),
            Step::Accept { id, cluster, ids, region } => Some((Table::UuidToCluster, uuid_key(id))),
            Step::Resize { id, cluster, list, region } => Some(
                (Table::ClusterMeta, encode_u32(*cluster)),
            ),
            Step::Record { id, cluster, list, region, size, hub_count } => Some(
                (Table::ClusterDrift, encode_u32(*cluster)),
            ),
            Step::Done(r) => None,
        }
    }

    /// The table all of whose keys are wanted next: the one of the cluster sizes.
    pub fn keys_wanted(&self) -> (r: Option<Table>)
        ensures
            r == (if self.wants_keys() {
                Some(Table::ClusterMeta)
            } else {
                None
            }),
    {
        match &self.step {
            Step::Found { id } => Some(Table::ClusterMeta),
            _ => None,
        }
    }

    /// Takes what the store holds under the key that was wanted, and goes on.
    pub fn answer(self, raw: Option<&[u8]>) -> (next: Self)
        requires
            self.wants() is Some,
        ensures
            forall|image: Image, keys: Seq<Seq<u8>>|
                holds(image, self.wants(), raw_value(raw)) ==> #[trigger] next.outcome(image, keys)
                    == self.outcome(image, keys),
            next.stage() < self.stage() || (next.stage() == self.stage() && next.left()
                < self.left()),
    {
        proof {
            use_type_invariant(&self);
        }
        let Insert { step } = self;
        Insert { step: next_step(step, raw) }
    }

    /// Takes the keys of the table of cluster sizes, and goes on.
    pub fn answer_keys(self, keys: &[Vec<u8>]) -> (next: Self)
        requires
            self.wants_keys(),
        ensures
            forall|image: Image| #[trigger]
                next.outcome(image, key_bytes(keys@)) == self.outcome(image, key_bytes(keys@)),
            next.stage() < self.stage(),
    {
        let Insert { step } = self;
        match step {
            Step::Found { id } => match allocate_next_cluster_id(keys) {
                Ok(cluster) => Insert { step: Step::Join { id, cluster } },
                Err(e) => Insert { step: Step::Done(Err(e)) },
            },
            other => {
                proof {
                    assert(false);
                }
                Insert { step: Step::Done(Err(corrupt("no keys are wanted"))) }
            },
        }
    }

    /// The result of an insertion that is done.
    pub fn result(self) -> (r: Result<Inserted, SwIndexError>)
        requires
            self.wants() is None,
            !self.wants_keys(),
        ensures
            forall|image: Image, keys: Seq<Seq<u8>>|
                completed(r) == #[trigger] self.outcome(image, keys),
    {
        let Insert { step } = self;
        match step {
            Step::Done(r) => r,
            _ => {
                proof {
                    assert(false);
                }
                Err(corrupt("the insertion is not done"))
            },
        }
    }
}

/// The next step, given what the store holds under the key that was wanted.
fn next_step(step: Step, raw: Option<&[u8]>) -> (next: Step)
    requires
        step.wf(),
        step.wants() is Some,
    ensures
        next.wf(),
        forall|image: Image, keys: Seq<Seq<u8>>|
            holds(image, step.wants(), raw_value(raw)) ==> #[trigger] next.outcome(image, keys)
                == step.outcome(image, keys),
        next.phase() < step.phase() || (next.phase() == step.phase() && next.rest() < step.rest()),
{
    match step {
        Step::Poll { id, neighbors, at, ballot } => {
            assert(neighbors.len() == neighbors@.len());
            assert(values(neighbors@)[at as int] == neighbors@[at as int]@);
            match cluster_of(raw) {
                Err(e) => Step::Done(Err(e)),
                Ok(None) => Step::poll_on(id, neighbors, at + 1, ballot),
                Ok(Some(c)) => Step::poll_on(id, neighbors, at + 1, ballot.cast(c)),
            }
        },
        Step::Join { id, cluster } => match read_members(raw) {
            Err(e) => Step::Done(Err(e)),
            Ok(ids) => if ids.len() == 0 {
                Step::Accept { id, cluster, ids, region: 0 }
            } else {
                Step::Locate { id, cluster, ids }
            },
        },
        Step::Locate { id, cluster, ids } => {
            assert(values(ids@)[0] == ids@[0]@);
            match region_of(raw) {
                Err(e) => Step::Done(Err(e)),
                Ok(None) => Step::Accept { id, cluster, ids, region: 0 },
                Ok(Some(region)) => Step::Accept { id, cluster, ids, region },
            }
        },
        Step::Accept { id, cluster, ids, region } => {
            if raw.is_some() || has_node(&ids, id) {
                return Step::Done(Err(exists_already(id)));
            }
            let ghost all = values(ids@);
            let list = place_in(ids, id);
            proof {
                assert(values(list@).len() == list@.len());
                lemma_place_for(all, id@);
            }
            match encode_uuid_vec(list.as_slice()) {
                Err(e) => Step::Done(Err(e)),
                Ok(bytes) => Step::Resize { id, cluster, list: bytes, region },
            }
        },
        Step::Resize { id, cluster, list, region } => match cluster_meta(raw) {
            Err(e) => Step::Done(Err(e)),
            Ok(meta) => {
                let (size, hub_count): (u32, u32) = match meta {
                    Some(m) => m,
                    None => (0, 0),
                };
                if size == u32::MAX {
                    Step::Done(Err(corrupt("cluster size overflow on insert")))
                } else {
                    Step::Record { id, cluster, list, region, size: size + 1, hub_count }
                }
            },
        },
        Step::Record { id, cluster, list, region, size, hub_count } => match cluster_drift(raw) {
            Err(e) => Step::Done(Err(e)),
            Ok((generation, delta)) => if delta == u32::MAX {
                Step::Done(Err(corrupt("cluster_drift overflow on insert")))
            } else {
                let writes = insert_writes(
                    id,
                    cluster,
                    list,
                    region,
                    size,
                    hub_count,
                    generation,
                    delta + 1,
                );
                Step::Done(Ok(Inserted { cluster, writes }))
            },
        },
        other => other,
    }
}

pub proof fn lemma_place_for(ids: Seq<u128>, id: u128)
    ensures
        place_for(ids, id) <= ids.len(),
        forall|i: int| 0 <= i < place_for(ids, id) ==> ids[i] <= id,
        place_for(ids, id) < ids.len() ==> ids[place_for(ids, id) as int] > id,
    decreases ids.len(),
{
    if ids.len() > 0 && ids[0] <= id {
        let rest = ids.drop_first();
        lemma_place_for(rest, id);
        assert forall|i: int| 0 <= i < place_for(ids, id) implies ids[i] <= id by {
            if i > 0 {
                assert(ids[i] == rest[i - 1]);
            }
        }
        if place_for(ids, id) < ids.len() {
            assert(ids[place_for(ids, id) as int] == rest[place_for(rest, id) as int]);
        }
    }
}

/// The values to write.
fn insert_writes(
    id: Uuid7,
    c: u32,
    list: Vec<u8>,
    region: u32,
    size: u32,
    hub_count: u32,
    generation: u64,
    delta: u32,
) -> (writes: Vec<Write>)
    ensures
        entries(writes@) == insert_entries(
            id@,
            c,
            list@,
            region,
            size,
            hub_count,
            generation,
            delta,
        ),
{
    let ghost bytes = list@;
    let mut flag: Vec<u8> = Vec::new();
    flag.push(0);
    assert(flag@ =~= seq![0u8]);
    let mut writes: Vec<Write> = Vec::new();
    writes.push(Write { table: Table::UuidToCluster, key: uuid_key(&id), value: encode_u32(c) });
    writes.push(Write { table: Table::UuidToRegion, key: uuid_key(&id), value: encode_u32(region) });
    writes.push(Write { table: Table::UuidIsHub, key: uuid_key(&id), value: flag });
    writes.push(Write { table: Table::ClusterMembers, key: encode_u32(c), value: list });
    writes.push(
        Write {
            table: Table::ClusterMeta,
            key: encode_u32(c),
            value: encode_cluster_meta(size, hub_count),
        },
    );
    writes.push(
        Write {
            table: Table::ClusterDrift,
            key: encode_u32(c),
            value: encode_cluster_drift(generation, delta),
        },
    );
    assert(entries(writes@) =~= insert_entries(
        id@,
        c,
        bytes,
        region,
        size,
        hub_count,
        generation,
        delta,
    ));
    writes
}

/// How many places of a list of neighbors hold a node that the store has in cluster `c`.
pub open spec fn places_in(image: Image, neighbors: Seq<u128>, c: u32) -> nat {
    neighbors.filter(
        |x: u128| cluster_at(image, x) == Ok::<Option<u32>, Failure>(Some(c)),
    ).len()
}

/// Some neighbor is in a cluster of the store.
pub open spec fn some_known(image: Image, neighbors: Seq<u128>) -> bool {
    exists|i: int|
        0 <= i < neighbors.len() && (#[trigger] cluster_at(image, neighbors[i])) matches Ok(
            Some(_),
        )
}

/// The votes that were collected are those of the neighbors so far.
proof fn lemma_poll_counts(
    image: Image,
    keys: Seq<Seq<u8>>,
    id: u128,
    neighbors: Seq<u128>,
    i: nat,
    votes: Seq<u32>,
)
    requires
        i <= neighbors.len(),
        forall|c: u32| #[trigger]
            votes_for(votes, c) == places_in(image, neighbors.take(i as int), c),
        votes.len() > 0 <==> some_known(image, neighbors.take(i as int)),
        poll(image, keys, id, neighbors, i, votes) is Ok,
    ensures
        exists|all: Seq<u32>|
            {
                &&& poll(image, keys, id, neighbors, i, votes) == #[trigger] elect(
                    image,
                    keys,
                    id,
                    all,
                )
                &&& forall|c: u32| #[trigger]
                    votes_for(all, c) == places_in(image, neighbors, c)
                &&& all.len() > 0 <==> some_known(image, neighbors)
            },
    decreases neighbors.len() - i,
{
    reveal(Seq::filter);
    if i >= neighbors.len() {
        assert(neighbors.take(i as int) =~= neighbors);
        assert(poll(image, keys, id, neighbors, i, votes) == elect(image, keys, id, votes));
    } else {
        let before = neighbors.take(i as int);
        let now = neighbors.take((i + 1) as int);
        let x = neighbors[i as int];
        assert(now.drop_last() =~= before);
        assert(now.last() == x);
        assert forall|c: u32| #[trigger]
            places_in(image, now, c) == places_in(image, before, c) + if cluster_at(image, x)
            == Ok::<Option<u32>, Failure>(Some(c)) {
            1nat
        } else {
            0
        } by {}
        if some_known(image, before) {
            let j = choose|j: int|
                0 <= j < before.len() && (#[trigger] cluster_at(image, before[j])) matches Ok(
                    Some(c),
                );
            assert(cluster_at(image, now[j]) == cluster_at(image, before[j]));
        }
        match cluster_at(image, x) {
            Err(e) => {},
            Ok(None) => {
                if some_known(image, now) {
                    let j = choose|j: int|
                        0 <= j < now.len() && (#[trigger] cluster_at(image, now[j])) matches Ok(
                            Some(c),
                        );
                    assert(j < before.len());
                    assert(cluster_at(image, before[j]) == cluster_at(image, now[j]));
                }
                lemma_poll_counts(image, keys, id, neighbors, i + 1, votes);
            },
            Ok(Some(c)) => {
                let more = votes.push(c);
                assert(more.drop_last() =~= votes);
                assert forall|d: u32| #[trigger] votes_for(more, d) == places_in(
                    image,
                    now,
                    d,
                ) by {
                    assert(votes_for(votes, d) == places_in(image, before, d));
                    assert(places_in(image, now, d) == places_in(image, before, d) + if d == c {
                        1nat
                    } else {
                        0
                    });
                }
                assert(cluster_at(image, now[i as int]) matches Ok(Some(c)));
                lemma_poll_counts(image, keys, id, neighbors, i + 1, more);
            },
        }
    }
}

/// A node that is taken in takes the cluster that it names.
proof fn lemma_join_names(image: Image, id: u128, c: u32)
    ensures
        join(image, id, c) matches Ok((d, writes)) ==> d == c,
{
}

/// An insertion that succeeds goes by the neighbors. If the store has a cluster for some of
/// them, the node joins the cluster that most places in their list are in, and of those
/// with as many the one with the lowest number. If it has none, the node gets the first
/// cluster number above all in use.
pub proof fn law_insert_joins_the_majority(
    image: Image,
    keys: Seq<Seq<u8>>,
    id: u128,
    neighbors: Seq<u128>,
)
    ensures
        insertion(image, keys, id, neighbors) matches Ok((c, writes)) ==> {
            &&& some_known(image, neighbors) ==> places_in(image, neighbors, c) > 0 && forall|
                d: u32,
            |
                places_in(image, neighbors, c) > #[trigger] places_in(image, neighbors, d) || (
                places_in(image, neighbors, c) == places_in(image, neighbors, d) && c <= d)
            &&& !some_known(image, neighbors) ==> next_cluster(keys) == Ok::<u32, Failure>(c)
        },
{
    reveal(Seq::filter);
    let none = Seq::<u32>::empty();
    let start = neighbors.take(0);
    assert forall|c: u32| #[trigger] votes_for(none, c) == places_in(image, start, c) by {}
    if insertion(image, keys, id, neighbors) is Ok {
        lemma_poll_counts(image, keys, id, neighbors, 0, none);
        let all = choose|all: Seq<u32>|
            {
                &&& poll(image, keys, id, neighbors, 0, none) == #[trigger] elect(
                    image,
                    keys,
                    id,
                    all,
                )
                &&& forall|c: u32| #[trigger]
                    votes_for(all, c) == places_in(image, neighbors, c)
                &&& all.len() > 0 <==> some_known(image, neighbors)
            };
        let (c, writes) = insertion(image, keys, id, neighbors)->Ok_0;
        if all.len() > 0 {
            law_winner_has_most_votes(all);
            lemma_join_names(image, id, winner(all));
            assert(is_winner(all, c));
            assert(votes_for(all, c) == places_in(image, neighbors, c));
            assert forall|d: u32|
                places_in(image, neighbors, c) > #[trigger] places_in(image, neighbors, d) || (
                places_in(image, neighbors, c) == places_in(image, neighbors, d) && c <= d) by {
                assert(votes_for(all, d) == places_in(image, neighbors, d));
            }
        } else {
            lemma_join_names(image, id, next_cluster(keys)->Ok_0);
        }
    }
}

/// A node that has a cluster is not inserted again, whatever its neighbors.
pub proof fn law_insert_refuses_known(
    image: Image,
    keys: Seq<Seq<u8>>,
    id: u128,
    neighbors: Seq<u128>,
)
    requires
        stored(image, Table::UuidToCluster, node_key(id)) is Some,
    ensures
        insertion(image, keys, id, neighbors) is Err,
{
    lemma_poll_refuses(image, keys, id, neighbors, 0, Seq::empty());
}

proof fn lemma_poll_refuses(
    image: Image,
    keys: Seq<Seq<u8>>,
    id: u128,
    neighbors: Seq<u128>,
    i: nat,
    votes: Seq<u32>,
)
    requires
        stored(image, Table::UuidToCluster, node_key(id)) is Some,
    ensures
        poll(image, keys, id, neighbors, i, votes) is Err,
    decreases neighbors.len() - i,
{
    if i < neighbors.len() {
        match cluster_at(image, neighbors[i as int]) {
            Err(_) => {},
            Ok(None) => lemma_poll_refuses(image, keys, id, neighbors, i + 1, votes),
            Ok(Some(c)) => lemma_poll_refuses(
                image,
                keys,
                id,
                neighbors,
                i + 1,
                votes.push(c),
            ),
        }
    }
}

} // verus!
