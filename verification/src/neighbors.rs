//! The cluster graph in a store.
//!
//! A build stores for each cluster the clusters that it has edges to, with the weight
//! between them, so that corridors between clusters can be found without the graph.
use crate::bytes::{
    le_bytes, le_value, lemma_le_bytes_len, lemma_le_round_trip, lemma_pow256, push_le, read_le,
};
use crate::codec::{encode_u32, list_body, read_list_body, Failure, SwIndexError, FORMAT_V1};
use crate::community::is_cluster_list;
use crate::index::{cluster_key, entries, raw_value, Entry, Table, Write};
use crate::tally::ascending;
use vstd::prelude::*;

verus! {

/// The bytes of some neighbors, one after another.
pub open spec fn pair_bytes(list: Seq<(usize, u64)>) -> Seq<u8>
    decreases list.len(),
{
    if list.len() == 0 {
        Seq::empty()
    } else {
        pair_bytes(list.drop_last()) + (le_bytes(list.last().0 as nat, 4) + le_bytes(
            list.last().1 as nat,
            8,
        ))
    }
}

/// The stored form of the neighbors of a cluster.
pub open spec fn neighbor_bytes(list: Seq<(usize, u64)>) -> Seq<u8> {
    seq![FORMAT_V1] + le_bytes(list.len(), 4) + pair_bytes(list)
}

/// The neighbors can be stored.
pub open spec fn neighbors_fit(list: Seq<(usize, u64)>) -> bool {
    &&& list.len() <= u32::MAX
    &&& forall|i: int| 0 <= i < list.len() ==> (#[trigger] list[i]).0 <= u32::MAX
}

/// The `j`-th neighbor in the body of a stored list.
pub open spec fn neighbor_at(body: Seq<u8>, j: int) -> (usize, u64) {
    let base = 4 + 12 * j;
    (
        le_value(body.subrange(base, base + 4)) as usize,
        le_value(body.subrange(base + 4, base + 12)) as u64,
    )
}

/// The neighbors that a stored list holds.
pub open spec fn stored_neighbors(bytes: Seq<u8>) -> Result<Seq<(usize, u64)>, Failure> {
    match list_body(bytes, "cluster_neighbors"@, 12) {
        Err(e) => Err(e),
        Ok((body, n)) => Ok(Seq::new(n, |j: int| neighbor_at(body, j))),
    }
}

/// The neighbors in a value that was read; none if it was not there.
pub open spec fn neighbors_in(raw: Option<Seq<u8>>) -> Result<Seq<(usize, u64)>, Failure> {
    match raw {
        None => Ok(Seq::empty()),
        Some(bytes) => stored_neighbors(bytes),
    }
}

/// The value to write of the neighbors of cluster `c`.
pub open spec fn neighbor_entry(adjacency: Seq<Seq<(usize, u64)>>, c: int) -> Entry {
    (Table::ClusterNeighbors, cluster_key(c as u32), neighbor_bytes(adjacency[c]))
}

/// The values to write of the neighbors of all clusters.
pub open spec fn neighbor_entries(adjacency: Seq<Seq<(usize, u64)>>) -> Seq<Entry> {
    Seq::new(adjacency.len(), |c: int| neighbor_entry(adjacency, c))
}

/// The lists of neighbors, as values.
pub open spec fn list_values(adjacency: Seq<Vec<(usize, u64)>>) -> Seq<Seq<(usize, u64)>> {
    adjacency.map_values(|list: Vec<(usize, u64)>| list@)
}

/// The neighbors of a cluster, as they are in the cluster graph, can be stored if all
/// clusters can be numbered.
pub proof fn lemma_neighbors_fit(
    list: Seq<(usize, u64)>,
    m: Seq<Seq<int>>,
    labels: Seq<usize>,
    k: nat,
    c: int,
)
    requires
        is_cluster_list(list, m, labels, k, c),
        0 <= c < k <= 0x1_0000_0000,
    ensures
        neighbors_fit(list),
{
    assert forall|i: int| 0 <= i < list.len() implies (#[trigger] list[i]).0 <= u32::MAX by {
        assert(list[i].0 < k);
    }
    lemma_places(list, list.len());
    if list.len() > u32::MAX {
        assert(list[list.len() - 1].0 < k);
        assert(list.len() == k);
        lemma_places_below(list, k, c + 1);
        assert(list[c].0 == c);
        assert(list[c].0 != c);
    }
}

/// An ascending list has no key below its place.
proof fn lemma_places(list: Seq<(usize, u64)>, n: nat)
    requires
        ascending(list),
        n <= list.len(),
    ensures
        forall|i: int| 0 <= i < n ==> (#[trigger] list[i]).0 >= i,
    decreases n,
{
    if n > 1 {
        lemma_places(list, (n - 1) as nat);
        assert(list[n - 2].0 < list[n - 1].0);
    }
}

/// An ascending list of `k` keys below `k` has each at its place.
proof fn lemma_places_below(list: Seq<(usize, u64)>, k: nat, n: int)
    requires
        ascending(list),
        list.len() == k,
        1 <= n <= k,
        forall|i: int| 0 <= i < list.len() ==> (#[trigger] list[i]).0 < k,
    ensures
        list[n - 1].0 == n - 1,
    decreases k - n,
{
    lemma_places(list, k);
    if n < k {
        lemma_places_below(list, k, n + 1);
        assert(list[n - 1].0 < list[n].0);
    }
    assert(list[n - 1].0 >= n - 1);
}

/// The stored form of the neighbors of a cluster.
pub fn encode_cluster_neighbors(list: &Vec<(usize, u64)>) -> (out: Vec<u8>)
    requires
        neighbors_fit(list@),
    ensures
        out@ == neighbor_bytes(list@),
{
    let mut out: Vec<u8> = Vec::new();
    out.push(FORMAT_V1);
    push_le(&mut out, list.len() as u64, 4);
    let ghost head = out@;
    let mut i: usize = 0;
    assert(list@.take(0) =~= Seq::empty());
    while i < list.len()
        invariant
            i <= list@.len(),
            neighbors_fit(list@),
            out@ == head + pair_bytes(list@.take(i as int)),
        decreases list@.len() - i,
    {
        assert(list@[i as int].0 <= u32::MAX);
        push_le(&mut out, list[i].0 as u64, 4);
        push_le(&mut out, list[i].1, 8);
        proof {
            let now = list@.take(i + 1);
            assert(now.drop_last() =~= list@.take(i as int));
            assert(out@ =~= head + pair_bytes(now));
        }
        i += 1;
    }
    proof {
        assert(list@.take(i as int) =~= list@);
        assert(head =~= seq![FORMAT_V1] + le_bytes(list@.len(), 4));
    }
    out
}

/// The neighbors of a cluster, given what the store holds for it.
pub fn cluster_neighbors(raw: Option<&[u8]>) -> (r: Result<Vec<(usize, u64)>, SwIndexError>)
    ensures
        match (r, neighbors_in(raw_value(raw))) {
            (Ok(list), Ok(s)) => list@ == s,
            (Err(e), Err(f)) => e@ == f,
            _ => false,
        },
{
    let mut list: Vec<(usize, u64)> = Vec::new();
    let bytes = match raw {
        None => {
            return Ok(list);
        },
        Some(bytes) => bytes,
    };
    let (body, n) = match read_list_body(bytes, "cluster_neighbors", 12) {
        Ok(pair) => pair,
        Err(e) => {
            return Err(e);
        },
    };
    let mut j: usize = 0;
    assert(body.len() == body@.len());
    while j < n
        invariant
            j <= n,
            body@.len() == 4 + n * 12 <= usize::MAX,
            list@ == Seq::new(j as nat, |j: int| neighbor_at(body@, j)),
        decreases n - j,
    {
        let base: usize = 4 + j * 12;
        proof {
            lemma_pow256();
        }
        let other: usize = read_le(body, base, 4) as usize;
        let weight: u64 = read_le(body, base + 4, 8);
        list.push((other, weight));
        assert(list@ =~= Seq::new((j + 1) as nat, |j: int| neighbor_at(body@, j)));
        j += 1;
    }
    Ok(list)
}

/// The values to write of the neighbors of all clusters.
pub fn neighbor_writes(adjacency: &Vec<Vec<(usize, u64)>>) -> (writes: Vec<Write>)
    requires
        adjacency@.len() <= 0x1_0000_0000,
        forall|c: int| 0 <= c < adjacency@.len() ==> neighbors_fit((#[trigger] adjacency@[c])@),
    ensures
        entries(writes@) == neighbor_entries(list_values(adjacency@)),
{
    let ghost lists = list_values(adjacency@);
    let mut writes: Vec<Write> = Vec::new();
    let mut c: usize = 0;
    while c < adjacency.len()
        invariant
            c <= adjacency@.len() <= 0x1_0000_0000,
            forall|c: int|
                0 <= c < adjacency@.len() ==> neighbors_fit((#[trigger] adjacency@[c])@),
            lists == list_values(adjacency@),
            entries(writes@) =~= neighbor_entries(lists).take(c as int),
        decreases adjacency@.len() - c,
    {
        let ghost before = entries(writes@);
        assert(neighbors_fit(adjacency@[c as int]@));
        writes.push(
            Write {
                table: Table::ClusterNeighbors,
                key: encode_u32(c as u32),
                value: encode_cluster_neighbors(&adjacency[c]),
            },
        );
        proof {
            assert(lists[c as int] == adjacency@[c as int]@);
            assert(entries(writes@) =~= before.push(neighbor_entry(lists, c as int)));
        }
        c += 1;
    }
    assert(neighbor_entries(lists).take(c as int) =~= neighbor_entries(lists));
    writes
}

/// Where a neighbor stands among the bytes of a list.
proof fn lemma_pair_bytes(list: Seq<(usize, u64)>)
    ensures
        pair_bytes(list).len() == 12 * list.len(),
        forall|j: int|
            0 <= j < list.len() ==> pair_bytes(list).subrange(12 * j, 12 * j + 12) == le_bytes(
                (#[trigger] list[j]).0 as nat,
                4,
            ) + le_bytes(list[j].1 as nat, 8),
    decreases list.len(),
{
    if list.len() > 0 {
        let front = list.drop_last();
        lemma_pair_bytes(front);
        lemma_le_bytes_len(list.last().0 as nat, 4);
        lemma_le_bytes_len(list.last().1 as nat, 8);
        assert forall|j: int| 0 <= j < list.len() implies pair_bytes(list).subrange(
            12 * j,
            12 * j + 12,
        ) == le_bytes((#[trigger] list[j]).0 as nat, 4) + le_bytes(list[j].1 as nat, 8) by {
            if j < front.len() {
                assert(front[j] == list[j]);
                assert(pair_bytes(list).subrange(12 * j, 12 * j + 12) =~= pair_bytes(
                    front,
                ).subrange(12 * j, 12 * j + 12));
            } else {
                assert(pair_bytes(list).subrange(12 * j, 12 * j + 12) =~= le_bytes(
                    list[j].0 as nat,
                    4,
                ) + le_bytes(list[j].1 as nat, 8));
            }
        }
    }
}

/// The neighbors of a cluster that were stored read back as they were.
pub proof fn law_neighbors_round_trip(list: Seq<(usize, u64)>)
    requires
        neighbors_fit(list),
    ensures
        stored_neighbors(neighbor_bytes(list)) == Ok::<Seq<(usize, u64)>, Failure>(list),
{
    let bytes = neighbor_bytes(list);
    let head = le_bytes(list.len(), 4);
    let body = head + pair_bytes(list);
    lemma_pow256();
    lemma_le_round_trip(list.len(), 4);
    lemma_pair_bytes(list);
    assert(bytes.skip(1) =~= body);
    assert(body.take(4) =~= head);
    assert forall|j: int| 0 <= j < list.len() implies neighbor_at(body, j) == #[trigger] list[
        j
    ] by {
        let base = 4 + 12 * j;
        let (other, weight) = list[j];
        let piece = pair_bytes(list).subrange(12 * j, 12 * j + 12);
        assert(piece == le_bytes(other as nat, 4) + le_bytes(weight as nat, 8));
        lemma_le_round_trip(other as nat, 4);
        lemma_le_round_trip(weight as nat, 8);
        assert(body.subrange(base, base + 12) =~= piece);
        assert(body.subrange(base, base + 4) =~= le_bytes(other as nat, 4)) by {
            assert(body.subrange(base, base + 4) =~= piece.take(4));
        }
        assert(body.subrange(base + 4, base + 12) =~= le_bytes(weight as nat, 8)) by {
            assert(body.subrange(base + 4, base + 12) =~= piece.skip(4));
        }
    }
    assert(Seq::new(list.len(), |j: int| neighbor_at(body, j)) =~= list);
}

} // verus!
