//! Corridors: ordered lists of clusters that bridge two nodes.
//!
//! A corridor answers how two nodes are related without walking the whole graph:
//! one walks only the members of its clusters. A corridor is *connected* if one
//! node reaches the other inside it, and *optimal* if it holds a shortest path.
use crate::bfs::{
    discovered, distance, found_from, is_distance, lemma_distance, lemma_distinct_places,
    lemma_reach_has_distance, lemma_reach_join, lemma_reach_step, reach, search, step,
    targets_valid,
};
use crate::graph::Graph;
use crate::partition::{copy_labels, Partition};
use crate::tally::names;
use crate::weighted::{entries_valid, lists_of};
use vstd::prelude::*;

verus! {

/// Every node may be entered.
pub open spec fn everywhere(n: nat) -> Seq<bool> {
    Seq::new(n, |v: int| true)
}

/// The least number of steps between two nodes that does not leave `allowed`, if
/// both are nodes in it and the one reaches the other.
pub open spec fn distance_within(
    lists: Seq<Seq<(usize, u64)>>,
    allowed: Seq<bool>,
    from: int,
    to: int,
) -> Option<nat> {
    if 0 <= from < lists.len() && 0 <= to < lists.len() && allowed[from] && allowed[to] {
        distance(lists, allowed, from, to)
    } else {
        None
    }
}

/// `r` is the distance `d`, as a machine integer.
pub open spec fn same_distance(r: Option<usize>, d: Option<nat>) -> bool {
    match (r, d) {
        (Some(x), Some(y)) => x == y,
        (None, None) => true,
        _ => false,
    }
}

/// A list of `n` times `value`.
fn filled(n: usize, value: bool) -> (list: Vec<bool>)
    ensures
        list@ == Seq::new(n as nat, |v: int| value),
{
    let mut list: Vec<bool> = Vec::new();
    let mut i: usize = 0;
    while i < n
        invariant
            i <= n,
            list@ =~= Seq::new(i as nat, |v: int| value),
        decreases n - i,
    {
        list.push(value);
        i += 1;
    }
    list
}

/// A list of `n` unknown distances.
pub fn unknown(n: usize) -> (dist: Vec<Option<usize>>)
    ensures
        dist@.len() == n,
        forall|v: int| 0 <= v < n ==> (#[trigger] dist@[v]) is None,
{
    let mut dist: Vec<Option<usize>> = Vec::new();
    let mut i: usize = 0;
    while i < n
        invariant
            i <= n,
            dist@.len() == i,
            forall|v: int| 0 <= v < i ==> (#[trigger] dist@[v]) is None,
        decreases n - i,
    {
        dist.push(None);
        i += 1;
    }
    dist
}

/// The targets of valid lists are nodes.
pub proof fn lemma_targets(lists: Seq<Seq<(usize, u64)>>)
    requires
        forall|u: int| 0 <= u < lists.len() ==> entries_valid(#[trigger] lists[u], lists.len()),
    ensures
        targets_valid(lists),
{
    assert forall|u: int, i: int| 0 <= u < lists.len() && 0 <= i < lists[u].len() implies (
    #[trigger] lists[u][i]).0 < lists.len() by {
        assert(entries_valid(lists[u], lists.len()));
    }
}

/// The number of steps between two nodes that does not leave `allowed`.
pub fn bfs_distance_filtered(graph: &Graph, from: usize, to: usize, allowed: &Vec<bool>) -> (r:
    Option<usize>)
    requires
        graph.wf(),
        allowed@.len() == graph.ids().len(),
    ensures
        same_distance(r, distance_within(graph.lists(), allowed@, from as int, to as int)),
{
    let n: usize = graph.node_count();
    proof {
        graph.lemma_wf();
        lemma_targets(graph.lists());
    }
    if from >= n || to >= n {
        return None;
    }
    if !allowed[from] || !allowed[to] {
        return None;
    }
    let adj = graph.body().adjacency();
    let mut dist = unknown(n);
    let found = search(adj, allowed, from, usize::MAX, &mut dist);
    let ghost lists = graph.lists();
    let r = dist[to];
    proof {
        match r {
            Some(d) => {
                assert(dist@[to as int] is Some);
                lemma_distance(lists, allowed@, from as int, to as int, d as nat);
            },
            None => {
                if exists|d: nat| is_distance(lists, allowed@, from as int, to as int, d) {
                    let d = choose|d: nat| is_distance(lists, allowed@, from as int, to as int, d);
                    assert(reach(lists, allowed@, from as int, to as int, d));
                    assert(false);
                }
            },
        }
    }
    r
}

/// The number of steps between two nodes.
pub fn bfs_distance(graph: &Graph, from: usize, to: usize) -> (r: Option<usize>)
    requires
        graph.wf(),
    ensures
        same_distance(
            r,
            distance_within(
                graph.lists(),
                everywhere(graph.ids().len()),
                from as int,
                to as int,
            ),
        ),
{
    let allowed = filled(graph.node_count(), true);
    assert(allowed@ =~= everywhere(graph.ids().len()));
    bfs_distance_filtered(graph, from, to, &allowed)
}

/// The place of the node from which a search discovered the one at place `j`.
pub open spec fn discoverer(
    lists: Seq<Seq<(usize, u64)>>,
    allowed: Seq<bool>,
    s: usize,
    j: int,
) -> int {
    choose|h: int| 0 <= h < j && found_from(lists, allowed, s, j, h)
}

/// The path from `s` to the node at place `j` of `order`, through the nodes that
/// first discovered each other.
pub open spec fn path_to(
    lists: Seq<Seq<(usize, u64)>>,
    allowed: Seq<bool>,
    s: usize,
    order: Seq<usize>,
    j: int,
) -> Seq<usize>
    decreases j,
{
    if j <= 0 {
        seq![s]
    } else {
        let h = discoverer(lists, allowed, s, j);
        if 0 <= h < j {
            path_to(lists, allowed, s, order, h).push(order[j])
        } else {
            seq![s]
        }
    }
}

/// The nodes in the order in which a search from `s` discovers them.
pub open spec fn search_order(lists: Seq<Seq<(usize, u64)>>, s: usize) -> Seq<usize> {
    discovered(lists, everywhere(lists.len()), s, lists.len())
}

/// The corridor between two clusters: the path of first discoveries through the
/// cluster graph, if there is any.
pub open spec fn corridor_between(lists: Seq<Seq<(usize, u64)>>, from: usize, to: usize) -> Option<
    Seq<usize>,
> {
    let order = search_order(lists, from);
    if from < lists.len() && to < lists.len() && order.contains(to) {
        Some(path_to(lists, everywhere(lists.len()), from, order, order.index_of(to)))
    } else {
        None
    }
}

/// `path` leads from `from` to `to` along edges.
pub open spec fn leads(
    lists: Seq<Seq<(usize, u64)>>,
    path: Seq<usize>,
    from: usize,
    to: usize,
) -> bool {
    &&& path.len() > 0
    &&& path[0] == from
    &&& path.last() == to
    &&& forall|i: int|
        0 <= i < path.len() - 1 ==> path[i] < lists.len() && names(
            lists[path[i] as int],
            #[trigger] path[i + 1],
        )
}

/// The discoverer of a node is the one place that fits.
proof fn lemma_discoverer(
    lists: Seq<Seq<(usize, u64)>>,
    allowed: Seq<bool>,
    s: usize,
    j: int,
    h: int,
)
    requires
        0 <= h < j,
        found_from(lists, allowed, s, j, h),
    ensures
        discoverer(lists, allowed, s, j) == h,
{
    let g = discoverer(lists, allowed, s, j);
    assert(0 <= g < j && found_from(lists, allowed, s, j, g));
    if g < h {
        lemma_discovered_grows(lists, allowed, s, (g + 1) as nat, h as nat);
    } else if h < g {
        lemma_discovered_grows(lists, allowed, s, (h + 1) as nat, g as nat);
    }
}

/// Expanding more nodes never loses a discovery.
proof fn lemma_discovered_grows(
    lists: Seq<Seq<(usize, u64)>>,
    allowed: Seq<bool>,
    s: usize,
    h: nat,
    k: nat,
)
    requires
        h <= k,
    ensures
        discovered(lists, allowed, s, h).len() <= discovered(lists, allowed, s, k).len(),
    decreases k,
{
    if h < k {
        lemma_discovered_grows(lists, allowed, s, h, (k - 1) as nat);
        let before = discovered(lists, allowed, s, (k - 1) as nat);
        if k - 1 < before.len() {
            let list = lists[before[k - 1] as int];
            crate::bfs::lemma_grown(before, list, allowed, list.len());
        }
    }
}

/// Once every discovered node has been expanded, the order is final.
proof fn lemma_discovered_final(
    lists: Seq<Seq<(usize, u64)>>,
    allowed: Seq<bool>,
    s: usize,
    h: nat,
    k: nat,
)
    requires
        discovered(lists, allowed, s, h).len() <= h <= k,
    ensures
        discovered(lists, allowed, s, k) == discovered(lists, allowed, s, h),
    decreases k,
{
    if h < k {
        lemma_discovered_final(lists, allowed, s, h, (k - 1) as nat);
    }
}

/// The corridor between two clusters over the cluster graph `adjacency`.
pub fn cluster_corridor(
    adjacency: &Vec<Vec<(usize, u64)>>,
    from_cluster: usize,
    to_cluster: usize,
) -> (r: Option<Vec<usize>>)
    requires
        targets_valid(lists_of(adjacency@)),
    ensures
        match corridor_between(lists_of(adjacency@), from_cluster, to_cluster) {
            Some(path) => r is Some && r->0@ == path,
            None => r is None,
        },
        r is None <==> distance_within(
            lists_of(adjacency@),
            everywhere(adjacency@.len()),
            from_cluster as int,
            to_cluster as int,
        ) is None,
        r is Some ==> leads(lists_of(adjacency@), r->0@, from_cluster, to_cluster),
        r is Some ==> distance_within(
            lists_of(adjacency@),
            everywhere(adjacency@.len()),
            from_cluster as int,
            to_cluster as int,
        ) == Some((r->0@.len() - 1) as nat),
{
    let ghost lists = lists_of(adjacency@);
    let k: usize = adjacency.len();
    if from_cluster >= k || to_cluster >= k {
        return None;
    }
    let allowed = filled(k, true);
    let ghost all = everywhere(k as nat);
    assert(allowed@ =~= all);
    let mut dist = unknown(k);
    let found = search(adjacency, &allowed, from_cluster, usize::MAX, &mut dist);
    proof {
        lemma_distinct_places(found.order@, k as nat);
        lemma_discovered_final(
            lists,
            all,
            from_cluster,
            found.expanded as nat,
            k as nat,
        );
    }
    let ghost order = found.order@;
    assert(order == search_order(lists, from_cluster));
    let n_found: usize = found.order.len();
    let mut place: usize = 0;
    while place < n_found && found.order[place] != to_cluster
        invariant
            place <= n_found,
            n_found == found.order@.len(),
            forall|i: int| 0 <= i < place ==> found.order@[i] != to_cluster,
        decreases n_found - place,
    {
        place += 1;
    }
    if place == n_found {
        proof {
            assert(!order.contains(to_cluster));
            if exists|d: nat|
                is_distance(lists, all, from_cluster as int, to_cluster as int, d) {
                let d = choose|d: nat|
                    is_distance(lists, all, from_cluster as int, to_cluster as int, d);
                assert(reach(lists, all, from_cluster as int, to_cluster as int, d));
                assert(dist@[to_cluster as int] is Some);
                assert(false);
            }
        }
        return None;
    }
    proof {
        crate::distinct::lemma_index_of(order, place as int);
        assert(order.contains(to_cluster));
        assert(dist@[order[place as int] as int] is Some);
        lemma_distance(
            lists,
            all,
            from_cluster as int,
            to_cluster as int,
            dist@[to_cluster as int]->0 as nat,
        );
    }
    let ghost goal = path_to(lists, all, from_cluster, order, place as int);
    let ghost hops = dist@[to_cluster as int]->0;
    let mut back: Vec<usize> = Vec::new();
    let mut cur: usize = place;
    proof {
        assert(path_to(lists, all, from_cluster, order, cur as int) + back@.reverse() =~= goal);
    }
    while cur > 0
        invariant
            cur < order.len(),
            order == found.order@,
            lists == lists_of(adjacency@),
            all == allowed@,
            k == lists.len(),
            place < order.len(),
            order[place as int] == to_cluster,
            order[0] == from_cluster,
            found.parent@.len() == order.len(),
            goal == path_to(lists, all, from_cluster, order, cur as int) + back@.reverse(),
            forall|j: int|
                1 <= j < order.len() ==> (#[trigger] found.parent@[j]) < j && found_from(
                    lists,
                    all,
                    from_cluster,
                    j,
                    found.parent@[j] as int,
                ) && step(
                    lists,
                    all,
                    order[found.parent@[j] as int] as int,
                    order[j] as int,
                ) && dist@[order[j] as int]->0 == dist@[order[found.parent@[j] as int] as int]->0
                    + 1,
            hops == dist@[order[cur as int] as int]->0 + back@.len(),
            back@.len() == 0 ==> cur == place,
            back@.len() > 0 ==> back@[0] == to_cluster && names(
                lists[order[cur as int] as int],
                back@.last(),
            ),
            forall|j: int| 0 <= j < order.len() ==> (#[trigger] order[j]) < k,
            forall|i: int| 0 <= i < back@.len() ==> (#[trigger] back@[i]) < k,
            forall|i: int|
                0 <= i < back@.len() - 1 ==> names(
                    lists[back@[i + 1] as int],
                    #[trigger] back@[i],
                ),
        decreases cur,
    {
        let x: usize = found.order[cur];
        let p: usize = found.parent[cur];
        proof {
            lemma_discoverer(lists, all, from_cluster, cur as int, p as int);
            let rest = back@.reverse();
            let front = path_to(lists, all, from_cluster, order, p as int);
            assert(front.push(x) + rest =~= front + back@.push(x).reverse());
        }
        let ghost earlier = back@;
        back.push(x);
        proof {
            assert forall|i: int| 0 <= i < back@.len() - 1 implies names(
                lists[back@[i + 1] as int],
                #[trigger] back@[i],
            ) by {
                assert(back@[i] == earlier[i]);
                if i + 1 < earlier.len() {
                    assert(back@[i + 1] == earlier[i + 1]);
                } else {
                    assert(earlier.last() == earlier[i]);
                }
            }
        }
        cur = p;
    }
    let mut path: Vec<usize> = Vec::new();
    path.push(from_cluster);
    let ghost seed = seq![from_cluster];
    let mut i: usize = back.len();
    assert(path@ =~= seed + back@.reverse().take(0));
    while i > 0
        invariant
            i <= back@.len(),
            seed == seq![from_cluster],
            path@ =~= seed + back@.reverse().take(back@.len() - i),
        decreases i,
    {
        i -= 1;
        path.push(back[i]);
        proof {
            let r = back@.reverse();
            assert(r.take(back@.len() - i) =~= r.take(back@.len() - i - 1).push(back@[i as int]));
        }
    }
    proof {
        assert(back@.reverse().take(back@.len() as int) =~= back@.reverse());
        assert(path@ == goal);
        assert forall|i: int| 0 <= i < path@.len() - 1 implies path@[i] < lists.len() && names(
            lists[path@[i] as int],
            #[trigger] path@[i + 1],
        ) by {
            let b = back@.len() - 1 - i;
            assert(path@[i + 1] == back@[b]);
            if i == 0 {
                assert(back@[b] == back@.last());
            } else {
                assert(path@[i] == back@[b + 1]);
                assert(names(lists[back@[b + 1] as int], back@[b]));
            }
        }
        assert(is_distance(lists, all, from_cluster as int, from_cluster as int, 0));
        lemma_distance(lists, all, from_cluster as int, from_cluster as int, 0);
        assert(dist@[order[0] as int] is Some);
        lemma_distance(
            lists,
            all,
            from_cluster as int,
            from_cluster as int,
            dist@[from_cluster as int]->0 as nat,
        );
    }
    Some(path)
}

/// One corridor judged for one pair of nodes.
#[derive(Clone, Debug, PartialEq, Eq)]
pub struct CorridorReport {
    /// The clusters of the corridor, as given.
    pub clusters: Vec<usize>,
    /// The number of nodes in those clusters: what an application has to fetch.
    pub member_count: usize,
    /// The number of steps between the pair in the whole graph.
    pub global_dist: usize,
    /// The number of steps between the pair inside the corridor, if it connects them.
    pub corridor_dist: Option<usize>,
}

impl CorridorReport {
    /// The pair is connected inside the corridor.
    pub fn connected(&self) -> (r: bool)
        ensures
            r == (self.corridor_dist is Some),
    {
        self.corridor_dist.is_some()
    }

    /// The corridor preserves the distance of the pair in the whole graph.
    pub fn optimal(&self) -> (r: bool)
        ensures
            r == (self.corridor_dist == Some(self.global_dist)),
    {
        match self.corridor_dist {
            Some(d) => d == self.global_dist,
            None => false,
        }
    }
}

/// For each of `n` nodes, whether its cluster is one of `clusters`.
pub open spec fn inside(labels: Seq<usize>, clusters: Seq<usize>, n: nat) -> Seq<bool> {
    Seq::new(n, |v: int| clusters.contains(labels[v]))
}

/// The number of `true` in `flags`.
pub open spec fn count_true(flags: Seq<bool>) -> nat
    decreases flags.len(),
{
    if flags.len() == 0 {
        0
    } else {
        count_true(flags.drop_last()) + (if flags.last() {
            1nat
        } else {
            0nat
        })
    }
}

/// Judges a corridor for one pair of nodes. Pairs that the whole graph does not
/// connect are not judged.
pub fn evaluate_corridor(
    graph: &Graph,
    partition: &Partition,
    clusters: &Vec<usize>,
    from: usize,
    to: usize,
) -> (r: Option<CorridorReport>)
    requires
        graph.wf(),
        partition.wf(),
        partition@.len() >= graph.ids().len(),
    ensures
        match distance_within(
            graph.lists(),
            everywhere(graph.ids().len()),
            from as int,
            to as int,
        ) {
            None => r is None,
            Some(d) => {
                let allowed = inside(partition@, clusters@, graph.ids().len());
                &&& r is Some
                &&& r->0.clusters@ == clusters@
                &&& r->0.member_count == count_true(allowed)
                &&& r->0.global_dist == d
                &&& same_distance(
                    r->0.corridor_dist,
                    distance_within(graph.lists(), allowed, from as int, to as int),
                )
            },
        },
{
    let global_dist: usize = match bfs_distance(graph, from, to) {
        Some(d) => d,
        None => {
            return None;
        },
    };
    proof {
        partition.lemma_wf();
    }
    let n: usize = graph.node_count();
    let k: usize = partition.community_count();
    let mut in_corridor = filled(k, false);
    let mut i: usize = 0;
    while i < clusters.len()
        invariant
            i <= clusters.len(),
            in_corridor@.len() == k,
            forall|c: int|
                0 <= c < k ==> #[trigger] in_corridor@[c] == clusters@.take(i as int).contains(
                    c as usize,
                ),
        decreases clusters.len() - i,
    {
        let c: usize = clusters[i];
        let ghost before = in_corridor@;
        if c < k {
            in_corridor.set(c, true);
        }
        proof {
            let front = clusters@.take(i as int);
            let after = clusters@.take(i + 1);
            assert(after =~= front.push(c));
            assert forall|x: int| 0 <= x < k implies #[trigger] in_corridor@[x] == after.contains(
                x as usize,
            ) by {
                assert(before[x] == front.contains(x as usize));
                if x == c {
                    assert(after[i as int] == x as usize);
                } else {
                    if front.contains(x as usize) {
                        let j = choose|j: int| 0 <= j < front.len() && front[j] == x as usize;
                        assert(after[j] == x as usize);
                    }
                    if after.contains(x as usize) {
                        let j = choose|j: int| 0 <= j < after.len() && after[j] == x as usize;
                        assert(front[j] == x as usize);
                    }
                }
            }
        }
        i += 1;
    }
    assert(clusters@.take(i as int) =~= clusters@);
    let mut allowed: Vec<bool> = Vec::new();
    let mut member_count: usize = 0;
    let mut v: usize = 0;
    while v < n
        invariant
            v <= n <= partition@.len(),
            in_corridor@.len() == k == partition.count(),
            forall|x: int| 0 <= x < partition@.len() ==> (#[trigger] partition@[x]) < k,
            forall|c: int|
                0 <= c < k ==> #[trigger] in_corridor@[c] == clusters@.contains(c as usize),
            allowed@ == inside(partition@, clusters@, v as nat),
            member_count == count_true(allowed@),
            member_count <= v,
        decreases n - v,
    {
        let c: usize = partition.community_of(v);
        let flag = in_corridor[c];
        let ghost before = allowed@;
        allowed.push(flag);
        proof {
            assert(flag == clusters@.contains(partition@[v as int]));
            assert(allowed@ =~= inside(partition@, clusters@, (v + 1) as nat));
            assert(allowed@.drop_last() =~= before);
        }
        if flag {
            member_count += 1;
        }
        v += 1;
    }
    let corridor_dist = bfs_distance_filtered(graph, from, to, &allowed);
    Some(CorridorReport { clusters: copy_labels(clusters), member_count, global_dist, corridor_dist })
}

/// What is reached inside a part of the graph is reached in any larger part.
pub proof fn lemma_reach_larger(
    lists: Seq<Seq<(usize, u64)>>,
    small: Seq<bool>,
    large: Seq<bool>,
    s: int,
    t: int,
    d: nat,
)
    requires
        forall|v: int| 0 <= v < lists.len() && #[trigger] small[v] ==> large[v],
        reach(lists, small, s, t, d),
    ensures
        reach(lists, large, s, t, d),
    decreases d,
{
    if d > 0 {
        if reach(lists, small, s, t, (d - 1) as nat) {
            lemma_reach_larger(lists, small, large, s, t, (d - 1) as nat);
        } else {
            let u = crate::bfs::lemma_reach_before(lists, small, s, t, (d - 1) as nat);
            lemma_reach_larger(lists, small, large, s, u, (d - 1) as nat);
            assert(step(lists, large, u, t));
            lemma_reach_step(lists, large, s, u, t, (d - 1) as nat);
        }
    }
}

/// A corridor never shortens a distance: a pair that it connects is connected in
/// the whole graph, by at most as many steps.
pub proof fn law_corridor_not_shorter(
    lists: Seq<Seq<(usize, u64)>>,
    allowed: Seq<bool>,
    from: int,
    to: int,
)
    requires
        distance_within(lists, allowed, from, to) is Some,
    ensures
        distance_within(lists, everywhere(lists.len()), from, to) is Some,
        distance_within(lists, everywhere(lists.len()), from, to)->0 <= distance_within(
            lists,
            allowed,
            from,
            to,
        )->0,
{
    let d = distance_within(lists, allowed, from, to)->0;
    assert(is_distance(lists, allowed, from, to, d));
    let all = everywhere(lists.len());
    lemma_reach_larger(lists, allowed, all, from, to, d);
    let e = lemma_reach_has_distance(lists, all, from, to, d);
    lemma_distance(lists, all, from, to, e);
}

/// The members of cluster `c` reach each other without leaving the cluster.
pub open spec fn cluster_connected(
    lists: Seq<Seq<(usize, u64)>>,
    labels: Seq<usize>,
    c: usize,
) -> bool {
    forall|u: int, v: int|
        0 <= u < lists.len() && 0 <= v < lists.len() && #[trigger] labels[u] == c
            && #[trigger] labels[v] == c ==> exists|d: nat| #[trigger]
            reach(lists, inside(labels, seq![c], lists.len()), u, v, d)
}

/// Some edge leads from cluster `c` to cluster `d`.
pub open spec fn clusters_linked(
    lists: Seq<Seq<(usize, u64)>>,
    labels: Seq<usize>,
    c: usize,
    d: usize,
) -> bool {
    exists|u: int, v: int|
        0 <= u < lists.len() && 0 <= v < lists.len() && labels[u] == c && labels[v] == d
            && #[trigger] names(lists[u], v as usize)
}

/// A corridor of clusters that are each connected inside, with an edge from each
/// to the next, is connected: any node of the first cluster reaches any node of the
/// last one inside the corridor.
pub proof fn law_corridor_connected(
    lists: Seq<Seq<(usize, u64)>>,
    labels: Seq<usize>,
    clusters: Seq<usize>,
    from: int,
    to: int,
)
    requires
        lists.len() <= usize::MAX,
        labels.len() >= lists.len(),
        clusters.len() > 0,
        forall|i: int|
            0 <= i < clusters.len() ==> cluster_connected(lists, labels, #[trigger] clusters[i]),
        forall|i: int|
            0 <= i < clusters.len() - 1 ==> clusters_linked(
                lists,
                labels,
                clusters[i],
                #[trigger] clusters[i + 1],
            ),
        0 <= from < lists.len(),
        0 <= to < lists.len(),
        labels[from] == clusters[0],
        labels[to] == clusters.last(),
    ensures
        distance_within(lists, inside(labels, clusters, lists.len()), from, to) is Some,
{
    let allowed = inside(labels, clusters, lists.len());
    let d = lemma_corridor_walk(lists, labels, clusters, from, to, clusters.len() - 1);
    let e = lemma_reach_has_distance(lists, allowed, from, to, d);
    assert(clusters.contains(clusters[0]) && clusters.contains(clusters.last()));
}

/// A walk from the first cluster of a corridor to its cluster at `k`.
proof fn lemma_corridor_walk(
    lists: Seq<Seq<(usize, u64)>>,
    labels: Seq<usize>,
    clusters: Seq<usize>,
    from: int,
    to: int,
    k: int,
) -> (d: nat)
    requires
        lists.len() <= usize::MAX,
        labels.len() >= lists.len(),
        0 <= k < clusters.len(),
        forall|i: int|
            0 <= i < clusters.len() ==> cluster_connected(lists, labels, #[trigger] clusters[i]),
        forall|i: int|
            0 <= i < clusters.len() - 1 ==> clusters_linked(
                lists,
                labels,
                clusters[i],
                #[trigger] clusters[i + 1],
            ),
        0 <= from < lists.len(),
        0 <= to < lists.len(),
        labels[from] == clusters[0],
        labels[to] == clusters[k],
    ensures
        reach(lists, inside(labels, clusters, lists.len()), from, to, d),
    decreases k,
{
    let allowed = inside(labels, clusters, lists.len());
    let c = clusters[k];
    let here = inside(labels, seq![c], lists.len());
    assert forall|v: int| 0 <= v < lists.len() && #[trigger] here[v] implies allowed[v] by {
        assert(seq![c].contains(labels[v]));
        assert(clusters.contains(c));
    }
    assert(cluster_connected(lists, labels, clusters[k]));
    if k == 0 {
        let d = choose|d: nat| #[trigger] reach(lists, here, from, to, d);
        lemma_reach_larger(lists, here, allowed, from, to, d);
        d
    } else {
        assert(clusters_linked(lists, labels, clusters[k - 1], clusters[(k - 1) + 1]));
        let (u, v) = choose|u: int, v: int|
            0 <= u < lists.len() && 0 <= v < lists.len() && labels[u] == clusters[k - 1]
                && labels[v] == c && #[trigger] names(lists[u], v as usize);
        let d = lemma_corridor_walk(lists, labels, clusters, from, u, k - 1);
        assert(step(lists, allowed, u, v)) by {
            assert(clusters.contains(c));
        }
        lemma_reach_step(lists, allowed, from, u, v, d);
        let e = choose|e: nat| #[trigger] reach(lists, here, v, to, e);
        lemma_reach_larger(lists, here, allowed, v, to, e);
        lemma_reach_join(lists, allowed, from, v, to, d + 1, e);
        d + 1 + e
    }
}

} // verus!
