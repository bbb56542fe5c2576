//! Breadth-first search over adjacency lists, with hop counts.
use crate::sums::{lemma_weight_to_absent, lemma_weight_to_positive};
use crate::tally::names;
use crate::weighted::{entries_valid, lists_of, matrix, symmetric};
use vstd::prelude::*;

verus! {

/// There is an edge from `u` to `v`, and `v` may be entered.
pub open spec fn step(lists: Seq<Seq<(usize, u64)>>, allowed: Seq<bool>, u: int, v: int) -> bool {
    &&& 0 <= u < lists.len()
    &&& 0 <= v < lists.len()
    &&& allowed[v]
    &&& names(lists[u], v as usize)
}

/// `t` can be reached from `s` in at most `d` steps.
pub open spec fn reach(
    lists: Seq<Seq<(usize, u64)>>,
    allowed: Seq<bool>,
    s: int,
    t: int,
    d: nat,
) -> bool
    decreases d,
{
    if d == 0 {
        s == t
    } else {
        ||| reach(lists, allowed, s, t, (d - 1) as nat)
        ||| exists|u: int|
            reach(lists, allowed, s, u, (d - 1) as nat) && #[trigger] step(lists, allowed, u, t)
    }
}

/// `d` is the least number of steps from `s` to `t`.
pub open spec fn is_distance(
    lists: Seq<Seq<(usize, u64)>>,
    allowed: Seq<bool>,
    s: int,
    t: int,
    d: nat,
) -> bool {
    &&& reach(lists, allowed, s, t, d)
    &&& d > 0 ==> !reach(lists, allowed, s, t, (d - 1) as nat)
}

/// The least number of steps from `s` to `t`, if `t` can be reached.
pub open spec fn distance(
    lists: Seq<Seq<(usize, u64)>>,
    allowed: Seq<bool>,
    s: int,
    t: int,
) -> Option<nat> {
    if exists|d: nat| is_distance(lists, allowed, s, t, d) {
        Some(choose|d: nat| is_distance(lists, allowed, s, t, d))
    } else {
        None
    }
}

/// `order` followed by those of the first `k` targets of `list` that may be
/// entered and are not in it yet.
pub open spec fn grown(
    order: Seq<usize>,
    list: Seq<(usize, u64)>,
    allowed: Seq<bool>,
    k: nat,
) -> Seq<usize>
    decreases k,
{
    if k == 0 {
        order
    } else {
        let before = grown(order, list, allowed, (k - 1) as nat);
        let v = list[k - 1].0;
        if allowed[v as int] && !before.contains(v) {
            before.push(v)
        } else {
            before
        }
    }
}

/// The nodes discovered from `s`, in order, once the first `h` of them have been
/// expanded.
pub open spec fn discovered(
    lists: Seq<Seq<(usize, u64)>>,
    allowed: Seq<bool>,
    s: usize,
    h: nat,
) -> Seq<usize>
    decreases h,
{
    if h == 0 {
        seq![s]
    } else {
        let before = discovered(lists, allowed, s, (h - 1) as nat);
        if h - 1 < before.len() {
            let list = lists[before[h - 1] as int];
            grown(before, list, allowed, list.len())
        } else {
            before
        }
    }
}

pub proof fn lemma_reach_monotone(
    lists: Seq<Seq<(usize, u64)>>,
    allowed: Seq<bool>,
    s: int,
    t: int,
    d: nat,
    e: nat,
)
    requires
        reach(lists, allowed, s, t, d),
        d <= e,
    ensures
        reach(lists, allowed, s, t, e),
    decreases e,
{
    if d < e {
        lemma_reach_monotone(lists, allowed, s, t, d, (e - 1) as nat);
    }
}

/// One more step reaches one node further.
pub proof fn lemma_reach_step(
    lists: Seq<Seq<(usize, u64)>>,
    allowed: Seq<bool>,
    s: int,
    u: int,
    v: int,
    d: nat,
)
    requires
        reach(lists, allowed, s, u, d),
        step(lists, allowed, u, v),
    ensures
        reach(lists, allowed, s, v, d + 1),
{
}

/// A node reached in `d + 1` steps and not in `d` comes after one reached in `d`.
pub proof fn lemma_reach_before(
    lists: Seq<Seq<(usize, u64)>>,
    allowed: Seq<bool>,
    s: int,
    v: int,
    d: nat,
) -> (u: int)
    requires
        reach(lists, allowed, s, v, d + 1),
        !reach(lists, allowed, s, v, d),
    ensures
        reach(lists, allowed, s, u, d),
        step(lists, allowed, u, v),
{
    choose|u: int|
        reach(lists, allowed, s, u, ((d + 1) - 1) as nat) && #[trigger] step(lists, allowed, u, v)
}

/// A node that can be reached has exactly one distance.
pub proof fn lemma_distance(
    lists: Seq<Seq<(usize, u64)>>,
    allowed: Seq<bool>,
    s: int,
    t: int,
    d: nat,
)
    requires
        is_distance(lists, allowed, s, t, d),
    ensures
        distance(lists, allowed, s, t) == Some(d),
{
    let e = choose|e: nat| is_distance(lists, allowed, s, t, e);
    if e < d {
        lemma_reach_monotone(lists, allowed, s, t, e, (d - 1) as nat);
    } else if d < e {
        lemma_reach_monotone(lists, allowed, s, t, d, (e - 1) as nat);
    }
}

/// A node that can be reached has a distance.
pub proof fn lemma_reach_has_distance(
    lists: Seq<Seq<(usize, u64)>>,
    allowed: Seq<bool>,
    s: int,
    t: int,
    d: nat,
) -> (e: nat)
    requires
        reach(lists, allowed, s, t, d),
    ensures
        e <= d,
        is_distance(lists, allowed, s, t, e),
    decreases d,
{
    if d > 0 && reach(lists, allowed, s, t, (d - 1) as nat) {
        lemma_reach_has_distance(lists, allowed, s, t, (d - 1) as nat)
    } else {
        d
    }
}

/// Growing keeps what was there, adds allowed targets, and adds all of them.
pub proof fn lemma_grown(
    order: Seq<usize>,
    list: Seq<(usize, u64)>,
    allowed: Seq<bool>,
    k: nat,
)
    requires
        k <= list.len(),
    ensures
        order.len() <= grown(order, list, allowed, k).len(),
        forall|i: int|
            0 <= i < order.len() ==> #[trigger] grown(order, list, allowed, k)[i] == order[i],
        forall|i: int|
            0 <= i < k && allowed[(#[trigger] list[i]).0 as int] ==> grown(
                order,
                list,
                allowed,
                k,
            ).contains(list[i].0),
    decreases k,
{
    if k > 0 {
        lemma_grown(order, list, allowed, (k - 1) as nat);
        let before = grown(order, list, allowed, (k - 1) as nat);
        let after = grown(order, list, allowed, k);
        assert forall|i: int| 0 <= i < k && allowed[(#[trigger] list[i]).0 as int] implies
            after.contains(list[i].0) by {
            if i < k - 1 {
                assert(before.contains(list[i].0));
                let j = choose|j: int| 0 <= j < before.len() && before[j] == list[i].0;
                assert(after[j] == list[i].0);
            } else if !before.contains(list[i].0) {
                assert(after[before.len() as int] == list[i].0);
            }
        }
    }
}

/// What a search found: the nodes in the order of discovery, the place of the node
/// from which each was discovered, and how many were expanded.
pub struct Found {
    pub order: Vec<usize>,
    pub parent: Vec<usize>,
    pub expanded: usize,
}

/// The node at place `j` of the order was discovered when the node at place `h` was
/// expanded.
pub open spec fn found_from(
    lists: Seq<Seq<(usize, u64)>>,
    allowed: Seq<bool>,
    s: usize,
    j: int,
    h: int,
) -> bool {
    discovered(lists, allowed, s, h as nat).len() <= j < discovered(
        lists,
        allowed,
        s,
        (h + 1) as nat,
    ).len()
}

/// Every target of every list is a node.
pub open spec fn targets_valid(lists: Seq<Seq<(usize, u64)>>) -> bool {
    forall|u: int, i: int|
        0 <= u < lists.len() && 0 <= i < lists[u].len() ==> (#[trigger] lists[u][i]).0
            < lists.len()
}

/// The state of a search before the node at place `head` is expanded.
spec fn search_inv(
    lists: Seq<Seq<(usize, u64)>>,
    allowed: Seq<bool>,
    s: int,
    order: Seq<usize>,
    parent: Seq<usize>,
    dist: Seq<Option<usize>>,
    head: int,
) -> bool {
    &&& lists.len() <= usize::MAX
    &&& 0 < order.len()
    &&& order[0] == s
    &&& order.len() == parent.len()
    &&& dist.len() == lists.len()
    &&& forall|j: int| 0 <= j < order.len() ==> (#[trigger] order[j]) < lists.len()
    &&& forall|i: int, j: int| 0 <= i < j < order.len() ==> order[i] != order[j]
    &&& forall|v: int|
        0 <= v < lists.len() ==> ((#[trigger] dist[v]) is Some <==> order.contains(v as usize))
    &&& forall|j: int|
        0 <= j < order.len() ==> is_distance(
            lists,
            allowed,
            s,
            #[trigger] order[j] as int,
            dist[order[j] as int]->0 as nat,
        )
    &&& forall|j: int| 0 <= j < order.len() ==> dist[#[trigger] order[j] as int]->0 <= j
    &&& forall|i: int, j: int|
        0 <= i <= j < order.len() ==> dist[#[trigger] order[i] as int]->0
            <= dist[#[trigger] order[j] as int]->0
    &&& forall|j: int|
        1 <= j < order.len() ==> (#[trigger] parent[j]) < j && step(
            lists,
            allowed,
            order[parent[j] as int] as int,
            order[j] as int,
        ) && dist[order[j] as int]->0 == dist[order[parent[j] as int] as int]->0 + 1
    &&& forall|i: int, v: int|
        0 <= i < head && i < order.len() && #[trigger] step(lists, allowed, order[i] as int, v)
            ==> order.contains(v as usize)
}

/// Every node within `d` steps has been discovered.
spec fn complete_to(
    lists: Seq<Seq<(usize, u64)>>,
    allowed: Seq<bool>,
    s: int,
    order: Seq<usize>,
    d: nat,
) -> bool {
    forall|v: int|
        0 <= v < lists.len() && #[trigger] reach(lists, allowed, s, v, d) ==> order.contains(
            v as usize,
        )
}

/// A node within `d` steps that was discovered has a distance of at most `d`.
proof fn lemma_dist_at_most(
    lists: Seq<Seq<(usize, u64)>>,
    allowed: Seq<bool>,
    s: int,
    t: int,
    d: nat,
    e: nat,
)
    requires
        reach(lists, allowed, s, t, d),
        is_distance(lists, allowed, s, t, e),
    ensures
        e <= d,
{
    if d < e {
        lemma_reach_monotone(lists, allowed, s, t, d, (e - 1) as nat);
    }
}

/// When the next node to expand is one level deeper, the level before is complete.
proof fn lemma_level_done(
    lists: Seq<Seq<(usize, u64)>>,
    allowed: Seq<bool>,
    s: int,
    order: Seq<usize>,
    parent: Seq<usize>,
    dist: Seq<Option<usize>>,
    head: int,
    d: nat,
)
    requires
        search_inv(lists, allowed, s, order, parent, dist, head),
        0 < head < order.len(),
        complete_to(lists, allowed, s, order, d),
        dist[order[head] as int]->0 == d + 1,
    ensures
        complete_to(lists, allowed, s, order, d + 1),
{
    assert forall|v: int|
        0 <= v < lists.len() && #[trigger] reach(lists, allowed, s, v, d + 1) implies order.contains(
        v as usize,
    ) by {
        if !reach(lists, allowed, s, v, d) {
            let w = lemma_reach_before(lists, allowed, s, v, d);
            assert(order.contains(w as usize));
            let i = choose|i: int| 0 <= i < order.len() && order[i] == w as usize;
            lemma_dist_at_most(lists, allowed, s, w, d, dist[order[i] as int]->0 as nat);
            if i >= head {
                assert(dist[order[head] as int]->0 <= dist[order[i] as int]->0);
            }
            assert(step(lists, allowed, order[i] as int, v));
        }
    }
}

/// When every discovered node has been expanded, nothing is left to discover.
proof fn lemma_all_done(
    lists: Seq<Seq<(usize, u64)>>,
    allowed: Seq<bool>,
    s: int,
    order: Seq<usize>,
    parent: Seq<usize>,
    dist: Seq<Option<usize>>,
    d: nat,
)
    requires
        search_inv(lists, allowed, s, order, parent, dist, order.len() as int),
        0 <= s < lists.len(),
    ensures
        complete_to(lists, allowed, s, order, d),
    decreases d,
{
    if d == 0 {
        assert(order.contains(s as usize)) by {
            assert(order[0] == s as usize);
        }
    } else {
        lemma_all_done(lists, allowed, s, order, parent, dist, (d - 1) as nat);
        assert forall|v: int|
            0 <= v < lists.len() && #[trigger] reach(lists, allowed, s, v, d) implies order.contains(
            v as usize,
        ) by {
            if !reach(lists, allowed, s, v, (d - 1) as nat) {
                let w = lemma_reach_before(lists, allowed, s, v, (d - 1) as nat);
                assert(order.contains(w as usize));
                let i = choose|i: int| 0 <= i < order.len() && order[i] == w as usize;
                assert(step(lists, allowed, order[i] as int, v));
            }
        }
    }
}

/// Searches from `s` through the nodes that `allowed` admits, expanding nodes that
/// are fewer than `limit` steps away. `dist` receives the distances of the nodes
/// within `limit` steps.
#[verifier::rlimit(60)]
#[verifier::spinoff_prover]
pub fn search(
    adj: &Vec<Vec<(usize, u64)>>,
    allowed: &Vec<bool>,
    s: usize,
    limit: usize,
    dist: &mut Vec<Option<usize>>,
) -> (found: Found)
    requires
        targets_valid(lists_of(adj@)),
        allowed@.len() == adj@.len(),
        s < adj@.len(),
        old(dist)@.len() == adj@.len(),
        forall|v: int| 0 <= v < old(dist)@.len() ==> (#[trigger] old(dist)@[v]) is None,
    ensures
        final(dist)@.len() == adj@.len(),
        forall|v: int|
            0 <= v < adj@.len() && (#[trigger] final(dist)@[v]) is Some ==> final(dist)@[v]->0
                <= limit && is_distance(
                lists_of(adj@),
                allowed@,
                s as int,
                v,
                final(dist)@[v]->0 as nat,
            ),
        forall|v: int|
            0 <= v < adj@.len() && reach(lists_of(adj@), allowed@, s as int, v, limit as nat)
                ==> (#[trigger] final(dist)@[v]) is Some,
        limit == usize::MAX ==> found.expanded == found.order@.len(),
        found.expanded == found.order@.len() ==> forall|v: int, d: nat|
            0 <= v < adj@.len() && #[trigger] reach(lists_of(adj@), allowed@, s as int, v, d)
                ==> final(dist)@[v] is Some,
        found.order@ == discovered(lists_of(adj@), allowed@, s, found.expanded as nat),
        found.order@.len() > 0,
        found.order@[0] == s,
        found.order@.no_duplicates(),
        forall|j: int|
            0 <= j < found.order@.len() ==> (#[trigger] found.order@[j]) < adj@.len()
                && final(dist)@[found.order@[j] as int] is Some,
        forall|v: int|
            0 <= v < adj@.len() && (#[trigger] final(dist)@[v]) is Some ==> found.order@.contains(
                v as usize,
            ),
        forall|i: int, j: int|
            0 <= i <= j < found.order@.len() ==> final(dist)@[#[trigger] found.order@[i] as int]->0
                <= final(dist)@[#[trigger] found.order@[j] as int]->0,
        found.parent@.len() == found.order@.len(),
        forall|j: int|
            1 <= j < found.order@.len() ==> (#[trigger] found.parent@[j]) < j && found_from(
                lists_of(adj@),
                allowed@,
                s,
                j,
                found.parent@[j] as int,
            ) && step(
                lists_of(adj@),
                allowed@,
                found.order@[found.parent@[j] as int] as int,
                found.order@[j] as int,
            ) && final(dist)@[found.order@[j] as int]->0
                == final(dist)@[found.order@[found.parent@[j] as int] as int]->0 + 1,
{
    let ghost lists = lists_of(adj@);
    assert(adj.len() <= usize::MAX);
    let mut order: Vec<usize> = Vec::new();
    let mut parent: Vec<usize> = Vec::new();
    order.push(s);
    parent.push(0);
    dist.set(s, Some(0));
    let mut head: usize = 0;
    proof {
        assert(order@ =~= discovered(lists, allowed@, s, 0));
        assert forall|v: int| 0 <= v < lists.len() implies ((#[trigger] dist@[v]) is Some
            <==> order@.contains(v as usize)) by {
            if v == s {
                assert(order@[0] == v as usize);
            }
        }
        assert(complete_to(lists, allowed@, s as int, order@, 0)) by {
            assert(order@[0] == s);
        }
    }
    while head < order.len()
        invariant_except_break
            head <= order.len(),
        invariant
            lists == lists_of(adj@),
            targets_valid(lists),
            allowed@.len() == adj@.len() == lists.len(),
            s < adj@.len(),
            head <= order@.len(),
            search_inv(lists, allowed@, s as int, order@, parent@, dist@, head as int),
            order@ == discovered(lists, allowed@, s, head as nat),
            forall|j: int|
                0 <= j < order@.len() ==> dist@[#[trigger] order@[j] as int]->0 <= limit,
            head < order@.len() ==> complete_to(
                lists,
                allowed@,
                s as int,
                order@,
                dist@[order@[head as int] as int]->0 as nat,
            ),
            head < order@.len() ==> forall|j: int|
                0 <= j < order@.len() ==> dist@[#[trigger] order@[j] as int]->0
                    <= dist@[order@[head as int] as int]->0 + 1,
            forall|j: int|
                1 <= j < order@.len() ==> found_from(
                    lists,
                    allowed@,
                    s,
                    j,
                    (#[trigger] parent@[j]) as int,
                ),
        ensures
            head < order@.len() ==> dist@[order@[head as int] as int]->0 >= limit,
        decreases adj.len() - head,
    {
        let u: usize = order[head];
        assert(order@.contains(order@[head as int]));
        assert(dist@[u as int] is Some);
        let du: usize = match dist[u] {
            Some(d) => d,
            None => 0,
        };
        if du >= limit {
            break;
        }
        let list = &adj[u];
        let ghost start = order@;
        let mut i: usize = 0;
        assert(list@ == lists[u as int]);
        while i < list.len()
            invariant
                i <= list.len(),
                lists == lists_of(adj@),
                targets_valid(lists),
                allowed@.len() == adj@.len() == lists.len(),
                s < adj@.len(),
                u < lists.len(),
                list@ == lists[u as int],
                head < start.len() <= order@.len(),
                start[head as int] == u,
                start == discovered(lists, allowed@, s, head as nat),
                forall|j: int| 0 <= j < start.len() ==> start[j] == #[trigger] order@[j],
                order@ == grown(start, list@, allowed@, i as nat),
                dist@[u as int] == Some(du),
                du < limit,
                search_inv(lists, allowed@, s as int, order@, parent@, dist@, head as int),
                complete_to(lists, allowed@, s as int, order@, du as nat),
                forall|j: int|
                    0 <= j < order@.len() ==> dist@[#[trigger] order@[j] as int]->0 <= du + 1,
                forall|j: int|
                    0 <= j < order@.len() ==> dist@[#[trigger] order@[j] as int]->0 <= limit,
                forall|j: int|
                    1 <= j < start.len() ==> found_from(
                        lists,
                        allowed@,
                        s,
                        j,
                        (#[trigger] parent@[j]) as int,
                    ),
                forall|j: int| start.len() <= j < order@.len() ==> #[trigger] parent@[j] == head,
            decreases list.len() - i,
        {
            let v: usize = list[i].0;
            assert(lists[u as int][i as int].0 < lists.len());
            let ghost before = order@;
            let ghost old_dist = dist@;
            assert(dist@[v as int] is Some <==> order@.contains(v));
            if allowed[v] && dist[v].is_none() {
                proof {
                    assert(names(lists[u as int], v));
                    assert(step(lists, allowed@, u as int, v as int));
                    assert(is_distance(lists, allowed@, s as int, u as int, du as nat)) by {
                        assert(order@[head as int] == u);
                    }
                    lemma_reach_step(lists, allowed@, s as int, u as int, v as int, du as nat);
                    assert(!reach(lists, allowed@, s as int, v as int, du as nat));
                }
                dist.set(v, Some(du + 1));
                order.push(v);
                parent.push(head);
                proof {
                    assert forall|x: int| 0 <= x < lists.len() implies ((#[trigger] dist@[x])
                        is Some <==> order@.contains(x as usize)) by {
                        assert(old_dist[x] is Some <==> before.contains(x as usize));
                        if before.contains(x as usize) {
                            let j = choose|j: int|
                                0 <= j < before.len() && before[j] == x as usize;
                            assert(order@[j] == x as usize);
                        }
                        if x == v {
                            assert(order@[before.len() as int] == x as usize);
                        }
                        if order@.contains(x as usize) && x != v {
                            let j = choose|j: int|
                                0 <= j < order@.len() && order@[j] == x as usize;
                            assert(before[j] == x as usize);
                        }
                    }
                    assert forall|j: int| 0 <= j < order@.len() implies dist@[#[trigger] order@[j]
                        as int]->0 <= j by {
                        if j == before.len() {
                            assert(old_dist[before[head as int] as int]->0 <= head);
                        } else {
                            assert(before[j] != v);
                            assert(old_dist[before[j] as int]->0 <= j);
                        }
                    }
                    assert forall|a: int, b: int| 0 <= a <= b < order@.len() implies dist@[
                    #[trigger] order@[a] as int]->0 <= dist@[#[trigger] order@[b] as int]->0 by {
                        if b < before.len() {
                            assert(old_dist[before[a] as int]->0 <= old_dist[before[b] as int]->0);
                        } else if a < before.len() {
                            assert(old_dist[before[a] as int]->0 <= du + 1);
                        }
                    }
                    assert forall|j: int| 1 <= j < order@.len() implies (#[trigger] parent@[j]) < j
                        && step(
                        lists,
                        allowed@,
                        order@[parent@[j] as int] as int,
                        order@[j] as int,
                    ) && dist@[order@[j] as int]->0 == dist@[order@[parent@[j] as int] as int]->0
                        + 1 by {
                        if j < before.len() {
                            assert(before[j] != v);
                            assert(before[parent@[j] as int] != v);
                        } else {
                            assert(order@[head as int] == u);
                            assert(before[head as int] != v);
                        }
                    }
                    assert forall|a: int, x: int|
                        0 <= a < head && a < order@.len() && #[trigger] step(
                            lists,
                            allowed@,
                            order@[a] as int,
                            x,
                        ) implies order@.contains(x as usize) by {
                        assert(before[a] == order@[a]);
                        assert(before.contains(x as usize));
                        let j = choose|j: int| 0 <= j < before.len() && before[j] == x as usize;
                        assert(order@[j] == x as usize);
                    }
                    assert forall|x: int|
                        0 <= x < lists.len() && #[trigger] reach(
                            lists,
                            allowed@,
                            s as int,
                            x,
                            du as nat,
                        ) implies order@.contains(x as usize) by {
                        assert(before.contains(x as usize));
                        let j = choose|j: int| 0 <= j < before.len() && before[j] == x as usize;
                        assert(order@[j] == x as usize);
                    }
                }
            }
            i += 1;
        }
        proof {
            lemma_grown(start, list@, allowed@, list@.len());
            assert(order@ == discovered(lists, allowed@, s, (head + 1) as nat));
            assert forall|a: int, x: int|
                0 <= a < head + 1 && a < order@.len() && #[trigger] step(
                    lists,
                    allowed@,
                    order@[a] as int,
                    x,
                ) implies order@.contains(x as usize) by {
                if a == head {
                    assert(order@[head as int] == u);
                    assert(names(list@, x as usize));
                    let j = choose|j: int|
                        0 <= j < list@.len() && (#[trigger] list@[j]).0 == x as usize;
                    assert(allowed@[list@[j].0 as int]);
                }
            }
            assert(search_inv(lists, allowed@, s as int, order@, parent@, dist@, head + 1));
            if head + 1 < order@.len() {
                let d2 = dist@[order@[head + 1] as int]->0;
                assert(order@[head as int] == u);
                assert(dist@[order@[head as int] as int]->0 <= d2);
                assert(d2 <= du + 1);
                if d2 == du + 1 {
                    lemma_level_done(
                        lists,
                        allowed@,
                        s as int,
                        order@,
                        parent@,
                        dist@,
                        head + 1,
                        du as nat,
                    );
                }
            }
            assert forall|j: int| 1 <= j < order@.len() implies found_from(
                lists,
                allowed@,
                s,
                j,
                (#[trigger] parent@[j]) as int,
            ) by {}
            lemma_distinct_places(order@, lists.len());
        }
        head += 1;
    }
    proof {
        if head == order@.len() {
            assert forall|v: int, d: nat|
                0 <= v < adj@.len() && #[trigger] reach(
                    lists,
                    allowed@,
                    s as int,
                    v,
                    d,
                ) implies dist@[v] is Some by {
                lemma_all_done(lists, allowed@, s as int, order@, parent@, dist@, d);
            }
        }
        assert forall|v: int|
            0 <= v < adj@.len() && reach(lists, allowed@, s as int, v, limit as nat) implies (
        #[trigger] dist@[v]) is Some by {
            if head < order@.len() {
                let d = dist@[order@[head as int] as int]->0 as nat;
                lemma_reach_monotone(lists, allowed@, s as int, v, limit as nat, d);
            }
        }
        assert forall|v: int| 0 <= v < adj@.len() && (#[trigger] dist@[v]) is Some implies dist@[
        v]->0 <= limit && is_distance(lists, allowed@, s as int, v, dist@[v]->0 as nat) by {
            assert(order@.contains(v as usize));
            let j = choose|j: int| 0 <= j < order@.len() && order@[j] == v as usize;
            assert(order@[j] as int == v);
        }
        assert forall|j: int| 0 <= j < order@.len() implies (#[trigger] order@[j]) < adj@.len()
            && dist@[order@[j] as int] is Some by {
            assert(order@.contains(order@[j]));
        }
        if head < order@.len() {
            assert(dist@[order@[head as int] as int]->0 <= head);
            assert(order.len() <= usize::MAX);
        }
    }
    Found { order, parent, expanded: head }
}

/// A list of distinct nodes is no longer than the number of nodes.
pub proof fn lemma_distinct_places(order: Seq<usize>, n: nat)
    requires
        forall|i: int, j: int| 0 <= i < j < order.len() ==> order[i] != order[j],
        forall|j: int| 0 <= j < order.len() ==> (#[trigger] order[j]) < n,
    ensures
        order.len() <= n,
    decreases n,
{
    if n > 0 {
        if exists|i: int| 0 <= i < order.len() && order[i] == n - 1 {
            let i = choose|i: int| 0 <= i < order.len() && order[i] == n - 1;
            let rest = order.remove(i);
            assert forall|a: int, b: int| 0 <= a < b < rest.len() implies rest[a] != rest[b] by {
                let x = if a < i { a } else { a + 1 };
                let y = if b < i { b } else { b + 1 };
                assert(rest[a] == order[x] && rest[b] == order[y]);
            }
            assert forall|j: int| 0 <= j < rest.len() implies (#[trigger] rest[j]) < n - 1 by {
                let x = if j < i { j } else { j + 1 };
                assert(rest[j] == order[x]);
                if x < i {
                    assert(order[x] != order[i]);
                } else {
                    assert(order[i] != order[x]);
                }
            }
            lemma_distinct_places(rest, (n - 1) as nat);
        } else {
            lemma_distinct_places(order, (n - 1) as nat);
        }
    } else {
        if order.len() > 0 {
            assert(order[0] < n);
        }
    }
}

/// Two walks make one.
pub proof fn lemma_reach_join(
    lists: Seq<Seq<(usize, u64)>>,
    allowed: Seq<bool>,
    a: int,
    b: int,
    c: int,
    d: nat,
    e: nat,
)
    requires
        reach(lists, allowed, a, b, d),
        reach(lists, allowed, b, c, e),
    ensures
        reach(lists, allowed, a, c, d + e),
    decreases e,
{
    if e > 0 {
        if reach(lists, allowed, b, c, (e - 1) as nat) {
            lemma_reach_join(lists, allowed, a, b, c, d, (e - 1) as nat);
            lemma_reach_monotone(lists, allowed, a, c, (d + e - 1) as nat, d + e);
        } else {
            let u = lemma_reach_before(lists, allowed, b, c, (e - 1) as nat);
            lemma_reach_join(lists, allowed, a, b, u, d, (e - 1) as nat);
            lemma_reach_step(lists, allowed, a, u, c, (d + e - 1) as nat);
        }
    }
}

/// Every edge can be walked back.
pub open spec fn two_way(lists: Seq<Seq<(usize, u64)>>) -> bool {
    forall|u: int, v: int|
        0 <= u < lists.len() && 0 <= v < lists.len() && #[trigger] names(lists[u], v as usize)
            ==> names(lists[v], u as usize)
}

/// The lists of a symmetric matrix are two-way.
pub proof fn lemma_two_way(lists: Seq<Seq<(usize, u64)>>)
    requires
        forall|u: int| 0 <= u < lists.len() ==> entries_valid(#[trigger] lists[u], lists.len()),
        symmetric(matrix(lists)),
        lists.len() <= usize::MAX,
    ensures
        two_way(lists),
{
    assert forall|u: int, v: int|
        0 <= u < lists.len() && 0 <= v < lists.len() && #[trigger] names(
            lists[u],
            v as usize,
        ) implies names(lists[v], u as usize) by {
        let i = choose|i: int| 0 <= i < lists[u].len() && (#[trigger] lists[u][i]).0 == v as usize;
        assert(entries_valid(lists[u], lists.len()));
        lemma_weight_to_positive(lists[u], i);
        assert(matrix(lists)[u][v] == matrix(lists)[v][u]);
        if !names(lists[v], u as usize) {
            lemma_weight_to_absent(lists[v], u);
        }
    }
}

/// What is reached is the start, or may be entered.
pub proof fn lemma_reach_allowed(
    lists: Seq<Seq<(usize, u64)>>,
    allowed: Seq<bool>,
    s: int,
    t: int,
    d: nat,
)
    requires
        reach(lists, allowed, s, t, d),
    ensures
        t == s || (0 <= t < lists.len() && allowed[t]),
    decreases d,
{
    if d > 0 {
        if reach(lists, allowed, s, t, (d - 1) as nat) {
            lemma_reach_allowed(lists, allowed, s, t, (d - 1) as nat);
        } else {
            let u = lemma_reach_before(lists, allowed, s, t, (d - 1) as nat);
        }
    }
}

/// In a two-way graph a walk can be walked back, if its start may be entered.
pub proof fn lemma_reach_back(
    lists: Seq<Seq<(usize, u64)>>,
    allowed: Seq<bool>,
    s: int,
    t: int,
    d: nat,
)
    requires
        two_way(lists),
        0 <= s < lists.len() ==> allowed[s],
        reach(lists, allowed, s, t, d),
    ensures
        reach(lists, allowed, t, s, d),
    decreases d,
{
    if d > 0 {
        if reach(lists, allowed, s, t, (d - 1) as nat) {
            lemma_reach_back(lists, allowed, s, t, (d - 1) as nat);
        } else {
            let u = lemma_reach_before(lists, allowed, s, t, (d - 1) as nat);
            lemma_reach_allowed(lists, allowed, s, u, (d - 1) as nat);
            lemma_reach_back(lists, allowed, s, u, (d - 1) as nat);
            assert(step(lists, allowed, t, u)) by {
                assert(names(lists[u], t as usize));
            }
            lemma_reach_step(lists, allowed, t, t, u, 0);
            lemma_reach_join(lists, allowed, t, u, s, 1, (d - 1) as nat);
        }
    }
}

/// In a two-way graph that may be entered everywhere, distance is symmetric.
pub proof fn law_distance_symmetric(
    lists: Seq<Seq<(usize, u64)>>,
    allowed: Seq<bool>,
    s: int,
    t: int,
)
    requires
        two_way(lists),
        forall|v: int| 0 <= v < lists.len() ==> #[trigger] allowed[v],
    ensures
        distance(lists, allowed, s, t) == distance(lists, allowed, t, s),
{
    if exists|d: nat| is_distance(lists, allowed, s, t, d) {
        let d = choose|d: nat| is_distance(lists, allowed, s, t, d);
        lemma_reach_back(lists, allowed, s, t, d);
        if d > 0 && reach(lists, allowed, t, s, (d - 1) as nat) {
            lemma_reach_back(lists, allowed, t, s, (d - 1) as nat);
        }
        lemma_distance(lists, allowed, s, t, d);
        lemma_distance(lists, allowed, t, s, d);
    } else if exists|d: nat| is_distance(lists, allowed, t, s, d) {
        let d = choose|d: nat| is_distance(lists, allowed, t, s, d);
        lemma_reach_back(lists, allowed, t, s, d);
        let e = lemma_reach_has_distance(lists, allowed, s, t, d);
    }
}

/// A list has an entry for node `v`.
pub open spec fn lists_node(list: Seq<(usize, u64)>, v: int) -> bool {
    exists|e: int| 0 <= e < list.len() && (#[trigger] list[e]).0 == v
}

/// A walk: nodes of which each has an entry in the list of the one before it.
pub open spec fn is_walk(lists: Seq<Seq<(usize, u64)>>, walk: Seq<int>) -> bool {
    &&& walk.len() > 0
    &&& forall|i: int| 0 <= i < walk.len() ==> 0 <= (#[trigger] walk[i]) < lists.len()
    &&& forall|i: int, j: int|
        0 <= i && j == i + 1 && j < walk.len() ==> #[trigger] lists_node(
            lists[walk[i]],
            walk[j],
        )
}

/// A walk from `s` to `t` of `d` steps.
pub open spec fn walks(
    lists: Seq<Seq<(usize, u64)>>,
    walk: Seq<int>,
    s: int,
    t: int,
    d: nat,
) -> bool {
    &&& is_walk(lists, walk)
    &&& walk.len() == d + 1
    &&& walk[0] == s
    &&& walk[d as int] == t
}

/// What is reached in at most `d` steps is reached by a walk of no more steps.
proof fn lemma_reach_walks(
    lists: Seq<Seq<(usize, u64)>>,
    allowed: Seq<bool>,
    s: int,
    t: int,
    d: nat,
) -> (walk: Seq<int>)
    requires
        0 <= s < lists.len() <= usize::MAX,
        reach(lists, allowed, s, t, d),
    ensures
        walk.len() <= d + 1,
        walk.len() > 0,
        walks(lists, walk, s, t, (walk.len() - 1) as nat),
    decreases d,
{
    if d == 0 {
        seq![s]
    } else if reach(lists, allowed, s, t, (d - 1) as nat) {
        lemma_reach_walks(lists, allowed, s, t, (d - 1) as nat)
    } else {
        let u = lemma_reach_before(lists, allowed, s, t, (d - 1) as nat);
        let front = lemma_reach_walks(lists, allowed, s, u, (d - 1) as nat);
        let walk = front.push(t);
        assert forall|i: int| 0 <= i < walk.len() implies 0 <= (#[trigger] walk[i])
            < lists.len() by {
            if i < front.len() {
                assert(walk[i] == front[i]);
            }
        }
        assert forall|i: int, j: int|
            0 <= i && j == i + 1 && j < walk.len() implies #[trigger] lists_node(
            lists[walk[i]],
            walk[j],
        ) by {
            if j < front.len() {
                assert(walk[i] == front[i] && walk[j] == front[j]);
                assert(lists_node(lists[front[i]], front[j]));
            } else {
                assert(walk[i] == u && walk[j] == t);
                let e = choose|e: int|
                    0 <= e < lists[u].len() && (#[trigger] lists[u][e]).0 == t as usize;
                assert(lists[u][e].0 == t);
            }
        }
        assert(walk[0] == front[0]);
        walk
    }
}

/// What a walk comes to is reached in as many steps, if every node may be entered.
proof fn lemma_walk_reaches(
    lists: Seq<Seq<(usize, u64)>>,
    allowed: Seq<bool>,
    walk: Seq<int>,
    s: int,
    t: int,
    d: nat,
)
    requires
        walks(lists, walk, s, t, d),
        lists.len() <= usize::MAX,
        allowed.len() == lists.len(),
        forall|v: int| 0 <= v < allowed.len() ==> #[trigger] allowed[v],
    ensures
        reach(lists, allowed, s, t, d),
    decreases d,
{
    if d > 0 {
        let front = walk.drop_last();
        let u = walk[d - 1];
        assert forall|i: int, j: int|
            0 <= i && j == i + 1 && j < front.len() implies #[trigger] lists_node(
            lists[front[i]],
            front[j],
        ) by {
            assert(front[i] == walk[i] && front[j] == walk[j]);
            assert(lists_node(lists[walk[i]], walk[j]));
        }
        assert forall|i: int| 0 <= i < front.len() implies 0 <= (#[trigger] front[i])
            < lists.len() by {
            assert(front[i] == walk[i]);
        }
        assert(walks(lists, front, s, u, (d - 1) as nat));
        lemma_walk_reaches(lists, allowed, front, s, u, (d - 1) as nat);
        assert(walk[d as int] == t);
        assert(lists_node(lists[walk[d - 1]], walk[d as int]));
        let e = choose|e: int| 0 <= e < lists[u].len() && (#[trigger] lists[u][e]).0 == t;
        assert(names(lists[u], t as usize)) by {
            assert(lists[u][e].0 == t as usize);
        }
        assert(allowed[t]);
        assert(step(lists, allowed, u, t));
    }
}

/// The distance between two nodes is the number of steps of a shortest walk: there is a
/// walk of as many steps, and none of fewer. Nodes without a distance have no walk
/// between them.
pub proof fn law_distance_is_shortest_walk(
    lists: Seq<Seq<(usize, u64)>>,
    allowed: Seq<bool>,
    s: int,
    t: int,
    d: nat,
)
    requires
        0 <= s < lists.len() <= usize::MAX,
        allowed.len() == lists.len(),
        forall|v: int| 0 <= v < allowed.len() ==> #[trigger] allowed[v],
    ensures
        distance(lists, allowed, s, t) == Some(d) <==> {
            &&& exists|walk: Seq<int>| #[trigger] walks(lists, walk, s, t, d)
            &&& forall|walk: Seq<int>, e: nat| #[trigger] walks(lists, walk, s, t, e) ==> d <= e
        },
{
    if distance(lists, allowed, s, t) == Some(d) {
        assert(is_distance(lists, allowed, s, t, d));
        let walk = lemma_reach_walks(lists, allowed, s, t, d);
        assert forall|w: Seq<int>, e: nat| #[trigger] walks(lists, w, s, t, e) implies d <= e by {
            lemma_walk_reaches(lists, allowed, w, s, t, e);
            if e < d {
                lemma_reach_monotone(lists, allowed, s, t, e, (d - 1) as nat);
            }
        }
        assert(walk.len() - 1 == d);
        assert(walks(lists, walk, s, t, d));
    }
    if (exists|walk: Seq<int>| #[trigger] walks(lists, walk, s, t, d)) && (forall|
        walk: Seq<int>,
        e: nat,
    | #[trigger]
        walks(lists, walk, s, t, e) ==> d <= e) {
        let walk = choose|walk: Seq<int>| #[trigger] walks(lists, walk, s, t, d);
        lemma_walk_reaches(lists, allowed, walk, s, t, d);
        let e = lemma_reach_has_distance(lists, allowed, s, t, d);
        let short = lemma_reach_walks(lists, allowed, s, t, e);
        assert(d <= short.len() - 1);
        lemma_distance(lists, allowed, s, t, e);
    }
}

} // verus!
