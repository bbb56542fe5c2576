//! The shortest-path structure behind betweenness centrality.
//!
//! Brandes' algorithm runs one breadth-first search per source over the simple
//! graph, in which parallel edges are collapsed and self-loops dropped, and adds up
//! dependencies along the predecessors of each node. This module chooses the
//! sources and computes, for each, the order of discovery, the distances and the
//! predecessors; adding up the dependencies is left to the caller.
use crate::bfs::{discovered, distance, is_distance, lemma_distance, reach, search, targets_valid};
use crate::corridor::{everywhere, unknown};
use crate::graph::Graph;
use crate::hub::{increasing, lemma_same_members, sorted_distinct};
use crate::moving::{start_state, swapped, xorshift, xorshift64};
use crate::partition::{count_up, singletons};
use crate::tally::names;
use crate::weighted::{entries_valid, lists_of};
use vstd::prelude::*;

verus! {

/// `simple` is the list of the distinct neighbors that `list` gives node `u`,
/// other than itself, ascending.
pub open spec fn is_simple(simple: Seq<(usize, u64)>, list: Seq<(usize, u64)>, u: int) -> bool {
    &&& forall|i: int, j: int|
        0 <= i < j < simple.len() ==> (#[trigger] simple[i]).0 < (#[trigger] simple[j]).0
    &&& forall|i: int| 0 <= i < simple.len() ==> (#[trigger] simple[i]).1 == 1
    &&& forall|v: usize| #[trigger] names(simple, v) <==> names(list, v) && v != u
}

/// The adjacency lists of the simple graph behind `graph`.
pub fn simple_adjacency(graph: &Graph) -> (adj: Vec<Vec<(usize, u64)>>)
    requires
        graph.wf(),
    ensures
        adj@.len() == graph.ids().len(),
        targets_valid(lists_of(adj@)),
        forall|u: int|
            0 <= u < adj@.len() ==> is_simple((#[trigger] adj@[u])@, graph.lists()[u], u),
{
    let n: usize = graph.node_count();
    let ghost lists = graph.lists();
    proof {
        graph.lemma_wf();
    }
    let mut adj: Vec<Vec<(usize, u64)>> = Vec::new();
    let mut u: usize = 0;
    while u < n
        invariant
            u <= n,
            graph.wf(),
            lists == graph.lists(),
            n == lists.len() == graph.ids().len(),
            forall|x: int| 0 <= x < n ==> entries_valid(#[trigger] lists[x], n as nat),
            adj@.len() == u,
            forall|x: int| 0 <= x < u ==> is_simple((#[trigger] adj@[x])@, lists[x], x),
            forall|x: int| 0 <= x < u ==> entries_valid((#[trigger] adj@[x])@, n as nat),
        decreases n - u,
    {
        let list = graph.neighbors(u);
        let mut targets: Vec<usize> = Vec::new();
        let mut i: usize = 0;
        assert(entries_valid(lists[u as int], n as nat));
        while i < list.len()
            invariant
                i <= list.len(),
                entries_valid(list@, n as nat),
                forall|x: usize| #[trigger]
                    targets@.contains(x) <==> names(list@.take(i as int), x) && x != u,
                forall|j: int| 0 <= j < targets@.len() ==> (#[trigger] targets@[j]) < n,
            decreases list.len() - i,
        {
            let v: usize = list[i].0;
            let ghost before = targets@;
            if v != u {
                targets.push(v);
            }
            proof {
                let front = list@.take(i as int);
                let after = list@.take(i + 1);
                assert(after =~= front.push(list@[i as int]));
                assert forall|x: usize| #[trigger] targets@.contains(x) <==> names(after, x) && x
                    != u by {
                    if before.contains(x) {
                        let a = choose|a: int| 0 <= a < before.len() && before[a] == x;
                        assert(targets@[a] == x);
                    }
                    if targets@.contains(x) && x != v {
                        let a = choose|a: int| 0 <= a < targets@.len() && targets@[a] == x;
                        assert(before[a] == x);
                    }
                    if names(front, x) {
                        let a = choose|a: int| 0 <= a < front.len() && (#[trigger] front[a]).0 == x;
                        assert(after[a].0 == x);
                    }
                    if names(after, x) && x != v {
                        let a = choose|a: int| 0 <= a < after.len() && (#[trigger] after[a]).0 == x;
                        assert(front[a].0 == x);
                    }
                    if x == v {
                        assert(after[i as int].0 == x);
                        if x != u {
                            assert(targets@[before.len() as int] == x);
                        }
                        if x == u && targets@.contains(x) {
                            assert(before.contains(x));
                        }
                    }
                }
            }
            i += 1;
        }
        assert(list@.take(i as int) =~= list@);
        let sorted = sorted_distinct(targets.as_slice());
        let mut simple: Vec<(usize, u64)> = Vec::new();
        let mut j: usize = 0;
        while j < sorted.len()
            invariant
                j <= sorted.len(),
                simple@ == Seq::new(j as nat, |x: int| (sorted@[x], 1u64)),
            decreases sorted.len() - j,
        {
            simple.push((sorted[j], 1));
            assert(simple@ =~= Seq::new((j + 1) as nat, |x: int| (sorted@[x], 1u64)));
            j += 1;
        }
        proof {
            assert forall|v: usize| #[trigger] names(simple@, v) <==> names(list@, v) && v != u by {
                assert(sorted@.contains(v) <==> targets@.contains(v));
                if names(simple@, v) {
                    let a = choose|a: int| 0 <= a < simple@.len() && (#[trigger] simple@[a]).0 == v;
                    assert(sorted@[a] == v);
                    assert(sorted@.contains(v));
                }
                if sorted@.contains(v) {
                    let a = choose|a: int| 0 <= a < sorted@.len() && sorted@[a] == v;
                    assert(simple@[a].0 == v);
                }
            }
            assert forall|a: int| 0 <= a < simple@.len() implies (#[trigger] simple@[a]).0 < n
                && simple@[a].1 > 0 by {
                assert(sorted@.contains(sorted@[a]));
                assert(targets@.contains(sorted@[a]));
            }
        }
        adj.push(simple);
        u += 1;
    }
    proof {
        assert forall|x: int, i: int|
            0 <= x < lists_of(adj@).len() && 0 <= i < lists_of(adj@)[x].len() implies (
        #[trigger] lists_of(adj@)[x][i]).0 < lists_of(adj@).len() by {
            assert(entries_valid(adj@[x]@, n as nat));
        }
    }
    adj
}

/// `idx` after `samples` draws of a partial Fisher-Yates shuffle, of which the first
/// `i` are done: each draw exchanges place `i` with one at or above it.
pub open spec fn drawn(idx: Seq<usize>, i: nat, samples: nat, state: u64) -> Seq<usize>
    decreases samples - i,
{
    if i >= samples || samples > idx.len() {
        idx
    } else {
        let next = xorshift(state);
        let j = i + (next as usize) as int % (idx.len() - i);
        drawn(swapped(idx, i as int, j), i + 1, samples, next)
    }
}

proof fn lemma_drawn(idx: Seq<usize>, i: nat, samples: nat, state: u64)
    requires
        idx.no_duplicates(),
    ensures
        drawn(idx, i, samples, state).len() == idx.len(),
        drawn(idx, i, samples, state).no_duplicates(),
    decreases samples - i,
{
    if i >= samples || samples > idx.len() {
    } else {
        let next = xorshift(state);
        let m = idx.len() - i;
        let r = (next as usize) as int;
        let j = i + r % m;
        assert(0 <= r % m < m) by (nonlinear_arith)
            requires
                m > 0,
        ;
        lemma_drawn(swapped(idx, i as int, j), i + 1, samples, next);
    }
}

/// Chooses the sources: none, all nodes, or `samples` distinct nodes drawn with the
/// seed, in ascending order.
pub fn pick_sources(n: usize, samples: usize, seed: u64) -> (sources: Vec<usize>)
    ensures
        increasing(sources@),
        sources@.len() == (if samples < n {
            samples
        } else {
            n
        }),
        samples >= n ==> sources@ == singletons(n as nat),
        samples < n ==> forall|x: usize|
            sources@.contains(x) <==> #[trigger] drawn(
                singletons(n as nat),
                0,
                samples as nat,
                start_state(seed),
            ).take(samples as int).contains(x),
{
    let mut idx: Vec<usize> = count_up(n);
    if samples >= n {
        return idx;
    }
    let mut state: u64 = if seed == 0 {
        1
    } else {
        seed
    };
    let ghost goal = drawn(idx@, 0, samples as nat, state);
    proof {
        lemma_drawn(idx@, 0, samples as nat, state);
    }
    let mut i: usize = 0;
    while i < samples
        invariant
            i <= samples < n == idx@.len(),
            goal == drawn(idx@, i as nat, samples as nat, state),
        decreases samples - i,
    {
        let r: u64 = xorshift64(&mut state);
        let j: usize = i + (r as usize) % (n - i);
        let a: usize = idx[i];
        let b: usize = idx[j];
        idx.set(i, b);
        idx.set(j, a);
        i += 1;
    }
    let mut picked: Vec<usize> = Vec::new();
    let mut k: usize = 0;
    while k < samples
        invariant
            k <= samples < idx@.len(),
            picked@ == idx@.take(k as int),
        decreases samples - k,
    {
        picked.push(idx[k]);
        assert(idx@.take(k + 1) =~= idx@.take(k as int).push(idx@[k as int]));
        k += 1;
    }
    let sources = sorted_distinct(picked.as_slice());
    proof {
        assert(picked@.no_duplicates());
        lemma_same_members(sources@, picked@);
        assert forall|x: usize| sources@.contains(x) <==> #[trigger] goal.take(
            samples as int,
        ).contains(x) by {
            assert(sources@.contains(x) <==> picked@.contains(x));
        }
    }
    sources
}

/// The nodes among the first `k` of `order` from which a shortest path steps to `w`.
pub open spec fn predecessors(
    lists: Seq<Seq<(usize, u64)>>,
    s: usize,
    order: Seq<usize>,
    k: nat,
    w: int,
) -> Seq<usize>
    decreases k,
{
    if k == 0 {
        Seq::empty()
    } else {
        let front = predecessors(lists, s, order, (k - 1) as nat, w);
        let v = order[k - 1];
        if names(lists[v as int], w as usize) && precedes_on_path(lists, s, v as int, w) {
            front.push(v)
        } else {
            front
        }
    }
}

/// `w` is exactly one step further from `s` than `v`.
pub open spec fn precedes_on_path(
    lists: Seq<Seq<(usize, u64)>>,
    s: usize,
    v: int,
    w: int,
) -> bool {
    let all = everywhere(lists.len());
    match (distance(lists, all, s as int, v), distance(lists, all, s as int, w)) {
        (Some(a), Some(b)) => b == a + 1,
        _ => false,
    }
}

/// The shortest paths from one source.
pub struct ShortestPaths {
    /// The nodes that the source reaches, in the order of discovery.
    pub order: Vec<usize>,
    /// The distance of each node, if the source reaches it.
    pub dist: Vec<Option<usize>>,
    /// The predecessors of each node on shortest paths from the source.
    pub preds: Vec<Vec<usize>>,
}

/// The shortest paths from `s` over ascending lists without repetitions.
pub fn shortest_paths(adj: &Vec<Vec<(usize, u64)>>, s: usize) -> (paths: ShortestPaths)
    requires
        targets_valid(lists_of(adj@)),
        forall|u: int, i: int, j: int|
            0 <= u < adj@.len() && 0 <= i < j < adj@[u]@.len() ==> (#[trigger] adj@[u]@[i]).0 < (
            #[trigger] adj@[u]@[j]).0,
        s < adj@.len(),
    ensures
        paths.order@ == discovered(
            lists_of(adj@),
            everywhere(adj@.len()),
            s,
            paths.order@.len(),
        ),
        paths.order@.no_duplicates(),
        forall|j: int| 0 <= j < paths.order@.len() ==> (#[trigger] paths.order@[j]) < adj@.len(),
        paths.dist@.len() == adj@.len(),
        forall|v: int|
            0 <= v < adj@.len() ==> crate::corridor::same_distance(
                #[trigger] paths.dist@[v],
                distance(lists_of(adj@), everywhere(adj@.len()), s as int, v),
            ),
        forall|v: int|
            0 <= v < adj@.len() ==> ((#[trigger] paths.dist@[v]) is Some
                <==> paths.order@.contains(v as usize)),
        paths.preds@.len() == adj@.len(),
        forall|w: int|
            0 <= w < adj@.len() ==> (#[trigger] paths.preds@[w])@ == predecessors(
                lists_of(adj@),
                s,
                paths.order@,
                paths.order@.len(),
                w,
            ),
{
    let n: usize = adj.len();
    let ghost lists = lists_of(adj@);
    let ghost all = everywhere(n as nat);
    let mut allowed: Vec<bool> = Vec::new();
    let mut preds: Vec<Vec<usize>> = Vec::new();
    let mut v: usize = 0;
    while v < n
        invariant
            v <= n,
            allowed@ =~= everywhere(v as nat),
            preds@.len() == v,
            forall|w: int| 0 <= w < v ==> (#[trigger] preds@[w])@ == Seq::<usize>::empty(),
        decreases n - v,
    {
        allowed.push(true);
        preds.push(Vec::new());
        v += 1;
    }
    let mut dist = unknown(n);
    let found = search(adj, &allowed, s, usize::MAX, &mut dist);
    let order = found.order;
    proof {
        assert forall|v: int| 0 <= v < n implies crate::corridor::same_distance(
            #[trigger] dist@[v],
            distance(lists, all, s as int, v),
        ) by {
            match dist@[v] {
                Some(d) => {
                    lemma_distance(lists, all, s as int, v, d as nat);
                },
                None => {
                    if let Some(d) = distance(lists, all, s as int, v) {
                        assert(is_distance(lists, all, s as int, v, d));
                        assert(reach(lists, all, s as int, v, d));
                    }
                },
            }
        }
    }
    let mut k: usize = 0;
    while k < order.len()
        invariant
            k <= order.len(),
            lists == lists_of(adj@),
            all == everywhere(n as nat),
            n == adj@.len() == lists.len() == dist@.len() == preds@.len(),
            s < n,
            targets_valid(lists),
            forall|u: int, i: int, j: int|
                0 <= u < adj@.len() && 0 <= i < j < adj@[u]@.len() ==> (#[trigger] adj@[u]@[i]).0
                    < (#[trigger] adj@[u]@[j]).0,
            forall|j: int|
                0 <= j < order@.len() ==> (#[trigger] order@[j]) < n && dist@[order@[j] as int]
                    is Some,
            forall|v: int|
                0 <= v < n ==> crate::corridor::same_distance(
                    #[trigger] dist@[v],
                    distance(lists, all, s as int, v),
                ),
            forall|w: int|
                0 <= w < n ==> (#[trigger] preds@[w])@ == predecessors(
                    lists,
                    s,
                    order@,
                    k as nat,
                    w,
                ),
        decreases order.len() - k,
    {
        let u: usize = order[k];
        assert(order@[k as int] < n && dist@[order@[k as int] as int] is Some);
        let du: usize = match dist[u] {
            Some(d) => d,
            None => 0,
        };
        let list = &adj[u];
        let mut i: usize = 0;
        assert(list@ == lists[u as int]);
        while i < list.len()
            invariant
                i <= list.len(),
                lists == lists_of(adj@),
                all == everywhere(n as nat),
                n == adj@.len() == lists.len() == dist@.len() == preds@.len(),
                targets_valid(lists),
                u < n,
                k < order@.len(),
                order@[k as int] == u,
                list@ == lists[u as int],
                list@ == adj@[u as int]@,
                forall|a: int, b: int|
                    0 <= a < b < list@.len() ==> (#[trigger] list@[a]).0 < (#[trigger] list@[b]).0,
                dist@[u as int] == Some(du),
                forall|v: int|
                    0 <= v < n ==> crate::corridor::same_distance(
                        #[trigger] dist@[v],
                        distance(lists, all, s as int, v),
                    ),
                forall|w: int|
                    0 <= w < n ==> (#[trigger] preds@[w])@ == predecessors(
                        lists,
                        s,
                        order@,
                        if names(list@.take(i as int), w as usize) {
                            (k + 1) as nat
                        } else {
                            k as nat
                        },
                        w,
                    ),
            decreases list.len() - i,
        {
            let w: usize = list[i].0;
            assert(lists[u as int][i as int].0 < lists.len());
            let ghost before = preds@;
            let ghost front = list@.take(i as int);
            proof {
                assert(!names(front, w)) by {
                    if names(front, w) {
                        let a = choose|a: int| 0 <= a < front.len() && (#[trigger] front[a]).0 == w;
                        assert(list@[a].0 < list@[i as int].0);
                    }
                }
                assert(names(list@, w)) by {
                    assert(list@[i as int].0 == w);
                }
                assert(crate::corridor::same_distance(
                    dist@[u as int],
                    distance(lists, all, s as int, u as int),
                ));
                assert(crate::corridor::same_distance(
                    dist@[w as int],
                    distance(lists, all, s as int, w as int),
                ));
            }
            let next = match dist[w] {
                Some(dw) => dw > 0 && dw - 1 == du,
                None => false,
            };
            if next {
                preds[w].push(u);
            }
            proof {
                let after = list@.take(i + 1);
                assert(after =~= front.push(list@[i as int]));
                assert forall|x: int| 0 <= x < n implies (#[trigger] preds@[x])@ == predecessors(
                    lists,
                    s,
                    order@,
                    if names(after, x as usize) {
                        (k + 1) as nat
                    } else {
                        k as nat
                    },
                    x,
                ) by {
                    assert(before[x]@ == predecessors(
                        lists,
                        s,
                        order@,
                        if names(front, x as usize) {
                            (k + 1) as nat
                        } else {
                            k as nat
                        },
                        x,
                    ));
                    if x == w {
                        assert(after[i as int].0 == x as usize);
                        assert(names(after, x as usize));
                        assert(next == precedes_on_path(lists, s, u as int, x));
                    } else {
                        assert(names(after, x as usize) <==> names(front, x as usize)) by {
                            if names(front, x as usize) {
                                let a = choose|a: int|
                                    0 <= a < front.len() && (#[trigger] front[a]).0 == x as usize;
                                assert(after[a].0 == x as usize);
                            }
                            if names(after, x as usize) {
                                let a = choose|a: int|
                                    0 <= a < after.len() && (#[trigger] after[a]).0 == x as usize;
                                assert(front[a].0 == x as usize);
                            }
                        }
                    }
                }
            }
            i += 1;
        }
        proof {
            assert(list@.take(i as int) =~= list@);
            assert forall|w: int| 0 <= w < n implies (#[trigger] preds@[w])@ == predecessors(
                lists,
                s,
                order@,
                (k + 1) as nat,
                w,
            ) by {}
        }
        k += 1;
    }
    ShortestPaths { order, dist, preds }
}

/// The predecessors of a node are, of the nodes searched, those that lead to it and are
/// one step closer to the source.
pub proof fn law_predecessors_are_closer(
    lists: Seq<Seq<(usize, u64)>>,
    s: usize,
    order: Seq<usize>,
    k: nat,
    w: int,
    v: usize,
)
    requires
        k <= order.len(),
    ensures
        predecessors(lists, s, order, k, w).contains(v) <==> {
            let all = everywhere(lists.len());
            let near = distance(lists, all, s as int, v as int);
            let far = distance(lists, all, s as int, w);
            &&& order.take(k as int).contains(v)
            &&& names(lists[v as int], w as usize)
            &&& near is Some && far is Some && far->0 == near->0 + 1
        },
    decreases k,
{
    let now = order.take(k as int);
    let all = predecessors(lists, s, order, k, w);
    if k > 0 {
        law_predecessors_are_closer(lists, s, order, (k - 1) as nat, w, v);
        let front = order.take(k - 1);
        let before = predecessors(lists, s, order, (k - 1) as nat, w);
        assert(now =~= front.push(order[k - 1]));
        assert(now.contains(v) <==> front.contains(v) || order[k - 1] == v) by {
            if front.contains(v) {
                let i = choose|i: int| 0 <= i < front.len() && front[i] == v;
                assert(now[i] == v);
            }
            if order[k - 1] == v {
                assert(now[k - 1] == v);
            }
        }
        let last = order[k - 1];
        let more = before.push(last);
        assert(more.contains(v) <==> before.contains(v) || last == v) by {
            if before.contains(v) {
                let i = choose|i: int| 0 <= i < before.len() && before[i] == v;
                assert(more[i] == v);
            }
            if last == v {
                assert(more[before.len() as int] == v);
            }
        }
    } else {
        assert(now =~= Seq::empty());
        assert(all =~= Seq::empty());
    }
}

} // verus!
