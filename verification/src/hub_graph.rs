//! The hub graph: hubs linked to the hubs within a few steps of them.
//!
//! A link holds the number of steps. Its weight, for those who want one, is the
//! reciprocal of that number, so nearer hubs are linked more strongly.
use crate::bfs::{
    distance, is_distance, law_distance_is_shortest_walk, law_distance_symmetric, lemma_distance,
    lemma_reach_monotone, lemma_two_way, reach, search, targets_valid, walks,
};
use crate::corridor::{everywhere, lemma_targets, unknown};
use crate::graph::Graph;
use crate::hub::{increasing, sorted_distinct, HubSet};
use crate::weighted::{entries_valid, lists_of, matrix, symmetric};
use vstd::prelude::*;

verus! {

/// The number of steps of the link from hub `h` to hub `v`: their distance, if they
/// are different and it is at most `k_hop`.
pub open spec fn link(lists: Seq<Seq<(usize, u64)>>, k_hop: nat, h: usize, v: usize) -> Option<
    nat,
> {
    match distance(lists, everywhere(lists.len()), h as int, v as int) {
        Some(d) => if v != h && d <= k_hop {
            Some(d)
        } else {
            None
        },
        None => None,
    }
}

/// The links of hub `h` to the first `j` hubs, in ascending order.
pub open spec fn links(
    lists: Seq<Seq<(usize, u64)>>,
    hubs: Seq<usize>,
    k_hop: nat,
    h: usize,
    j: nat,
) -> Seq<(usize, usize)>
    decreases j,
{
    if j == 0 {
        Seq::empty()
    } else {
        let front = links(lists, hubs, k_hop, h, (j - 1) as nat);
        match link(lists, k_hop, h, hubs[j - 1]) {
            Some(d) => front.push((hubs[j - 1], d as usize)),
            None => front,
        }
    }
}

/// The hubs of a graph and the links between them.
#[derive(Debug)]
pub struct HubGraph {
    hubs: HubSet,
    adj: Vec<Vec<(usize, usize)>>,
}

/// The links are exactly those to hubs within reach, ascending.
proof fn lemma_links(
    lists: Seq<Seq<(usize, u64)>>,
    hubs: Seq<usize>,
    k_hop: nat,
    h: usize,
    j: nat,
)
    requires
        increasing(hubs),
        j <= hubs.len(),
    ensures
        links(lists, hubs, k_hop, h, j).len() <= j,
        forall|i: int|
            0 <= i < links(lists, hubs, k_hop, h, j).len() ==> {
                let e = #[trigger] links(lists, hubs, k_hop, h, j)[i];
                &&& hubs.take(j as int).contains(e.0)
                &&& link(lists, k_hop, h, e.0) is Some
                &&& e.1 == link(lists, k_hop, h, e.0)->0 as usize
            },
        forall|a: int, b: int|
            0 <= a < b < links(lists, hubs, k_hop, h, j).len() ==> (#[trigger] links(
                lists,
                hubs,
                k_hop,
                h,
                j,
            )[a]).0 < (#[trigger] links(lists, hubs, k_hop, h, j)[b]).0,
        forall|v: usize|
            hubs.take(j as int).contains(v) && (#[trigger] link(lists, k_hop, h, v)) is Some
                ==> links(lists, hubs, k_hop, h, j).contains(
                (v, link(lists, k_hop, h, v)->0 as usize),
            ),
    decreases j,
{
    if j > 0 {
        lemma_links(lists, hubs, k_hop, h, (j - 1) as nat);
        let front = links(lists, hubs, k_hop, h, (j - 1) as nat);
        let all = links(lists, hubs, k_hop, h, j);
        let prefix = hubs.take(j as int);
        let shorter = hubs.take(j - 1);
        let last = hubs[j - 1];
        assert(prefix =~= shorter.push(last));
        assert(prefix[j - 1] == last);
        assert forall|i: int| 0 <= i < all.len() implies ({
            let e = #[trigger] all[i];
            &&& prefix.contains(e.0)
            &&& link(lists, k_hop, h, e.0) is Some
            &&& e.1 == link(lists, k_hop, h, e.0)->0 as usize
        }) by {
            if i < front.len() {
                assert(all[i] == front[i]);
                assert(shorter.contains(front[i].0));
                let p = choose|p: int| 0 <= p < shorter.len() && shorter[p] == front[i].0;
                assert(prefix[p] == front[i].0);
            }
        }
        assert forall|a: int, b: int| 0 <= a < b < all.len() implies (#[trigger] all[a]).0 < (
        #[trigger] all[b]).0 by {
            assert(all[a] == front[a]);
            if b < front.len() {
                assert(all[b] == front[b]);
            } else {
                assert(shorter.contains(front[a].0));
                let p = choose|p: int| 0 <= p < shorter.len() && shorter[p] == front[a].0;
                assert(hubs[p] < hubs[j - 1]);
            }
        }
        assert forall|v: usize|
            prefix.contains(v) && (#[trigger] link(lists, k_hop, h, v)) is Some implies all.contains(
            (v, link(lists, k_hop, h, v)->0 as usize),
        ) by {
            let e = (v, link(lists, k_hop, h, v)->0 as usize);
            let p = choose|p: int| 0 <= p < prefix.len() && prefix[p] == v;
            if p < j - 1 {
                assert(shorter[p] == v);
                assert(front.contains(e));
                let i = choose|i: int| 0 <= i < front.len() && front[i] == e;
                assert(all[i] == e);
            } else {
                assert(all[front.len() as int] == e);
            }
        }
    }
}

/// Two ascending lists of entries with the same members are the same.
proof fn lemma_same_entries(a: Seq<(usize, usize)>, b: Seq<(usize, usize)>)
    requires
        forall|i: int, j: int| 0 <= i < j < a.len() ==> (#[trigger] a[i]).0 < (#[trigger] a[j]).0,
        forall|i: int, j: int| 0 <= i < j < b.len() ==> (#[trigger] b[i]).0 < (#[trigger] b[j]).0,
        forall|x: (usize, usize)| #[trigger] a.contains(x) <==> b.contains(x),
    ensures
        a == b,
    decreases a.len(),
{
    if a.len() == 0 {
        if b.len() > 0 {
            assert(b.contains(b[0]));
            assert(a.contains(b[0]));
        }
        assert(a =~= b);
    } else {
        assert(a.contains(a.last()));
        assert(b.contains(a.last()));
        let j = choose|j: int| 0 <= j < b.len() && b[j] == a.last();
        assert(b.contains(b.last()));
        assert(a.contains(b.last()));
        let i = choose|i: int| 0 <= i < a.len() && a[i] == b.last();
        assert(a.last() == b.last()) by {
            if j < b.len() - 1 {
                assert(b[j].0 < b[b.len() - 1].0);
                if i < a.len() - 1 {
                    assert(a[i].0 < a[a.len() - 1].0);
                }
            }
        }
        let a2 = a.drop_last();
        let b2 = b.drop_last();
        assert forall|x: (usize, usize)| #[trigger] a2.contains(x) <==> b2.contains(x) by {
            if a2.contains(x) {
                let p = choose|p: int| 0 <= p < a2.len() && a2[p] == x;
                assert(a[p] == x);
                assert(a[p].0 < a[a.len() - 1].0);
                assert(a.contains(x));
                assert(b.contains(x));
                let q = choose|q: int| 0 <= q < b.len() && b[q] == x;
                assert(b2[q] == x);
            }
            if b2.contains(x) {
                let p = choose|p: int| 0 <= p < b2.len() && b2[p] == x;
                assert(b[p] == x);
                assert(b[p].0 < b[b.len() - 1].0);
                assert(b.contains(x));
                assert(a.contains(x));
                let q = choose|q: int| 0 <= q < a.len() && a[q] == x;
                assert(a2[q] == x);
            }
        }
        lemma_same_entries(a2, b2);
        assert(a =~= a2.push(a.last()));
        assert(b =~= b2.push(b.last()));
    }
}

/// The total number of entries of some lists.
pub open spec fn entry_count(adj: Seq<Seq<(usize, usize)>>) -> nat
    decreases adj.len(),
{
    if adj.len() == 0 {
        0
    } else {
        entry_count(adj.drop_last()) + adj.last().len()
    }
}

impl HubGraph {
    /// The hubs, ascending.
    pub closed spec fn hubs(&self) -> Seq<usize> {
        self.hubs@
    }

    /// The links of each hub, in the order of the hubs.
    pub closed spec fn link_lists(&self) -> Seq<Seq<(usize, usize)>> {
        Seq::new(self.adj@.len(), |i: int| self.adj@[i]@)
    }

    /// There is one list for each hub, and no list is longer than the number of hubs.
    pub open spec fn wf(&self) -> bool {
        &&& increasing(self.hubs())
        &&& self.hubs().len() <= usize::MAX
        &&& self.link_lists().len() == self.hubs().len()
        &&& forall|i: int|
            0 <= i < self.link_lists().len() ==> (#[trigger] self.link_lists()[i]).len()
                <= self.hubs().len()
    }

    /// Links every hub to the hubs within `k_hop` steps of it.
    pub fn build(graph: &Graph, hubs: &HubSet, k_hop: usize) -> (hg: Self)
        requires
            graph.wf(),
            hubs.wf(),
            forall|i: int| 0 <= i < hubs@.len() ==> (#[trigger] hubs@[i]) < graph.ids().len(),
        ensures
            hg.wf(),
            hg.hubs() == hubs@,
            forall|i: int|
                0 <= i < hubs@.len() ==> #[trigger] hg.link_lists()[i] == links(
                    graph.lists(),
                    hubs@,
                    k_hop as nat,
                    hubs@[i],
                    hubs@.len(),
                ),
    {
        let n: usize = graph.node_count();
        let ghost lists = graph.lists();
        let ghost all = everywhere(n as nat);
        proof {
            graph.lemma_wf();
            lemma_targets(lists);
        }
        let mut allowed: Vec<bool> = Vec::new();
        let mut is_hub: Vec<bool> = Vec::new();
        let mut v: usize = 0;
        while v < n
            invariant
                v <= n,
                hubs.wf(),
                allowed@ =~= everywhere(v as nat),
                is_hub@.len() == v,
                forall|x: int| 0 <= x < v ==> #[trigger] is_hub@[x] == hubs@.contains(x as usize),
            decreases n - v,
        {
            allowed.push(true);
            is_hub.push(hubs.contains(v));
            v += 1;
        }
        let adj = graph.body().adjacency();
        let mut dist = unknown(n);
        let mut out: Vec<Vec<(usize, usize)>> = Vec::new();
        let members = hubs.iter();
        let mut i: usize = 0;
        while i < members.len()
            invariant
                i <= members.len(),
                members@ == hubs@,
                hubs.wf(),
                n == lists.len() == graph.ids().len() == adj@.len(),
                lists == graph.lists(),
                lists == lists_of(adj@),
                all == everywhere(n as nat),
                allowed@ == all,
                targets_valid(lists),
                is_hub@.len() == n,
                forall|x: int| 0 <= x < n ==> #[trigger] is_hub@[x] == hubs@.contains(x as usize),
                forall|x: int| 0 <= x < hubs@.len() ==> (#[trigger] hubs@[x]) < n,
                dist@.len() == n,
                forall|x: int| 0 <= x < n ==> (#[trigger] dist@[x]) is None,
                out@.len() == i,
                forall|x: int|
                    0 <= x < i ==> (#[trigger] out@[x])@ == links(
                        lists,
                        hubs@,
                        k_hop as nat,
                        hubs@[x],
                        hubs@.len(),
                    ),
            decreases members.len() - i,
        {
            let h: usize = members[i];
            assert(hubs@[i as int] < n);
            let found = search(adj, &allowed, h, k_hop, &mut dist);
            let near = near_hubs(&found.order, &is_hub, h);
            let mut list: Vec<(usize, usize)> = Vec::new();
            let mut p: usize = 0;
            proof {
                assert forall|x: int| 0 <= x < near@.len() implies (#[trigger] near@[x]) < n
                    && near@[x] != h && hubs@.contains(near@[x]) && dist@[near@[x] as int]
                    is Some by {
                    assert(near@.contains(near@[x]));
                    assert(is_hub@[near@[x] as int]);
                }
            }
            while p < near.len()
                invariant
                    p <= near.len(),
                    dist@.len() == n,
                    forall|x: int|
                        0 <= x < near@.len() ==> (#[trigger] near@[x]) < n && dist@[near@[x] as int]
                            is Some,
                    list@.len() == p,
                    forall|x: int|
                        0 <= x < p ==> (#[trigger] list@[x]) == (
                            near@[x],
                            dist@[near@[x] as int]->0,
                        ),
                decreases near.len() - p,
            {
                let v: usize = near[p];
                assert(dist@[near@[p as int] as int] is Some);
                let d: usize = match dist[v] {
                    Some(d) => d,
                    None => 0,
                };
                list.push((v, d));
                p += 1;
            }
            proof {
                let want = links(lists, hubs@, k_hop as nat, h, hubs@.len());
                lemma_links(lists, hubs@, k_hop as nat, h, hubs@.len());
                assert(hubs@.take(hubs@.len() as int) =~= hubs@);
                assert forall|v: int| 0 <= v < n implies match #[trigger] dist@[v] {
                    Some(d) => distance(lists, all, h as int, v) == Some(d as nat) && d <= k_hop,
                    None => match distance(lists, all, h as int, v) {
                        Some(d) => d > k_hop,
                        None => true,
                    },
                } by {
                    match dist@[v] {
                        Some(d) => {
                            lemma_distance(lists, all, h as int, v, d as nat);
                        },
                        None => {
                            if let Some(d) = distance(lists, all, h as int, v) {
                                assert(is_distance(lists, all, h as int, v, d));
                                if d <= k_hop {
                                    lemma_reach_monotone(
                                        lists,
                                        all,
                                        h as int,
                                        v,
                                        d,
                                        k_hop as nat,
                                    );
                                    assert(reach(lists, all, h as int, v, k_hop as nat));
                                }
                            }
                        },
                    }
                }
                assert forall|a: int, b: int| 0 <= a < b < list@.len() implies (
                #[trigger] list@[a]).0 < (#[trigger] list@[b]).0 by {
                    assert(near@[a] < near@[b]);
                }
                assert forall|x: (usize, usize)| #[trigger] list@.contains(x) <==> want.contains(
                    x,
                ) by {
                    if list@.contains(x) {
                        let a = choose|a: int| 0 <= a < list@.len() && list@[a] == x;
                        assert(near@[a] == x.0);
                        assert(dist@[x.0 as int] is Some);
                        assert(link(lists, k_hop as nat, h, x.0) is Some);
                        assert(hubs@.contains(x.0));
                        assert(want.contains((x.0, link(lists, k_hop as nat, h, x.0)->0 as usize)));
                    }
                    if want.contains(x) {
                        let b = choose|b: int| 0 <= b < want.len() && want[b] == x;
                        assert(hubs@.contains(want[b].0));
                        let q = choose|q: int| 0 <= q < hubs@.len() && hubs@[q] == x.0;
                        assert(hubs@[q] < n);
                        assert(is_hub@[x.0 as int]);
                        assert(dist@[x.0 as int] is Some);
                        assert(found.order@.contains((x.0 as int) as usize));
                        assert(near@.contains(x.0));
                        let a = choose|a: int| 0 <= a < near@.len() && near@[a] == x.0;
                        assert(list@[a] == x);
                    }
                }
                lemma_same_entries(list@, want);
            }
            out.push(list);
            forget(&mut dist, &found.order);
            i += 1;
        }
        proof {
            assert(members.len() <= usize::MAX);
            assert forall|x: int| 0 <= x < out@.len() implies (#[trigger] out@[x])@.len()
                <= hubs@.len() by {
                lemma_links(lists, hubs@, k_hop as nat, hubs@[x], hubs@.len());
            }
        }
        let hg = HubGraph { hubs: hubs.clone(), adj: out };
        assert forall|x: int| 0 <= x < hg.link_lists().len() implies (
        #[trigger] hg.link_lists()[x]).len() <= hg.hubs().len() by {
            assert(hg.link_lists()[x] == out@[x]@);
        }
        hg
    }

    /// The number of hubs.
    pub fn hub_count(&self) -> (n: usize)
        ensures
            n == self.hubs().len(),
    {
        self.hubs.len()
    }

    /// Whether there are no hubs.
    pub fn is_empty(&self) -> (r: bool)
        ensures
            r == (self.hubs().len() == 0),
    {
        self.hubs.is_empty()
    }

    /// Whether a node is a hub.
    pub fn contains(&self, hub: usize) -> (r: bool)
        requires
            self.wf(),
        ensures
            r == self.hubs().contains(hub),
    {
        self.hubs.contains(hub)
    }

    /// The links of a hub with their numbers of steps; none for a node that is no hub.
    pub fn neighbors(&self, hub: usize) -> (list: Vec<(usize, usize)>)
        requires
            self.wf(),
        ensures
            list@ == (if self.hubs().contains(hub) {
                self.link_lists()[self.hubs().index_of(hub)]
            } else {
                Seq::empty()
            }),
    {
        let members = self.hubs.iter();
        let mut lo: usize = 0;
        let mut hi: usize = members.len();
        while lo < hi
            invariant
                lo <= hi <= members@.len(),
                members@ == self.hubs(),
                self.wf(),
                forall|i: int| 0 <= i < lo ==> members@[i] < hub,
                forall|i: int| hi <= i < members@.len() ==> members@[i] > hub,
            decreases hi - lo,
        {
            let mid: usize = lo + (hi - lo) / 2;
            let x: usize = members[mid];
            if x == hub {
                proof {
                    crate::distinct::lemma_index_of(self.hubs(), mid as int);
                    assert(self.hubs().contains(hub));
                    assert(self.link_lists()[mid as int] == self.adj@[mid as int]@);
                }
                return copy_entries(&self.adj[mid]);
            } else if x < hub {
                lo = mid + 1;
            } else {
                hi = mid;
            }
        }
        Vec::new()
    }

    /// The number of links, counted from both ends.
    pub fn edge_count(&self) -> (total: u128)
        requires
            self.wf(),
        ensures
            total == entry_count(self.link_lists()),
    {
        let mut total: u128 = 0;
        let mut i: usize = 0;
        let ghost lists = self.link_lists();
        while i < self.adj.len()
            invariant
                i <= self.adj.len(),
                self.wf(),
                lists == self.link_lists(),
                lists.len() == self.adj@.len() == self.hubs().len(),
                total == entry_count(lists.take(i as int)),
                total <= i * self.hubs().len(),
            decreases self.adj.len() - i,
        {
            proof {
                let k = self.hubs().len();
                assert(lists.take(i + 1).drop_last() =~= lists.take(i as int));
                assert(lists.take(i + 1).last() == lists[i as int]);
                assert(lists[i as int].len() <= k);
                assert(lists[i as int] == self.adj@[i as int]@);
                assert(i * k + k == (i + 1) * k) by (nonlinear_arith);
                assert((i + 1) * k <= 0xffff_ffff_ffff_ffff * 0xffff_ffff_ffff_ffff)
                    by (nonlinear_arith)
                    requires
                        0 <= i + 1 <= 0xffff_ffff_ffff_ffff,
                        0 <= k <= 0xffff_ffff_ffff_ffff,
                ;
            }
            total += self.adj[i].len() as u128;
            i += 1;
        }
        assert(lists.take(i as int) =~= lists);
        total
    }

    /// The hubs in ascending order.
    pub fn iter_hubs(&self) -> (hubs: Vec<usize>)
        ensures
            hubs@ == self.hubs(),
    {
        self.hubs.iter()
    }
}

/// A copy of a list of links.
fn copy_entries(list: &Vec<(usize, usize)>) -> (copy: Vec<(usize, usize)>)
    ensures
        copy@ == list@,
{
    let mut copy: Vec<(usize, usize)> = Vec::new();
    let mut i: usize = 0;
    while i < list.len()
        invariant
            i <= list.len(),
            copy@ == list@.take(i as int),
        decreases list.len() - i,
    {
        copy.push(list[i]);
        assert(list@.take(i + 1) =~= list@.take(i as int).push(list@[i as int]));
        i += 1;
    }
    assert(list@.take(i as int) =~= list@);
    copy
}

/// The hubs among the nodes of `order` other than `h`, ascending.
fn near_hubs(order: &Vec<usize>, is_hub: &Vec<bool>, h: usize) -> (near: Vec<usize>)
    requires
        forall|j: int| 0 <= j < order@.len() ==> (#[trigger] order@[j]) < is_hub@.len(),
    ensures
        increasing(near@),
        forall|x: usize| #[trigger]
            near@.contains(x) <==> order@.contains(x) && x != h && is_hub@[x as int],
{
    let mut picked: Vec<usize> = Vec::new();
    let mut j: usize = 0;
    while j < order.len()
        invariant
            j <= order.len(),
            forall|x: int| 0 <= x < order@.len() ==> (#[trigger] order@[x]) < is_hub@.len(),
            forall|x: usize| #[trigger]
                picked@.contains(x) <==> order@.take(j as int).contains(x) && x != h
                    && is_hub@[x as int],
        decreases order.len() - j,
    {
        let v: usize = order[j];
        let ghost before = picked@;
        if v != h && is_hub[v] {
            picked.push(v);
        }
        proof {
            let front = order@.take(j as int);
            let after = order@.take(j + 1);
            assert(after =~= front.push(v));
            assert forall|x: usize| #[trigger]
                picked@.contains(x) <==> after.contains(x) && x != h && is_hub@[x as int] by {
                if before.contains(x) {
                    let a = choose|a: int| 0 <= a < before.len() && before[a] == x;
                    assert(picked@[a] == x);
                }
                if picked@.contains(x) && x != v {
                    let a = choose|a: int| 0 <= a < picked@.len() && picked@[a] == x;
                    assert(before[a] == x);
                }
                if front.contains(x) {
                    let a = choose|a: int| 0 <= a < front.len() && front[a] == x;
                    assert(after[a] == x);
                }
                if after.contains(x) && x != v {
                    let a = choose|a: int| 0 <= a < after.len() && after[a] == x;
                    assert(front[a] == x);
                }
                if x == v {
                    assert(after[j as int] == x);
                    if x != h && is_hub@[x as int] {
                        assert(picked@[before.len() as int] == x);
                    }
                    if picked@.contains(x) {
                        let a = choose|a: int| 0 <= a < picked@.len() && picked@[a] == x;
                        if a < before.len() {
                            assert(before[a] == x);
                            assert(before.contains(x));
                        }
                    }
                }
            }
        }
        j += 1;
    }
    assert(order@.take(j as int) =~= order@);
    let near = sorted_distinct(picked.as_slice());
    assert forall|x: usize| #[trigger]
        near@.contains(x) <==> order@.contains(x) && x != h && is_hub@[x as int] by {
        assert(near@.contains(x) <==> picked@.contains(x));
    }
    near
}

/// Clears the distances of the nodes of `order`, the only ones known.
fn forget(dist: &mut Vec<Option<usize>>, order: &Vec<usize>)
    requires
        forall|j: int| 0 <= j < order@.len() ==> (#[trigger] order@[j]) < old(dist)@.len(),
        forall|v: int|
            0 <= v < old(dist)@.len() && (#[trigger] old(dist)@[v]) is Some ==> order@.contains(
                v as usize,
            ),
    ensures
        final(dist)@.len() == old(dist)@.len(),
        forall|v: int| 0 <= v < final(dist)@.len() ==> (#[trigger] final(dist)@[v]) is None,
{
    let mut j: usize = 0;
    assert(dist.len() <= usize::MAX);
    while j < order.len()
        invariant
            j <= order.len(),
            dist@.len() == old(dist)@.len() <= usize::MAX,
            forall|x: int| 0 <= x < order@.len() ==> (#[trigger] order@[x]) < dist@.len(),
            forall|v: int|
                0 <= v < dist@.len() && (#[trigger] dist@[v]) is Some ==> order@.contains(
                    v as usize,
                ),
            forall|x: int| 0 <= x < j ==> dist@[#[trigger] order@[x] as int] is None,
        decreases order.len() - j,
    {
        dist.set(order[j], None);
        j += 1;
    }
    proof {
        assert forall|v: int| 0 <= v < dist@.len() implies (#[trigger] dist@[v]) is None by {
            if dist@[v] is Some {
                let x = choose|x: int| 0 <= x < order@.len() && order@[x] == v as usize;
                assert(dist@[order@[x] as int] is None);
            }
        }
    }
}

/// The hub graph is symmetric: a hub is linked to another by some number of steps
/// exactly if the other is linked to it by as many.
pub proof fn law_links_symmetric(
    lists: Seq<Seq<(usize, u64)>>,
    hubs: Seq<usize>,
    k_hop: nat,
    a: usize,
    b: usize,
    d: usize,
)
    requires
        forall|u: int| 0 <= u < lists.len() ==> entries_valid(#[trigger] lists[u], lists.len()),
        symmetric(matrix(lists)),
        lists.len() <= usize::MAX,
        increasing(hubs),
        hubs.contains(a),
        hubs.contains(b),
    ensures
        links(lists, hubs, k_hop, a, hubs.len()).contains((b, d)) <==> links(
            lists,
            hubs,
            k_hop,
            b,
            hubs.len(),
        ).contains((a, d)),
{
    lemma_two_way(lists);
    let all = everywhere(lists.len());
    law_distance_symmetric(lists, all, a as int, b as int);
    lemma_links(lists, hubs, k_hop, a, hubs.len());
    lemma_links(lists, hubs, k_hop, b, hubs.len());
    assert(hubs.take(hubs.len() as int) =~= hubs);
    assert(link(lists, k_hop, a, b) == link(lists, k_hop, b, a));
    let la = links(lists, hubs, k_hop, a, hubs.len());
    let lb = links(lists, hubs, k_hop, b, hubs.len());
    if la.contains((b, d)) {
        let i = choose|i: int| 0 <= i < la.len() && la[i] == (b, d);
        assert(link(lists, k_hop, a, la[i].0) is Some);
        assert(lb.contains((a, link(lists, k_hop, b, a)->0 as usize)));
    }
    if lb.contains((a, d)) {
        let i = choose|i: int| 0 <= i < lb.len() && lb[i] == (a, d);
        assert(link(lists, k_hop, b, lb[i].0) is Some);
        assert(la.contains((b, link(lists, k_hop, a, b)->0 as usize)));
    }
}

/// Two different hubs are linked by `d` steps exactly if `d` is at most `k_hop` and the
/// number of steps of a shortest walk from one to the other: some walk has as many, and
/// none has fewer.
pub proof fn law_links_are_shortest_walks(
    lists: Seq<Seq<(usize, u64)>>,
    hubs: Seq<usize>,
    k_hop: usize,
    a: usize,
    b: usize,
    d: usize,
)
    requires
        lists.len() <= usize::MAX,
        increasing(hubs),
        hubs.contains(a),
        hubs.contains(b),
        a < lists.len(),
        a != b,
    ensures
        links(lists, hubs, k_hop as nat, a, hubs.len()).contains((b, d)) <==> {
            &&& d <= k_hop
            &&& exists|walk: Seq<int>| #[trigger] walks(lists, walk, a as int, b as int, d as nat)
            &&& forall|walk: Seq<int>, e: nat| #[trigger]
                walks(lists, walk, a as int, b as int, e) ==> d <= e
        },
{
    let all = everywhere(lists.len());
    let la = links(lists, hubs, k_hop as nat, a, hubs.len());
    lemma_links(lists, hubs, k_hop as nat, a, hubs.len());
    assert(hubs.take(hubs.len() as int) =~= hubs);
    law_distance_is_shortest_walk(lists, all, a as int, b as int, d as nat);
    if la.contains((b, d)) {
        let i = choose|i: int| 0 <= i < la.len() && la[i] == (b, d);
        assert(link(lists, k_hop as nat, a, la[i].0) is Some);
    }
    if distance(lists, all, a as int, b as int) == Some(d as nat) && d <= k_hop {
        assert(link(lists, k_hop as nat, a, b) == Some(d as nat));
    }
}

/// The list of a hub holds links to other hubs only, one to each at most, in ascending
/// order.
pub proof fn law_links_are_to_other_hubs(
    lists: Seq<Seq<(usize, u64)>>,
    hubs: Seq<usize>,
    k_hop: nat,
    a: usize,
)
    requires
        increasing(hubs),
    ensures
        forall|i: int|
            0 <= i < links(lists, hubs, k_hop, a, hubs.len()).len() ==> hubs.contains(
                (#[trigger] links(lists, hubs, k_hop, a, hubs.len())[i]).0,
            ) && links(lists, hubs, k_hop, a, hubs.len())[i].0 != a,
        forall|i: int, j: int|
            0 <= i < j < links(lists, hubs, k_hop, a, hubs.len()).len() ==> (#[trigger] links(
                lists,
                hubs,
                k_hop,
                a,
                hubs.len(),
            )[i]).0 < (#[trigger] links(lists, hubs, k_hop, a, hubs.len())[j]).0,
{
    lemma_links(lists, hubs, k_hop, a, hubs.len());
    assert(hubs.take(hubs.len() as int) =~= hubs);
    let la = links(lists, hubs, k_hop, a, hubs.len());
    assert forall|i: int| 0 <= i < la.len() implies hubs.contains((#[trigger] la[i]).0) && la[i].0
        != a by {
        assert(link(lists, k_hop, a, la[i].0) is Some);
    }
}

} // verus!
