//! Connected communities.
//!
//! A community is connected if any two of its nodes are joined by a walk that stays inside
//! it. What Leiden finds is divided into the connected pieces of its communities, so that
//! every community is connected, and so is every corridor between clusters.
use crate::bfs::{
    lemma_reach_back, lemma_reach_join, lemma_reach_step, lemma_two_way, reach, step,
};
use crate::community::{leiden_from, leiden_labels, lemma_leiden_from_len};
use crate::corridor::{
    cluster_connected, clusters_linked, distance_within, inside, law_corridor_connected,
};
use crate::moving::{equivalence, respects};
use crate::partition::{law_renumber_keeps_communities, lemma_renumber, renumber, singletons};
use crate::sums::{lemma_weight_to_absent, lemma_weight_to_positive};
use crate::tally::names;
use crate::weighted::{entries_valid, matrix, symmetric, WeightedGraph};
use vstd::prelude::*;

verus! {

/// `rel` relates every two neighbors with the same label.
pub open spec fn relates_mates(
    m: Seq<Seq<int>>,
    labels: Seq<usize>,
    rel: spec_fn(int, int) -> bool,
) -> bool {
    forall|u: int, v: int|
        0 <= u < m.len() && 0 <= v < m.len() && labels[u] == labels[v] && #[trigger] m[u][v] > 0
            ==> rel(u, v)
}

/// Every community is connected: what relates the neighbors in a community, and is an
/// equivalence, relates all its nodes.
pub open spec fn connected(m: Seq<Seq<int>>, labels: Seq<usize>) -> bool {
    forall|rel: spec_fn(int, int) -> bool|
        equivalence(m.len(), rel) && relates_mates(m, labels, rel) ==> #[trigger] respects(
            labels,
            rel,
        )
}

/// Nodes `u` and `v` are in one piece of a community: every equivalence that relates the
/// neighbors in a community relates them.
pub open spec fn same_piece(m: Seq<Seq<int>>, labels: Seq<usize>, u: int, v: int) -> bool {
    forall|rel: spec_fn(int, int) -> bool| #[trigger]
        equivalence(m.len(), rel) && relates_mates(m, labels, rel) ==> rel(u, v)
}

/// The lowest node, from `v` on, that is in one piece with `u`.
pub open spec fn lowest_mate(m: Seq<Seq<int>>, labels: Seq<usize>, u: nat, v: nat) -> nat
    decreases u - v,
{
    if v >= u || same_piece(m, labels, u as int, v as int) {
        v
    } else {
        lowest_mate(m, labels, u, v + 1)
    }
}

/// The division of each community into its connected pieces, each labeled by its lowest
/// node.
pub open spec fn pieces(m: Seq<Seq<int>>, labels: Seq<usize>) -> Seq<usize> {
    Seq::new(labels.len(), |u: int| lowest_mate(m, labels, u as nat, 0) as usize)
}

/// Being in one piece is an equivalence, which neighbors in a community are in.
proof fn lemma_same_piece(m: Seq<Seq<int>>, labels: Seq<usize>)
    ensures
        equivalence(m.len(), |u: int, v: int| same_piece(m, labels, u, v)),
        relates_mates(m, labels, |u: int, v: int| same_piece(m, labels, u, v)),
{
    let same = |u: int, v: int| same_piece(m, labels, u, v);
    assert forall|u: int| 0 <= u < m.len() implies #[trigger] same(u, u) by {
        assert forall|rel: spec_fn(int, int) -> bool| #[trigger]
            equivalence(m.len(), rel) && relates_mates(m, labels, rel) implies rel(u, u) by {}
    }
    assert forall|u: int, v: int|
        0 <= u < m.len() && 0 <= v < m.len() && #[trigger] same(u, v) implies same(v, u) by {
        assert forall|rel: spec_fn(int, int) -> bool| #[trigger]
            equivalence(m.len(), rel) && relates_mates(m, labels, rel) implies rel(v, u) by {
            assert(rel(u, v));
        }
    }
    assert forall|u: int, v: int, w: int|
        0 <= u < m.len() && 0 <= v < m.len() && 0 <= w < m.len() && #[trigger] same(u, v)
            && #[trigger] same(v, w) implies same(u, w) by {
        assert forall|rel: spec_fn(int, int) -> bool| #[trigger]
            equivalence(m.len(), rel) && relates_mates(m, labels, rel) implies rel(u, w) by {
            assert(rel(u, v));
            assert(rel(v, w));
        }
    }
    assert forall|u: int, v: int|
        0 <= u < m.len() && 0 <= v < m.len() && labels[u] == labels[v] && #[trigger] m[u][v]
            > 0 implies same(u, v) by {
        assert forall|rel: spec_fn(int, int) -> bool| #[trigger]
            equivalence(m.len(), rel) && relates_mates(m, labels, rel) implies rel(u, v) by {}
    }
}

proof fn lemma_same_piece_flip(m: Seq<Seq<int>>, labels: Seq<usize>, u: int, v: int)
    requires
        0 <= u < m.len(),
        0 <= v < m.len(),
        same_piece(m, labels, u, v),
    ensures
        same_piece(m, labels, v, u),
{
    lemma_same_piece(m, labels);
    let same = |a: int, b: int| same_piece(m, labels, a, b);
    assert(same(u, v));
    assert(same(v, u));
}

proof fn lemma_same_piece_chain(m: Seq<Seq<int>>, labels: Seq<usize>, u: int, v: int, w: int)
    requires
        0 <= u < m.len(),
        0 <= v < m.len(),
        0 <= w < m.len(),
        same_piece(m, labels, u, v),
        same_piece(m, labels, v, w),
    ensures
        same_piece(m, labels, u, w),
{
    lemma_same_piece(m, labels);
    let same = |a: int, b: int| same_piece(m, labels, a, b);
    assert(same(u, v) && same(v, w));
    assert(same(u, w));
}

proof fn lemma_lowest_mate(m: Seq<Seq<int>>, labels: Seq<usize>, u: nat, v: nat)
    requires
        v <= u < m.len(),
    ensures
        v <= lowest_mate(m, labels, u, v) <= u,
        same_piece(m, labels, u as int, lowest_mate(m, labels, u, v) as int),
        forall|w: int|
            v <= w < lowest_mate(m, labels, u, v) ==> !#[trigger] same_piece(
                m,
                labels,
                u as int,
                w,
            ),
    decreases u - v,
{
    if v >= u {
        lemma_same_piece(m, labels);
        let same = |a: int, b: int| same_piece(m, labels, a, b);
        assert(same(u as int, u as int));
    } else if !same_piece(m, labels, u as int, v as int) {
        lemma_lowest_mate(m, labels, u, v + 1);
    }
}

/// Nodes have one label as pieces exactly if they are in one piece.
pub proof fn lemma_pieces(m: Seq<Seq<int>>, labels: Seq<usize>, u: int, v: int)
    requires
        labels.len() == m.len() <= usize::MAX,
        0 <= u < m.len(),
        0 <= v < m.len(),
    ensures
        pieces(m, labels)[u] <= u,
        same_piece(m, labels, u, pieces(m, labels)[u] as int),
        pieces(m, labels)[u] == pieces(m, labels)[v] <==> same_piece(m, labels, u, v),
{
    lemma_lowest_mate(m, labels, u as nat, 0);
    lemma_lowest_mate(m, labels, v as nat, 0);
    let a = pieces(m, labels)[u] as int;
    let b = pieces(m, labels)[v] as int;
    if a == b {
        lemma_same_piece_flip(m, labels, v, b);
        lemma_same_piece_chain(m, labels, u, a, v);
    }
    if same_piece(m, labels, u, v) {
        lemma_same_piece_flip(m, labels, u, v);
        lemma_same_piece_chain(m, labels, u, v, b);
        lemma_same_piece_chain(m, labels, v, u, a);
    }
}

/// A piece lies inside a community: nodes in one piece have one label.
pub proof fn law_pieces_inside(m: Seq<Seq<int>>, labels: Seq<usize>, u: int, v: int)
    requires
        labels.len() == m.len() <= usize::MAX,
        0 <= u < m.len(),
        0 <= v < m.len(),
        pieces(m, labels)[u] == pieces(m, labels)[v],
    ensures
        labels[u] == labels[v],
{
    lemma_pieces(m, labels, u, v);
    let rel = |a: int, b: int| labels[a] == labels[b];
    assert(equivalence(m.len(), rel));
    assert(relates_mates(m, labels, rel));
    assert(rel(u, v));
}

/// Neighbors with one label are in one piece.
pub proof fn law_pieces_keep_mates(m: Seq<Seq<int>>, labels: Seq<usize>, u: int, v: int)
    requires
        labels.len() == m.len() <= usize::MAX,
        0 <= u < m.len(),
        0 <= v < m.len(),
        labels[u] == labels[v],
        m[u][v] > 0,
    ensures
        pieces(m, labels)[u] == pieces(m, labels)[v],
{
    lemma_same_piece(m, labels);
    let same = |a: int, b: int| same_piece(m, labels, a, b);
    assert(same(u, v));
    lemma_pieces(m, labels, u, v);
}

/// Where communities are connected, each is a single piece.
pub proof fn law_connected_stays_whole(m: Seq<Seq<int>>, labels: Seq<usize>, u: int, v: int)
    requires
        labels.len() == m.len() <= usize::MAX,
        connected(m, labels),
        0 <= u < m.len(),
        0 <= v < m.len(),
    ensures
        labels[u] == labels[v] <==> pieces(m, labels)[u] == pieces(m, labels)[v],
{
    if labels[u] == labels[v] {
        lemma_same_piece(m, labels);
        let same = |a: int, b: int| same_piece(m, labels, a, b);
        assert(respects(labels, same));
        assert(same(u, v));
        lemma_pieces(m, labels, u, v);
    }
    if pieces(m, labels)[u] == pieces(m, labels)[v] {
        law_pieces_inside(m, labels, u, v);
    }
}

/// Pieces are connected.
pub proof fn law_pieces_connected(m: Seq<Seq<int>>, labels: Seq<usize>)
    requires
        labels.len() == m.len() <= usize::MAX,
    ensures
        connected(m, pieces(m, labels)),
{
    let p = pieces(m, labels);
    lemma_same_piece(m, labels);
    let same = |a: int, b: int| same_piece(m, labels, a, b);
    assert forall|rel: spec_fn(int, int) -> bool|
        equivalence(m.len(), rel) && relates_mates(m, p, rel) implies #[trigger] respects(
        p,
        rel,
    ) by {
        let both = |a: int, b: int| same(a, b) && rel(a, b);
        assert forall|a: int| 0 <= a < m.len() implies #[trigger] both(a, a) by {
            assert(same(a, a) && rel(a, a));
        }
        assert forall|a: int, b: int|
            0 <= a < m.len() && 0 <= b < m.len() && #[trigger] both(a, b) implies both(b, a) by {
            assert(same(a, b) && rel(a, b));
            assert(same(b, a) && rel(b, a));
        }
        assert forall|a: int, b: int, c: int|
            0 <= a < m.len() && 0 <= b < m.len() && 0 <= c < m.len() && #[trigger] both(a, b)
                && #[trigger] both(b, c) implies both(a, c) by {
            assert(same(a, b) && rel(a, b) && same(b, c) && rel(b, c));
            assert(same(a, c) && rel(a, c));
        }
        assert(equivalence(m.len(), both));
        assert forall|a: int, b: int|
            0 <= a < m.len() && 0 <= b < m.len() && labels[a] == labels[b] && #[trigger] m[a][b]
                > 0 implies both(a, b) by {
            assert(same(a, b));
            lemma_pieces(m, labels, a, b);
            assert(rel(a, b));
        }
        assert(relates_mates(m, labels, both));
        assert forall|i: int, j: int|
            0 <= i < p.len() && 0 <= j < p.len() && #[trigger] p[i] == #[trigger] p[j] implies rel(
            i,
            j,
        ) by {
            lemma_pieces(m, labels, i, j);
            assert(same_piece(m, labels, i, j));
            assert(both(i, j));
        }
    }
}

/// Renumbering keeps communities connected.
pub proof fn lemma_renumber_connected(m: Seq<Seq<int>>, raw: Seq<usize>)
    requires
        raw.len() == m.len() <= usize::MAX,
        connected(m, raw),
    ensures
        connected(m, renumber(raw)),
        renumber(raw).len() == m.len(),
        renumber(renumber(raw)) == renumber(raw),
{
    lemma_renumber(raw);
    let p = renumber(raw);
    assert forall|rel: spec_fn(int, int) -> bool|
        equivalence(m.len(), rel) && relates_mates(m, p, rel) implies #[trigger] respects(
        p,
        rel,
    ) by {
        assert forall|u: int, v: int|
            0 <= u < m.len() && 0 <= v < m.len() && raw[u] == raw[v] && #[trigger] m[u][v]
                > 0 implies rel(u, v) by {
            law_renumber_keeps_communities(raw, u, v);
        }
        assert(respects(raw, rel));
        assert forall|i: int, j: int|
            0 <= i < p.len() && 0 <= j < p.len() && #[trigger] p[i] == #[trigger] p[j] implies rel(
            i,
            j,
        ) by {
            law_renumber_keeps_communities(raw, i, j);
            assert(raw[i] == raw[j]);
        }
    }
}

/// A list of distinct numbers below `n` has at most `n` places.
pub proof fn lemma_distinct_below(s: Seq<usize>, n: nat)
    requires
        s.no_duplicates(),
        forall|i: int| 0 <= i < s.len() ==> (#[trigger] s[i]) < n,
    ensures
        s.len() <= n,
{
    let t = s.map_values(|x: usize| x as int);
    assert(t.no_duplicates()) by {
        assert forall|i: int, j: int| 0 <= i < t.len() && 0 <= j < t.len() && i != j implies t[i]
            != t[j] by {
            assert(s[i] != s[j]);
        }
    }
    t.unique_seq_to_set();
    let all = vstd::set_lib::set_int_range(0, n as int);
    vstd::set_lib::lemma_int_range(0, n as int);
    assert(t.to_set().subset_of(all)) by {
        assert forall|x: int| t.to_set().contains(x) implies all.contains(x) by {
            let i = t.index_of(x);
            assert(t[i] == x && s[i] < n);
        }
    }
    vstd::set_lib::lemma_len_subset(t.to_set(), all);
}

/// Every node that was found and expanded has the mark of its neighbors with its label.
spec fn closed_before(
    m: Seq<Seq<int>>,
    labels: Seq<usize>,
    marks: Seq<Option<usize>>,
    order: Seq<usize>,
    head: int,
) -> bool {
    forall|k: int, v: int|
        0 <= k < head && 0 <= v < m.len() && labels[order[k] as int] == labels[v]
            && #[trigger] m[order[k] as int][v] > 0 ==> marks[v] == marks[order[k] as int]
}

/// The marks are those of the pieces, and the nodes marked are those in `order`.
spec fn marks_pieces(
    m: Seq<Seq<int>>,
    labels: Seq<usize>,
    marks: Seq<Option<usize>>,
    order: Seq<usize>,
) -> bool {
    &&& marks.len() == m.len()
    &&& order.no_duplicates()
    &&& forall|k: int|
        0 <= k < order.len() ==> (#[trigger] order[k]) < m.len() && marks[order[k] as int] is Some
    &&& forall|v: int|
        0 <= v < m.len() && (#[trigger] marks[v]) is Some ==> order.contains(v as usize)
            && marks[v]->0 == pieces(m, labels)[v]
}

/// A node that is not marked, when all marked ones are expanded and all lower ones marked,
/// is the lowest of its piece.
proof fn lemma_new_piece(
    m: Seq<Seq<int>>,
    labels: Seq<usize>,
    marks: Seq<Option<usize>>,
    order: Seq<usize>,
    s: int,
)
    requires
        symmetric(m),
        labels.len() == m.len() <= usize::MAX,
        marks_pieces(m, labels, marks, order),
        closed_before(m, labels, marks, order, order.len() as int),
        0 <= s < m.len(),
        marks[s] is None,
        forall|v: int| 0 <= v < s ==> (#[trigger] marks[v]) is Some,
    ensures
        pieces(m, labels)[s] == s,
{
    let rel = |a: int, b: int| marks[a] == marks[b];
    assert(equivalence(m.len(), rel));
    assert forall|a: int, b: int|
        0 <= a < m.len() && 0 <= b < m.len() && labels[a] == labels[b] && #[trigger] m[a][b]
            > 0 implies rel(a, b) by {
        if marks[a] is Some {
            let k = order.index_of(a as usize);
            assert(order[k] == a);
            assert(m[order[k] as int][b] > 0);
        } else if marks[b] is Some {
            let k = order.index_of(b as usize);
            assert(order[k] == b);
            assert(m[b][a] == m[a][b]);
            assert(m[order[k] as int][a] > 0);
        }
    }
    assert(relates_mates(m, labels, rel));
    lemma_pieces(m, labels, s, s);
    let r = pieces(m, labels)[s] as int;
    if r < s {
        assert(rel(s, r));
        assert(marks[r] is Some);
    }
}

/// Divides each community into its connected pieces.
pub fn split(graph: &WeightedGraph, labels: &Vec<usize>) -> (r: Vec<usize>)
    requires
        graph.wf(),
        labels@.len() == graph@.len(),
    ensures
        r@ == pieces(graph@, labels@),
{
    let ghost m = graph@;
    let n: usize = graph.node_count();
    proof {
        graph.lemma_wf();
    }
    let mut marks: Vec<Option<usize>> = crate::corridor::unknown(n);
    let mut order: Vec<usize> = Vec::new();
    let mut s: usize = 0;
    while s < n
        invariant
            s <= n == m.len() == labels@.len(),
            graph.wf(),
            m == graph@,
            symmetric(m),
            m.len() <= usize::MAX,
            marks_pieces(m, labels@, marks@, order@),
            closed_before(m, labels@, marks@, order@, order@.len() as int),
            forall|v: int| 0 <= v < s ==> (#[trigger] marks@[v]) is Some,
        decreases n - s,
    {
        if marks[s].is_none() {
            let mut head: usize = order.len();
            proof {
                lemma_new_piece(m, labels@, marks@, order@, s as int);
            }
            let ghost marked = marks@;
            let ghost listed = order@;
            marks.set(s, Some(s));
            order.push(s);
            proof {
                lemma_marked_one(m, labels@, marked, listed, s as int, s);
                assert(closed_before(m, labels@, marks@, order@, head as int)) by {
                    assert forall|k: int, v: int|
                        0 <= k < head && 0 <= v < m.len() && labels@[order@[k] as int] == labels@[v]
                            && #[trigger] m[order@[k] as int][v] > 0 implies marks@[v]
                        == marks@[order@[k] as int] by {
                        assert(order@[k] == listed[k]);
                        assert(m[listed[k] as int][v] > 0);
                        assert(marked[v] == marked[listed[k] as int]);
                    }
                }
            }
            while head < order.len()
                invariant
                    s < n == m.len() == labels@.len(),
                    graph.wf(),
                    m == graph@,
                    symmetric(m),
                    m.len() <= usize::MAX,
                    head <= order@.len(),
                    marks_pieces(m, labels@, marks@, order@),
                    closed_before(m, labels@, marks@, order@, head as int),
                    forall|v: int| 0 <= v <= s ==> (#[trigger] marks@[v]) is Some,
                    pieces(m, labels@)[s as int] == s,
                    forall|k: int|
                        head <= k < order@.len() ==> marks@[(#[trigger] order@[k]) as int] == Some(s),
                decreases n - head,
            {
                let u: usize = order[head];
                proof {
                    lemma_distinct_below(order@, n as nat);
                    graph.lemma_wf();
                    assert(marks@[order@[head as int] as int] == Some(s));
                }
                let list = graph.neighbors(u);
                let mut i: usize = 0;
                while i < list.len()
                    invariant
                        s < n == m.len() == labels@.len(),
                        u < n,
                        i <= list@.len(),
                        list@ == graph.lists()[u as int],
                        entries_valid(list@, m.len()),
                        m == graph@,
                        m == matrix(graph.lists()),
                        graph.lists().len() == m.len(),
                        symmetric(m),
                        m.len() <= usize::MAX,
                        head < order@.len(),
                        order@[head as int] == u,
                        marks@[u as int] == Some(s),
                        marks_pieces(m, labels@, marks@, order@),
                        closed_before(m, labels@, marks@, order@, head as int),
                        forall|v: int| 0 <= v <= s ==> (#[trigger] marks@[v]) is Some,
                        pieces(m, labels@)[s as int] == s,
                        forall|k: int|
                            head <= k < order@.len() ==> marks@[(#[trigger] order@[k]) as int] == Some(
                                s,
                            ),
                        forall|j: int|
                            0 <= j < i && labels@[(#[trigger] list@[j]).0 as int] == labels@[u as int]
                                ==> marks@[list@[j].0 as int] == Some(s),
                    decreases list@.len() - i,
                {
                    let v: usize = list[i].0;
                    if labels[v] == labels[u] {
                        proof {
                            lemma_weight_to_positive(list@, i as int);
                            assert(m[u as int][v as int] > 0);
                            law_pieces_keep_mates(m, labels@, u as int, v as int);
                            assert(marks@[u as int]->0 == pieces(m, labels@)[u as int]);
                        }
                        if marks[v].is_none() {
                            let ghost marked = marks@;
                            let ghost listed = order@;
                            marks.set(v, Some(s));
                            order.push(v);
                            proof {
                                lemma_marked_one(m, labels@, marked, listed, v as int, s);
                                assert(closed_before(m, labels@, marks@, order@, head as int)) by {
                                    assert forall|k: int, w: int|
                                        0 <= k < head && 0 <= w < m.len()
                                            && labels@[order@[k] as int] == labels@[w]
                                            && #[trigger] m[order@[k] as int][w] > 0 implies marks@[w]
                                        == marks@[order@[k] as int] by {
                                        assert(order@[k] == listed[k]);
                                        assert(m[listed[k] as int][w] > 0);
                                        assert(marked[w] == marked[listed[k] as int]);
                                    }
                                }
                                assert forall|k: int| head <= k < order@.len() implies marks@[(
                                #[trigger] order@[k]) as int] == Some(s) by {
                                    if k < listed.len() {
                                        assert(order@[k] == listed[k]);
                                        assert(marked[listed[k] as int] == Some(s));
                                    }
                                }
                            }
                        } else {
                            assert(marks@[v as int]->0 == pieces(m, labels@)[v as int]);
                        }
                    }
                    i += 1;
                }
                proof {
                    assert(closed_before(m, labels@, marks@, order@, head + 1)) by {
                        assert forall|k: int, w: int|
                            0 <= k < head + 1 && 0 <= w < m.len() && labels@[order@[k] as int]
                                == labels@[w] && #[trigger] m[order@[k] as int][w] > 0 implies marks@[w]
                            == marks@[order@[k] as int] by {
                            if k == head {
                                if !names(list@, w as usize) {
                                    lemma_weight_to_absent(list@, w);
                                }
                                let j = choose|j: int|
                                    0 <= j < list@.len() && (#[trigger] list@[j]).0 == w as usize;
                                assert(labels@[list@[j].0 as int] == labels@[u as int]);
                            }
                        }
                    }
                }
                head += 1;
            }
        }
        s += 1;
    }
    let mut r: Vec<usize> = Vec::new();
    let mut u: usize = 0;
    while u < n
        invariant
            u <= n == m.len() == labels@.len(),
            marks_pieces(m, labels@, marks@, order@),
            forall|v: int| 0 <= v < n ==> (#[trigger] marks@[v]) is Some,
            r@ == pieces(m, labels@).take(u as int),
        decreases n - u,
    {
        let mark: usize = match marks[u] {
            Some(mark) => mark,
            None => 0,
        };
        proof {
            assert(marks@[u as int] is Some);
            assert(pieces(m, labels@).take(u + 1) =~= pieces(m, labels@).take(u as int).push(
                pieces(m, labels@)[u as int],
            ));
        }
        r.push(mark);
        u += 1;
    }
    assert(pieces(m, labels@).take(u as int) =~= pieces(m, labels@));
    r
}

proof fn lemma_marked_one(
    m: Seq<Seq<int>>,
    labels: Seq<usize>,
    marks: Seq<Option<usize>>,
    order: Seq<usize>,
    v: int,
    mark: usize,
)
    requires
        m.len() <= usize::MAX,
        marks_pieces(m, labels, marks, order),
        0 <= v < m.len(),
        marks[v] is None,
        mark == pieces(m, labels)[v],
    ensures
        marks_pieces(m, labels, marks.update(v, Some(mark)), order.push(v as usize)),
{
    let after = marks.update(v, Some(mark));
    let longer = order.push(v as usize);
    assert forall|k: int| 0 <= k < order.len() implies #[trigger] order[k] != v by {
        assert(marks[order[k] as int] is Some);
    }
    assert forall|k: int| 0 <= k < longer.len() implies (#[trigger] longer[k]) < m.len()
        && after[longer[k] as int] is Some by {
        if k < order.len() {
            assert(longer[k] == order[k]);
        }
    }
    assert forall|w: int| 0 <= w < m.len() && (#[trigger] after[w]) is Some implies longer.contains(
        w as usize,
    ) && after[w]->0 == pieces(m, labels)[w] by {
        if w == v {
            assert(longer[order.len() as int] == w as usize);
        } else {
            assert(marks[w] is Some);
            let k = order.index_of(w as usize);
            assert(longer[k] == w as usize);
        }
    }
}

/// The communities of Leiden are connected.
pub proof fn law_leiden_connected(m: Seq<Seq<int>>, seed: u64)
    requires
        m.len() <= usize::MAX,
    ensures
        connected(m, leiden_labels(m, seed)),
        leiden_labels(m, seed).len() == m.len(),
{
    let one = singletons(m.len());
    let found = leiden_from(m, one, one, one, seed, 32);
    lemma_leiden_from_len(m, one, one, one, seed, 32);
    law_pieces_connected(m, found);
    lemma_renumber_connected(m, pieces(m, found));
}

/// In a cluster that is connected every member reaches every other inside it.
pub proof fn law_connected_clusters(
    lists: Seq<Seq<(usize, u64)>>,
    labels: Seq<usize>,
    c: usize,
)
    requires
        lists.len() <= usize::MAX,
        labels.len() == lists.len(),
        forall|u: int| 0 <= u < lists.len() ==> entries_valid(#[trigger] lists[u], lists.len()),
        symmetric(matrix(lists)),
        connected(matrix(lists), labels),
    ensures
        cluster_connected(lists, labels, c),
{
    let m = matrix(lists);
    let n = lists.len();
    let here = inside(labels, seq![c], n);
    lemma_two_way(lists);
    assert forall|v: int| 0 <= v < n implies #[trigger] here[v] == (labels[v] == c) by {
        if labels[v] == c {
            assert(seq![c][0] == labels[v]);
        }
    }
    let rel = |u: int, v: int|
        if labels[u] == c && labels[v] == c {
            exists|d: nat| #[trigger] reach(lists, here, u, v, d)
        } else {
            labels[u] == labels[v]
        };
    assert forall|i: int| 0 <= i < n implies #[trigger] rel(i, i) by {
        assert(reach(lists, here, i, i, 0));
    }
    assert forall|i: int, j: int| 0 <= i < n && 0 <= j < n && #[trigger] rel(i, j) implies rel(
        j,
        i,
    ) by {
        if labels[i] == c && labels[j] == c {
            let d = choose|d: nat| #[trigger] reach(lists, here, i, j, d);
            lemma_reach_back(lists, here, i, j, d);
        }
    }
    assert forall|i: int, j: int, h: int|
        0 <= i < n && 0 <= j < n && 0 <= h < n && #[trigger] rel(i, j) && #[trigger] rel(
            j,
            h,
        ) implies rel(i, h) by {
        if labels[i] == c && labels[j] == c && labels[h] == c {
            let d = choose|d: nat| #[trigger] reach(lists, here, i, j, d);
            let e = choose|e: nat| #[trigger] reach(lists, here, j, h, e);
            lemma_reach_join(lists, here, i, j, h, d, e);
        }
    }
    assert(equivalence(m.len(), rel));
    assert forall|u: int, v: int|
        0 <= u < m.len() && 0 <= v < m.len() && labels[u] == labels[v] && #[trigger] m[u][v]
            > 0 implies rel(u, v) by {
        if labels[u] == c {
            if !names(lists[u], v as usize) {
                lemma_weight_to_absent(lists[u], v);
            }
            assert(reach(lists, here, u, u, 0));
            assert(step(lists, here, u, v));
            lemma_reach_step(lists, here, u, u, v, 0);
        }
    }
    assert(relates_mates(m, labels, rel));
    assert(respects(labels, rel));
    assert forall|u: int, v: int|
        0 <= u < lists.len() && 0 <= v < lists.len() && #[trigger] labels[u] == c
            && #[trigger] labels[v] == c implies exists|d: nat| #[trigger]
        reach(lists, here, u, v, d) by {
        assert(rel(u, v));
    }
}

/// A corridor between the clusters of Leiden is connected.
pub proof fn law_leiden_corridor_connected(
    lists: Seq<Seq<(usize, u64)>>,
    seed: u64,
    clusters: Seq<usize>,
    from: int,
    to: int,
)
    requires
        lists.len() <= usize::MAX,
        forall|u: int| 0 <= u < lists.len() ==> entries_valid(#[trigger] lists[u], lists.len()),
        symmetric(matrix(lists)),
        clusters.len() > 0,
        forall|i: int|
            0 <= i < clusters.len() - 1 ==> clusters_linked(
                lists,
                leiden_labels(matrix(lists), seed),
                clusters[i],
                #[trigger] clusters[i + 1],
            ),
        0 <= from < lists.len(),
        0 <= to < lists.len(),
        leiden_labels(matrix(lists), seed)[from] == clusters[0],
        leiden_labels(matrix(lists), seed)[to] == clusters.last(),
    ensures
        distance_within(
            lists,
            inside(leiden_labels(matrix(lists), seed), clusters, lists.len()),
            from,
            to,
        ) is Some,
{
    let m = matrix(lists);
    let labels = leiden_labels(m, seed);
    law_leiden_connected(m, seed);
    assert forall|i: int| 0 <= i < clusters.len() implies cluster_connected(
        lists,
        labels,
        #[trigger] clusters[i],
    ) by {
        law_connected_clusters(lists, labels, clusters[i]);
    }
    law_corridor_connected(lists, labels, clusters, from, to);
}

} // verus!
