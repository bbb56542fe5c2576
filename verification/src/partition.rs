//! Labelings of nodes with communities.
use crate::distinct::{distinct, lemma_distinct, lemma_index_of, lemma_orderly, Interner};
use vstd::prelude::*;

verus! {

/// The labels of `raw` renumbered from 0 in the order of their first appearance.
pub open spec fn renumber(raw: Seq<usize>) -> Seq<usize> {
    Seq::new(raw.len(), |i: int| distinct(raw).index_of(raw[i]) as usize)
}

/// The number of distinct labels.
pub open spec fn label_count(raw: Seq<usize>) -> nat {
    distinct(raw).len()
}

/// The members of community `c` among the first `k` nodes, in ascending order.
pub open spec fn members(labels: Seq<usize>, c: int, k: nat) -> Seq<usize>
    decreases k,
{
    if k == 0 {
        Seq::empty()
    } else {
        let front = members(labels, c, (k - 1) as nat);
        if labels[k - 1] == c {
            front.push((k - 1) as usize)
        } else {
            front
        }
    }
}

/// The members of a community are exactly the nodes with its label, ascending.
pub proof fn lemma_members(labels: Seq<usize>, c: int, k: nat)
    requires
        k <= labels.len() <= usize::MAX,
    ensures
        members(labels, c, k).len() <= k,
        forall|i: int|
            0 <= i < members(labels, c, k).len() ==> (#[trigger] members(labels, c, k)[i]) < k
                && labels[members(labels, c, k)[i] as int] == c,
        forall|i: int, j: int|
            0 <= i < j < members(labels, c, k).len() ==> members(labels, c, k)[i] < members(
                labels,
                c,
                k,
            )[j],
        forall|u: int|
            0 <= u < k && labels[u] == c ==> members(labels, c, k).contains(#[trigger] (u as usize)),
    decreases k,
{
    if k > 0 {
        let front = members(labels, c, (k - 1) as nat);
        lemma_members(labels, c, (k - 1) as nat);
        let all = members(labels, c, k);
        assert forall|u: int| 0 <= u < k && labels[u] == c implies all.contains(
            #[trigger] (u as usize),
        ) by {
            if u == k - 1 {
                assert(all[front.len() as int] == u);
            } else {
                assert(front.contains(u as usize));
                let i = choose|i: int| 0 <= i < front.len() && front[i] == u as usize;
                assert(all[i] == u as usize);
            }
        }
    }
}

/// A labeling of every node with a community. The labels are 0 to the number of
/// communities minus one, each is used, and they first appear in that order.
#[derive(Debug, PartialEq, Eq)]
pub struct Partition {
    community: Vec<usize>,
    n_communities: usize,
}

impl View for Partition {
    type V = Seq<usize>;

    closed spec fn view(&self) -> Seq<usize> {
        self.community@
    }
}

impl Clone for Partition {
    fn clone(&self) -> (copy: Self)
        ensures
            copy@ == self@,
            copy.count() == self.count(),
    {
        Partition { community: copy_labels(&self.community), n_communities: self.n_communities }
    }
}

impl Partition {
    /// The number of communities.
    pub closed spec fn count(&self) -> nat {
        self.n_communities as nat
    }

    /// The labels are numbered in the order of their first appearance, and the
    /// count is right.
    pub open spec fn wf(&self) -> bool {
        &&& self@ == renumber(self@)
        &&& self.count() == label_count(self@)
        &&& self@.len() <= usize::MAX
    }

    /// In a partition every label is below the count, and every number below the
    /// count is a label.
    pub proof fn lemma_wf(&self)
        requires
            self.wf(),
        ensures
            self.count() <= self@.len(),
            forall|i: int| 0 <= i < self@.len() ==> (#[trigger] self@[i]) < self.count(),
            forall|c: int|
                0 <= c < self.count() ==> self@.contains(#[trigger] (c as usize)),
    {
        lemma_labels(self@);
    }

    /// Renumbers labels to be contiguous from 0, in the order of appearance.
    pub fn new(raw: Vec<usize>) -> (p: Self)
        ensures
            p@ == renumber(raw@),
            p.count() == label_count(raw@),
            p.wf(),
    {
        proof {
            lemma_orderly();
            lemma_distinct(raw@);
            assert(raw.len() <= usize::MAX);
            lemma_renumber(raw@);
        }
        let mut names: Interner<usize> = Interner::new();
        let mut community: Vec<usize> = Vec::new();
        let mut i: usize = 0;
        while i < raw.len()
            invariant
                i <= raw.len(),
                names.wf(),
                names@ == distinct(raw@.take(i as int)),
                community@.len() == i,
                forall|j: int|
                    0 <= j < i ==> (#[trigger] community@[j]) < names@.len()
                        && names@[community@[j] as int] == raw@[j],
            decreases raw.len() - i,
        {
            let ghost before = names@;
            let c: usize = names.intern(raw[i]);
            proof {
                assert(raw@.take(i + 1).drop_last() =~= raw@.take(i as int));
                assert(raw@.take(i + 1).last() == raw@[i as int]);
                assert forall|j: int| 0 <= j < i implies (#[trigger] community@[j]) < names@.len()
                    && names@[community@[j] as int] == raw@[j] by {
                    assert(before[community@[j] as int] == raw@[j]);
                }
            }
            community.push(c);
            i += 1;
        }
        proof {
            assert(raw@.take(i as int) =~= raw@);
            assert forall|j: int| 0 <= j < raw@.len() implies community@[j] == renumber(raw@)[j] by {
                lemma_index_of(names@, community@[j] as int);
            }
            assert(community@ =~= renumber(raw@));
        }
        Partition { community, n_communities: names.len() }
    }

    /// The community of node `i`.
    pub fn community_of(&self, i: usize) -> (c: usize)
        requires
            i < self@.len(),
        ensures
            c == self@[i as int],
    {
        self.community[i]
    }

    /// The number of communities.
    pub fn community_count(&self) -> (k: usize)
        ensures
            k == self.count(),
    {
        self.n_communities
    }

    /// The number of nodes.
    pub fn node_count(&self) -> (n: usize)
        ensures
            n == self@.len(),
    {
        self.community.len()
    }

    /// The communities of all nodes, in node order.
    pub fn iter(&self) -> (labels: Vec<usize>)
        ensures
            labels@ == self@,
    {
        copy_labels(&self.community)
    }

    /// The members of each community, ascending.
    pub fn buckets(&self) -> (buckets: Vec<Vec<usize>>)
        requires
            self.wf(),
        ensures
            buckets@.len() == self.count(),
            forall|c: int|
                0 <= c < self.count() ==> (#[trigger] buckets@[c])@ == members(
                    self@,
                    c,
                    self@.len(),
                ),
    {
        proof {
            self.lemma_wf();
        }
        let mut buckets: Vec<Vec<usize>> = Vec::new();
        let mut c: usize = 0;
        while c < self.n_communities
            invariant
                c <= self.n_communities,
                buckets@.len() == c,
                forall|x: int| 0 <= x < c ==> (#[trigger] buckets@[x])@ == Seq::<usize>::empty(),
            decreases self.n_communities - c,
        {
            buckets.push(Vec::new());
            c += 1;
        }
        let mut i: usize = 0;
        while i < self.community.len()
            invariant
                i <= self.community.len(),
                buckets@.len() == self.count(),
                forall|x: int| 0 <= x < self@.len() ==> (#[trigger] self@[x]) < self.count(),
                forall|x: int|
                    0 <= x < self.count() ==> (#[trigger] buckets@[x])@ == members(
                        self@,
                        x,
                        i as nat,
                    ),
            decreases self.community.len() - i,
        {
            let c: usize = self.community[i];
            assert(self@[i as int] < self.count());
            buckets[c].push(i);
            i += 1;
        }
        buckets
    }
}

/// A copy of a list of labels.
pub fn copy_labels(labels: &Vec<usize>) -> (copy: Vec<usize>)
    ensures
        copy@ == labels@,
{
    let mut copy: Vec<usize> = Vec::new();
    let mut i: usize = 0;
    while i < labels.len()
        invariant
            i <= labels.len(),
            copy@ == labels@.take(i as int),
        decreases labels.len() - i,
    {
        copy.push(labels[i]);
        assert(labels@.take(i + 1) =~= labels@.take(i as int).push(labels@[i as int]));
        i += 1;
    }
    assert(labels@.take(i as int) =~= labels@);
    copy
}

/// The labels `0` to `n - 1`, one for each node.
pub open spec fn singletons(n: nat) -> Seq<usize> {
    Seq::new(n, |i: int| i as usize)
}

/// The list `0` to `n - 1`.
pub fn count_up(n: usize) -> (labels: Vec<usize>)
    ensures
        labels@ == singletons(n as nat),
{
    let mut labels: Vec<usize> = Vec::new();
    let mut i: usize = 0;
    while i < n
        invariant
            i <= n,
            labels@ =~= singletons(i as nat),
        decreases n - i,
    {
        labels.push(i);
        i += 1;
    }
    labels
}

/// Renumbering reads a label as its position among the distinct labels.
pub proof fn lemma_renumber_at(raw: Seq<usize>, i: int)
    requires
        0 <= i < raw.len() <= usize::MAX,
    ensures
        0 <= distinct(raw).index_of(raw[i]) < distinct(raw).len(),
        renumber(raw)[i] == distinct(raw).index_of(raw[i]),
        distinct(raw)[renumber(raw)[i] as int] == raw[i],
{
    lemma_distinct(raw);
    assert(raw.contains(raw[i]));
    assert(distinct(raw).contains(raw[i]));
}

/// Two nodes have the same label after renumbering exactly if they had before.
pub proof fn law_renumber_keeps_communities(raw: Seq<usize>, i: int, j: int)
    requires
        raw.len() <= usize::MAX,
        0 <= i < raw.len(),
        0 <= j < raw.len(),
    ensures
        renumber(raw)[i] == renumber(raw)[j] <==> raw[i] == raw[j],
{
    lemma_renumber_at(raw, i);
    lemma_renumber_at(raw, j);
}

/// The distinct values of renumbered labels are `0`, `1`, and so on.
proof fn lemma_distinct_renumbered(raw: Seq<usize>, k: int)
    requires
        0 <= k <= raw.len() <= usize::MAX,
    ensures
        distinct(renumber(raw).take(k)) == singletons(distinct(raw.take(k)).len()),
    decreases k,
{
    if k == 0 {
        assert(distinct(renumber(raw).take(0)) =~= singletons(0));
    } else {
        lemma_distinct_renumbered(raw, k - 1);
        let r = renumber(raw);
        assert(r.take(k).drop_last() =~= r.take(k - 1));
        assert(raw.take(k).drop_last() =~= raw.take(k - 1));
        let d = distinct(raw.take(k - 1));
        let e = distinct(r.take(k - 1));
        let x = raw[k - 1];
        lemma_renumber_at(raw, k - 1);
        lemma_distinct_prefix(raw, k - 1);
        lemma_distinct_prefix(raw, k);
        lemma_distinct(raw);
        lemma_distinct(raw.take(k - 1));
        if d.contains(x) {
            let p = choose|p: int| 0 <= p < d.len() && d[p] == x;
            assert(distinct(raw)[p] == x);
            lemma_index_of(distinct(raw), p);
            assert(e[p] == r[k - 1]);
            assert(e.contains(r[k - 1]));
        } else {
            let p = d.len() as int;
            assert(distinct(raw.take(k)) == d.push(x));
            assert(distinct(raw)[p] == x);
            lemma_index_of(distinct(raw), p);
            assert(r[k - 1] == p);
            assert(!e.contains(r[k - 1]));
            assert(distinct(r.take(k)) =~= singletons((p + 1) as nat));
        }
    }
}

/// The distinct values of a prefix come first among all distinct values.
proof fn lemma_distinct_prefix(raw: Seq<usize>, k: int)
    requires
        0 <= k <= raw.len(),
    ensures
        distinct(raw.take(k)).len() <= distinct(raw).len(),
        forall|i: int|
            0 <= i < distinct(raw.take(k)).len() ==> distinct(raw.take(k))[i] == #[trigger] distinct(
                raw,
            )[i],
    decreases raw.len(),
{
    if k < raw.len() {
        lemma_distinct_prefix(raw.drop_last(), k);
        assert(raw.drop_last().take(k) =~= raw.take(k));
    } else {
        assert(raw.take(k) =~= raw);
    }
}

/// Renumbered labels are a partition: renumbering them again changes nothing, and
/// there are as many as before.
pub proof fn lemma_renumber(raw: Seq<usize>)
    requires
        raw.len() <= usize::MAX,
    ensures
        renumber(renumber(raw)) == renumber(raw),
        label_count(renumber(raw)) == label_count(raw),
{
    let r = renumber(raw);
    lemma_distinct(raw);
    lemma_distinct_renumbered(raw, raw.len() as int);
    assert(r.take(raw.len() as int) =~= r);
    assert(raw.take(raw.len() as int) =~= raw);
    let k = distinct(raw).len();
    assert(distinct(r) == singletons(k));
    assert forall|i: int| 0 <= i < raw.len() implies renumber(r)[i] == r[i] by {
        lemma_renumber_at(raw, i);
        assert(singletons(k)[r[i] as int] == r[i]);
        lemma_renumber_at(r, i);
        assert(singletons(k)[renumber(r)[i] as int] == r[i]);
    }
    assert(renumber(r) =~= r);
}

/// The labels of a partition are exactly the numbers below its count.
pub proof fn lemma_labels(labels: Seq<usize>)
    requires
        labels == renumber(labels),
        labels.len() <= usize::MAX,
    ensures
        label_count(labels) <= labels.len(),
        forall|i: int| 0 <= i < labels.len() ==> (#[trigger] labels[i]) < label_count(labels),
        forall|c: int|
            0 <= c < label_count(labels) ==> labels.contains(#[trigger] (c as usize)),
{
    lemma_distinct(labels);
    lemma_distinct_renumbered(labels, labels.len() as int);
    assert(labels.take(labels.len() as int) =~= labels);
    let k = label_count(labels);
    assert forall|i: int| 0 <= i < labels.len() implies (#[trigger] labels[i]) < k by {
        lemma_renumber_at(labels, i);
    }
    assert forall|c: int| 0 <= c < k implies labels.contains(#[trigger] (c as usize)) by {
        assert(distinct(labels)[c] == c as usize);
        assert(distinct(labels).contains(c as usize));
    }
}

/// A prefix of a partition is a partition: its labels are the numbers below its
/// count.
pub proof fn lemma_prefix_labels(labels: Seq<usize>, u: int)
    requires
        labels == renumber(labels),
        labels.len() <= usize::MAX,
        0 <= u <= labels.len(),
    ensures
        label_count(labels.take(u)) <= label_count(labels),
        forall|i: int| 0 <= i < u ==> (#[trigger] labels[i]) < label_count(labels.take(u)),
        u < labels.len() ==> labels[u] <= label_count(labels.take(u)),
        u < labels.len() ==> label_count(labels.take(u + 1)) == label_count(labels.take(u)) + (
        if labels[u] == label_count(labels.take(u)) {
            1int
        } else {
            0int
        }),
{
    lemma_distinct_renumbered(labels, u);
    lemma_distinct_prefix(labels, u);
    let d = distinct(labels.take(u));
    let k = d.len();
    lemma_distinct(labels.take(u));
    assert forall|i: int| 0 <= i < u implies (#[trigger] labels[i]) < k by {
        assert(labels.take(u)[i] == labels[i]);
        assert(labels.take(u).contains(labels[i]));
        assert(d.contains(labels[i]));
    }
    if u < labels.len() {
        lemma_distinct_renumbered(labels, u + 1);
        lemma_distinct_prefix(labels, u + 1);
        assert(labels.take(u + 1).drop_last() =~= labels.take(u));
        assert(labels.take(u + 1).last() == labels[u]);
        let e = distinct(labels.take(u + 1));
        lemma_distinct(labels.take(u + 1));
        assert(labels.take(u + 1).contains(labels[u])) by {
            assert(labels.take(u + 1)[u] == labels[u]);
        }
        assert(e.contains(labels[u]));
        if labels[u] < k {
            assert(d[labels[u] as int] == labels[u]);
        } else {
            assert(!d.contains(labels[u]));
        }
    }
}

/// Two labelings with the same communities are renumbered alike, whatever their labels.
pub proof fn law_renumber_is_canonical(a: Seq<usize>, b: Seq<usize>)
    requires
        a.len() == b.len() <= usize::MAX,
        forall|i: int, j: int|
            0 <= i < a.len() && 0 <= j < a.len() ==> (#[trigger] a[i] == #[trigger] a[j] <==> b[i]
                == b[j]),
    ensures
        renumber(a) == renumber(b),
        label_count(a) == label_count(b),
{
    lemma_same_places(a, b);
    assert(renumber(a) =~= renumber(b));
}

/// Labelings with the same communities number them in the same order.
proof fn lemma_same_places(a: Seq<usize>, b: Seq<usize>)
    requires
        a.len() == b.len(),
        forall|i: int, j: int|
            0 <= i < a.len() && 0 <= j < a.len() ==> (#[trigger] a[i] == #[trigger] a[j] <==> b[i]
                == b[j]),
    ensures
        distinct(a).len() == distinct(b).len(),
        forall|i: int|
            0 <= i < a.len() ==> distinct(a).index_of(#[trigger] a[i]) == distinct(b).index_of(
                b[i],
            ),
    decreases a.len(),
{
    if a.len() > 0 {
        let n = a.len() - 1;
        let a1 = a.drop_last();
        let b1 = b.drop_last();
        assert forall|i: int, j: int|
            0 <= i < a1.len() && 0 <= j < a1.len() implies (#[trigger] a1[i] == #[trigger] a1[j]
            <==> b1[i] == b1[j]) by {
            assert(a[i] == a[j] <==> b[i] == b[j]);
        }
        lemma_same_places(a1, b1);
        lemma_distinct(a1);
        lemma_distinct(b1);
        lemma_distinct(a);
        lemma_distinct(b);
        assert(a1.contains(a[n]) <==> b1.contains(b[n])) by {
            if a1.contains(a[n]) {
                let j = choose|j: int| 0 <= j < a1.len() && a1[j] == a[n];
                assert(a[j] == a[n]);
                assert(b1[j] == b[n]);
            }
            if b1.contains(b[n]) {
                let j = choose|j: int| 0 <= j < b1.len() && b1[j] == b[n];
                assert(a[j] == a[n]);
                assert(a1[j] == a[n]);
            }
        }
        assert forall|i: int| 0 <= i < a.len() implies distinct(a).index_of(#[trigger] a[i])
            == distinct(b).index_of(b[i]) by {
            if i < n {
                assert(a1[i] == a[i] && b1[i] == b[i]);
                assert(a1.contains(a[i]) && b1.contains(b[i]));
                lemma_place_kept(a, a[i]);
                lemma_place_kept(b, b[i]);
            } else if a1.contains(a[n]) {
                let j = choose|j: int| 0 <= j < a1.len() && a1[j] == a[n];
                assert(a[j] == a[n]);
                assert(b1[j] == b[n]);
                assert(b1.contains(b[n]));
                lemma_place_kept(a, a[n]);
                lemma_place_kept(b, b[n]);
                assert(distinct(a1).index_of(a1[j]) == distinct(b1).index_of(b1[j]));
            } else {
                assert(distinct(a)[distinct(a1).len() as int] == a[n]);
                assert(distinct(b)[distinct(b1).len() as int] == b[n]);
                lemma_index_of(distinct(a), distinct(a1).len() as int);
                lemma_index_of(distinct(b), distinct(b1).len() as int);
            }
        }
    }
}

/// A label keeps its number when another node is added.
proof fn lemma_place_kept(s: Seq<usize>, x: usize)
    requires
        s.len() > 0,
        s.drop_last().contains(x),
    ensures
        distinct(s).index_of(x) == distinct(s.drop_last()).index_of(x),
{
    let front = s.drop_last();
    lemma_distinct(front);
    lemma_distinct(s);
    let d = distinct(front);
    assert(d.contains(x));
    let i = d.index_of(x);
    assert(d[i] == x);
    assert(distinct(s)[i] == x);
    lemma_index_of(distinct(s), i);
}

} // verus!
