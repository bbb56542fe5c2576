//! Comparing two partitions of the same nodes.
//!
//! Normalised mutual information is read off a contingency table. This module
//! builds the table and decides the cases in which no logarithm is needed; the
//! entropies themselves are left to the caller.
use crate::modularity::labels_below;
use crate::partition::Partition;
use crate::sums::{lemma_sum_add, lemma_sum_ext, lemma_sum_single, lemma_sum_zero, sum};
use vstd::prelude::*;

verus! {

/// How many of the first `k` nodes are labeled `i` by `a` and `j` by `b`.
pub open spec fn joint_count(a: Seq<usize>, b: Seq<usize>, i: int, j: int, k: nat) -> nat
    decreases k,
{
    if k == 0 {
        0
    } else {
        joint_count(a, b, i, j, (k - 1) as nat) + (if a[k - 1] == i && b[k - 1] == j {
            1nat
        } else {
            0nat
        })
    }
}

/// How many of the first `k` nodes are labeled `i`.
pub open spec fn label_size(a: Seq<usize>, i: int, k: nat) -> nat
    decreases k,
{
    if k == 0 {
        0
    } else {
        label_size(a, i, (k - 1) as nat) + (if a[k - 1] == i {
            1nat
        } else {
            0nat
        })
    }
}

/// How two partitions overlap.
pub struct Contingency {
    /// `table[i][j]` nodes are in community `i` of the first partition and in
    /// community `j` of the second.
    pub table: Vec<Vec<usize>>,
    /// The sizes of the communities of the first partition.
    pub rows: Vec<usize>,
    /// The sizes of the communities of the second partition.
    pub columns: Vec<usize>,
    /// The number of nodes.
    pub nodes: usize,
}

impl Contingency {
    /// The table counts the nodes of the partitions `a` and `b`.
    pub open spec fn counts(&self, a: Partition, b: Partition) -> bool {
        &&& self.nodes == a@.len()
        &&& self.rows@.len() == self.table@.len() == a.count()
        &&& self.columns@.len() == b.count()
        &&& forall|i: int|
            0 <= i < a.count() ==> (#[trigger] self.table@[i])@.len() == b.count()
        &&& forall|i: int, j: int|
            0 <= i < a.count() && 0 <= j < b.count() ==> #[trigger] self.table@[i]@[j]
                == joint_count(a@, b@, i, j, a@.len())
        &&& forall|i: int|
            0 <= i < a.count() ==> #[trigger] self.rows@[i] == label_size(a@, i, a@.len())
        &&& forall|j: int|
            0 <= j < b.count() ==> #[trigger] self.columns@[j] == label_size(b@, j, a@.len())
    }
}

/// A list of `n` zeros.
fn zeros(n: usize) -> (list: Vec<usize>)
    ensures
        list@.len() == n,
        forall|i: int| 0 <= i < n ==> #[trigger] list@[i] == 0,
{
    let mut list: Vec<usize> = Vec::new();
    let mut i: usize = 0;
    while i < n
        invariant
            i <= n,
            list@.len() == i,
            forall|j: int| 0 <= j < i ==> #[trigger] list@[j] == 0,
        decreases n - i,
    {
        list.push(0);
        i += 1;
    }
    list
}

proof fn lemma_counts_bounded(a: Seq<usize>, b: Seq<usize>, i: int, j: int, k: nat)
    ensures
        joint_count(a, b, i, j, k) <= label_size(a, i, k) <= k,
        joint_count(a, b, i, j, k) <= label_size(b, j, k) <= k,
    decreases k,
{
    if k > 0 {
        lemma_counts_bounded(a, b, i, j, (k - 1) as nat);
    }
}

/// The contingency table of two partitions.
pub fn contingency(a: &Partition, b: &Partition) -> (c: Contingency)
    requires
        a.wf(),
        b.wf(),
        a@.len() == b@.len(),
    ensures
        c.counts(*a, *b),
{
    let n: usize = a.node_count();
    let ka: usize = a.community_count();
    let kb: usize = b.community_count();
    proof {
        a.lemma_wf();
        b.lemma_wf();
    }
    let mut table: Vec<Vec<usize>> = Vec::new();
    let mut i: usize = 0;
    while i < ka
        invariant
            i <= ka,
            table@.len() == i,
            forall|x: int| 0 <= x < i ==> (#[trigger] table@[x])@.len() == kb,
            forall|x: int, y: int|
                0 <= x < i && 0 <= y < kb ==> #[trigger] table@[x]@[y] == 0,
        decreases ka - i,
    {
        table.push(zeros(kb));
        i += 1;
    }
    let mut rows = zeros(ka);
    let mut columns = zeros(kb);
    let mut k: usize = 0;
    while k < n
        invariant
            k <= n == a@.len() == b@.len(),
            ka == a.count(),
            kb == b.count(),
            forall|x: int| 0 <= x < n ==> (#[trigger] a@[x]) < ka,
            forall|x: int| 0 <= x < n ==> (#[trigger] b@[x]) < kb,
            table@.len() == rows@.len() == ka,
            columns@.len() == kb,
            forall|x: int| 0 <= x < ka ==> (#[trigger] table@[x])@.len() == kb,
            forall|x: int, y: int|
                0 <= x < ka && 0 <= y < kb ==> #[trigger] table@[x]@[y] == joint_count(
                    a@,
                    b@,
                    x,
                    y,
                    k as nat,
                ),
            forall|x: int| 0 <= x < ka ==> #[trigger] rows@[x] == label_size(a@, x, k as nat),
            forall|y: int| 0 <= y < kb ==> #[trigger] columns@[y] == label_size(b@, y, k as nat),
        decreases n - k,
    {
        let ai: usize = a.community_of(k);
        let bj: usize = b.community_of(k);
        let ghost before = table@;
        proof {
            lemma_counts_bounded(a@, b@, ai as int, bj as int, k as nat);
            assert(table@[ai as int]@[bj as int] == joint_count(
                a@,
                b@,
                ai as int,
                bj as int,
                k as nat,
            ));
        }
        let cell: usize = table[ai][bj];
        table[ai].set(bj, cell + 1);
        rows.set(ai, rows[ai] + 1);
        columns.set(bj, columns[bj] + 1);
        proof {
            assert forall|x: int, y: int| 0 <= x < ka && 0 <= y < kb implies #[trigger] table@[x]@[
            y] == joint_count(a@, b@, x, y, (k + 1) as nat) by {
                assert(before[x]@[y] == joint_count(a@, b@, x, y, k as nat));
                if x != ai {
                    assert(table@[x] == before[x]);
                }
            }
        }
        k += 1;
    }
    Contingency { table, rows, columns, nodes: n }
}

/// What normalized mutual information comes down to.
pub enum NmiTerms {
    /// Both partitions say nothing, or there are no nodes: they agree fully.
    Full,
    /// Only one of the partitions says nothing: they share no information.
    Zero,
    /// Both partitions have several communities: the score follows from the table.
    Table(Contingency),
}

/// The terms of the normalized mutual information of two partitions.
pub fn nmi_terms(a: &Partition, b: &Partition) -> (terms: NmiTerms)
    requires
        a.wf(),
        b.wf(),
        a@.len() == b@.len(),
    ensures
        terms is Full <==> a.count() <= 1 && b.count() <= 1,
        terms is Zero <==> (a.count() <= 1) != (b.count() <= 1),
        match terms {
            NmiTerms::Table(c) => c.counts(*a, *b),
            _ => true,
        },
{
    let one_a = a.community_count() <= 1;
    let one_b = b.community_count() <= 1;
    if one_a && one_b {
        NmiTerms::Full
    } else if one_a || one_b {
        NmiTerms::Zero
    } else {
        NmiTerms::Table(contingency(a, b))
    }
}

/// The order of the two partitions only transposes the table.
pub proof fn law_joint_count_symmetric(a: Seq<usize>, b: Seq<usize>, i: int, j: int, k: nat)
    ensures
        joint_count(a, b, i, j, k) == joint_count(b, a, j, i, k),
    decreases k,
{
    if k > 0 {
        law_joint_count_symmetric(a, b, i, j, (k - 1) as nat);
    }
}

/// The entries of a row of the table, by column.
pub open spec fn table_row(a: Seq<usize>, b: Seq<usize>, i: int, k: nat) -> spec_fn(int) -> int {
    |j: int| joint_count(a, b, i, j, k) as int
}

/// The rows of the table add up to the sizes of the communities.
pub proof fn law_rows_add_up(a: Seq<usize>, b: Seq<usize>, kb: nat, i: int, k: nat)
    requires
        labels_below(b, kb),
        k <= b.len(),
    ensures
        sum(kb, table_row(a, b, i, k)) == label_size(a, i, k),
    decreases k,
{
    let whole = table_row(a, b, i, k);
    if k == 0 {
        lemma_sum_zero(kb, whole);
    } else {
        law_rows_add_up(a, b, kb, i, (k - 1) as nat);
        let front = table_row(a, b, i, (k - 1) as nat);
        let last = b[k - 1] as int;
        let extra = |j: int| if a[k - 1] == i && j == last {
            1int
        } else {
            0int
        };
        if a[k - 1] == i {
            lemma_sum_single(kb, extra, last);
        } else {
            lemma_sum_zero(kb, extra);
        }
        lemma_sum_add(kb, front, extra);
        lemma_sum_ext(kb, whole, |j: int| front(j) + extra(j));
    }
}

/// The sizes of the communities, by label.
pub open spec fn sizes(a: Seq<usize>, k: nat) -> spec_fn(int) -> int {
    |i: int| label_size(a, i, k) as int
}

/// The sizes of the communities add up to the number of nodes.
pub proof fn law_sizes_add_up(a: Seq<usize>, ka: nat, k: nat)
    requires
        labels_below(a, ka),
        k <= a.len(),
    ensures
        sum(ka, sizes(a, k)) == k,
    decreases k,
{
    let whole = sizes(a, k);
    if k == 0 {
        lemma_sum_zero(ka, whole);
    } else {
        let front = sizes(a, (k - 1) as nat);
        law_sizes_add_up(a, ka, (k - 1) as nat);
        let i = a[k - 1] as int;
        assert(a[k - 1] < ka);
        crate::sums::lemma_sum_update(ka, front, whole, i);
    }
}

/// Two partitions with the same communities overlap only in these: a community of one
/// shares all its nodes with its equal, and none with another.
pub proof fn law_overlap_of_equals(a: Seq<usize>, i: int, j: int, k: nat)
    requires
        k <= a.len(),
    ensures
        joint_count(a, a, i, j, k) == (if i == j {
            label_size(a, i, k)
        } else {
            0
        }),
    decreases k,
{
    if k > 0 {
        law_overlap_of_equals(a, i, j, (k - 1) as nat);
    }
}

} // verus!
