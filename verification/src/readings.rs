//! What graphs, hubs, edge lists and drift tables hold, in terms of what they are made from.
use crate::bytes::{lemma_le_round_trip, lemma_pow256};
use crate::codec::{cluster_drift_bytes, law_cluster_drift_round_trip, Failure};
use crate::edgelist::{line_kind, listed, listed_pairs, LineKind};
use crate::graph::{first_dangling, neighbor_list};
use crate::hub::{are_top, cut_count, Fraction};
use crate::index::{cluster_key, keyed_cluster, recorded_drift};
use crate::maintenance::ClusterDrift;
use crate::node::{Edge, NodeId};
use crate::statements::{as_text, is_line, law_lines_read_back};
use crate::sums::{lemma_weight_to_push, weight_to};
use crate::text::{
    decimal, fields_from, is_white, law_decimal_reads_back, lemma_decimal, trim, trim_end,
    trim_start, word_end,
};
use vstd::prelude::*;

verus! {

/// The edge joins the nodes `a` and `b`, whichever way.
pub open spec fn joins(a: NodeId, b: NodeId) -> spec_fn(Edge) -> bool {
    |e: Edge| (e.source == a && e.target == b) || (e.source == b && e.target == a)
}

/// The weight between two nodes of a graph is the number of edges that join them.
pub proof fn law_weights_count_edges(ids: Seq<NodeId>, edges: Seq<Edge>, u: int, v: int)
    requires
        ids.no_duplicates(),
        ids.len() <= usize::MAX,
        first_dangling(ids, edges) is None,
        0 <= u < ids.len(),
        0 <= v < ids.len(),
    ensures
        weight_to(neighbor_list(ids, edges, u), v) == edges.filter(joins(ids[u], ids[v])).len(),
    decreases edges.len(),
{
    reveal(Seq::filter);
    if edges.len() > 0 {
        let front = edges.drop_last();
        let e = edges.last();
        law_weights_count_edges(ids, front, u, v);
        assert(ids.contains(e.source) && ids.contains(e.target));
        let s = ids.index_of(e.source);
        let t = ids.index_of(e.target);
        assert(ids[s] == e.source && ids[t] == e.target);
        let list = neighbor_list(ids, front, u);
        lemma_weight_to_push(list, (t as usize, 1), v);
        lemma_weight_to_push(list, (s as usize, 1), v);
        assert(ids[u] == e.source <==> u == s);
        assert(ids[u] == e.target <==> u == t);
        assert(ids[v] == e.source <==> v == s);
        assert(ids[v] == e.target <==> v == t);
    }
}

/// Edges are refused for an endpoint that is no node, and only for that: the one named is
/// an endpoint, is no node, and no edge before it has such an endpoint.
pub proof fn law_dangling_endpoints(ids: Seq<NodeId>, edges: Seq<Edge>)
    ensures
        match first_dangling(ids, edges) {
            None => forall|i: int|
                0 <= i < edges.len() ==> ids.contains((#[trigger] edges[i]).source)
                    && ids.contains(edges[i].target),
            Some(which) => !ids.contains(which) && exists|i: int|
                {
                    &&& 0 <= i < edges.len()
                    &&& (#[trigger] edges[i]).source == which || (edges[i].target == which
                        && ids.contains(edges[i].source))
                    &&& forall|j: int|
                        0 <= j < i ==> ids.contains((#[trigger] edges[j]).source) && ids.contains(
                            edges[j].target,
                        )
                },
        },
    decreases edges.len(),
{
    if edges.len() > 0 {
        let front = edges.drop_last();
        law_dangling_endpoints(ids, front);
        assert forall|j: int| 0 <= j < front.len() implies front[j] == edges[j] by {}
        match first_dangling(ids, front) {
            Some(which) => {
                let i = choose|i: int|
                    {
                        &&& 0 <= i < front.len()
                        &&& (#[trigger] front[i]).source == which || (front[i].target == which
                            && ids.contains(front[i].source))
                        &&& forall|j: int|
                            0 <= j < i ==> ids.contains((#[trigger] front[j]).source)
                                && ids.contains(front[j].target)
                    };
                assert(edges[i] == front[i]);
                assert forall|j: int| 0 <= j < i implies ids.contains((#[trigger] edges[j]).source)
                    && ids.contains(edges[j].target) by {
                    assert(edges[j] == front[j]);
                }
            },
            None => {
                assert forall|j: int|
                    0 <= j < edges.len() - 1 implies ids.contains((#[trigger] edges[j]).source)
                    && ids.contains(edges[j].target) by {
                    assert(edges[j] == front[j]);
                }
                let last = edges.len() - 1;
                assert(edges[last] == edges.last());
            },
        }
    }
}

/// The count that a fraction of at most 1 selects is the least one that reaches the
/// fraction.
pub proof fn law_cut_is_least(n: nat, fraction: Fraction)
    requires
        0 < fraction.denominator,
        fraction.numerator <= fraction.denominator,
    ensures
        cut_count(n, fraction) <= n,
        cut_count(n, fraction) * fraction.denominator >= n * fraction.numerator,
        forall|k: nat|
            k < cut_count(n, fraction) ==> #[trigger] (k * fraction.denominator as nat) < n
                * fraction.numerator,
{
    let a = fraction.numerator as nat;
    let d = fraction.denominator as int;
    let x = n * a;
    let q = (x + d - 1) / d;
    assert(x <= q * d < x + d && q >= 0) by (nonlinear_arith)
        requires
            q == (x + d - 1) / d,
            d > 0,
            x >= 0,
    ;
    assert(x <= n * d) by (nonlinear_arith)
        requires
            x == n * a,
            a <= d,
            n >= 0,
    ;
    assert(q <= n) by (nonlinear_arith)
        requires
            q * d < x + d,
            x <= n * d,
            d > 0,
    ;
    assert forall|k: nat| k < cut_count(n, fraction) implies #[trigger] (
    k * fraction.denominator as nat) < n * fraction.numerator by {
        assert(k * d < x) by (nonlinear_arith)
            requires
                k + 1 <= q,
                q * d < x + d,
                d > 0,
        ;
    }
}

/// A fraction of 1 or more selects all nodes.
pub proof fn law_cut_of_all(n: nat, fraction: Fraction)
    requires
        0 < fraction.denominator <= fraction.numerator,
    ensures
        cut_count(n, fraction) == n,
{
    let a = fraction.numerator as nat;
    let d = fraction.denominator as int;
    let x = n * a;
    let q = (x + d - 1) / d;
    assert(q >= n) by (nonlinear_arith)
        requires
            q == (x + d - 1) / d,
            x == n * a,
            a >= d,
            d > 0,
            n >= 0,
    ;
}

/// Nobody outside of the top has a higher score than one inside, nor the same with a lower
/// number.
pub proof fn law_top_outranks(chosen: Seq<usize>, scores: Seq<u64>, k: nat, x: usize, y: usize)
    requires
        are_top(chosen, scores, k),
        chosen.contains(x),
        !chosen.contains(y),
        y < scores.len(),
    ensures
        scores[x as int] >= scores[y as int],
        scores[x as int] == scores[y as int] ==> x < y,
{
    let i = choose|i: int| 0 <= i < chosen.len() && chosen[i] == x;
    assert(crate::hub::ranks_above(scores, chosen[i] as int, y as int));
}

/// White space only, and on one line.
pub open spec fn is_gap(s: Seq<char>) -> bool {
    forall|i: int| 0 <= i < s.len() ==> is_white(#[trigger] s[i]) && s[i] != '\n'
}

/// The line that lists the pair `(a, b)`, with white space around and between.
pub open spec fn pair_line(
    before: Seq<char>,
    a: u64,
    between: Seq<char>,
    b: u64,
    after: Seq<char>,
) -> Seq<char> {
    before + decimal(a as nat) + between + decimal(b as nat) + after
}

proof fn lemma_trim_start(gap: Seq<char>, s: Seq<char>)
    requires
        is_gap(gap),
        s.len() > 0,
        !is_white(s[0]),
    ensures
        trim_start(gap + s) == s,
    decreases gap.len(),
{
    if gap.len() > 0 {
        assert((gap + s)[0] == gap[0]);
        assert((gap + s).drop_first() =~= gap.drop_first() + s);
        assert forall|i: int| 0 <= i < gap.drop_first().len() implies is_white(
            #[trigger] gap.drop_first()[i],
        ) && gap.drop_first()[i] != '\n' by {
            assert(gap.drop_first()[i] == gap[i + 1]);
        }
        lemma_trim_start(gap.drop_first(), s);
    } else {
        assert(gap + s =~= s);
    }
}

proof fn lemma_trim_end(s: Seq<char>, gap: Seq<char>)
    requires
        is_gap(gap),
        s.len() > 0,
        !is_white(s.last()),
    ensures
        trim_end(s + gap) == s,
    decreases gap.len(),
{
    if gap.len() > 0 {
        assert((s + gap).last() == gap.last());
        assert((s + gap).drop_last() =~= s + gap.drop_last());
        assert forall|i: int| 0 <= i < gap.drop_last().len() implies is_white(
            #[trigger] gap.drop_last()[i],
        ) && gap.drop_last()[i] != '\n' by {
            assert(gap.drop_last()[i] == gap[i]);
        }
        lemma_trim_end(s, gap.drop_last());
    } else {
        assert(s + gap =~= s);
    }
}

proof fn lemma_word_end(s: Seq<char>, from: nat, end: nat)
    requires
        from <= end <= s.len(),
        forall|i: int| from <= i < end ==> !is_white(#[trigger] s[i]),
        end == s.len() || is_white(s[end as int]),
    ensures
        word_end(s, from) == end,
    decreases end - from,
{
    if from < end {
        assert(!is_white(s[from as int]));
        lemma_word_end(s, from + 1, end);
    }
}

proof fn lemma_skip_gap(s: Seq<char>, from: nat, end: nat)
    requires
        from <= end <= s.len(),
        forall|i: int| from <= i < end ==> is_white(#[trigger] s[i]),
    ensures
        fields_from(s, from) == fields_from(s, end),
    decreases end - from,
{
    if from < end {
        assert(is_white(s[from as int]));
        lemma_skip_gap(s, from + 1, end);
    }
}

/// A line of two numbers with white space between them lists the pair, whatever white
/// space is around them.
pub proof fn law_pair_line(before: Seq<char>, a: u64, between: Seq<char>, b: u64, after: Seq<char>)
    requires
        is_gap(before),
        is_gap(between),
        between.len() > 0,
        is_gap(after),
    ensures
        line_kind(pair_line(before, a, between, b, after)) == LineKind::Pair(a, b),
{
    lemma_decimal(a as nat);
    lemma_decimal(b as nat);
    law_decimal_reads_back(a);
    law_decimal_reads_back(b);
    let x = decimal(a as nat);
    let y = decimal(b as nat);
    let t = x + between + y;
    let raw = pair_line(before, a, between, b, after);
    assert(raw =~= before + (t + after));
    assert((t + after)[0] == x[0]);
    lemma_trim_start(before, t + after);
    assert(t.last() == y.last());
    lemma_trim_end(t, after);
    assert(trim(raw) == t);
    assert(t[0] == x[0]);
    let m = x.len();
    let n = m + between.len();
    assert forall|i: int| 0 <= i < m implies !is_white(#[trigger] t[i]) by {
        assert(t[i] == x[i]);
    }
    assert forall|i: int| m <= i < n implies is_white(#[trigger] t[i]) by {
        assert(t[i] == between[i - m]);
    }
    assert forall|i: int| n <= i < t.len() implies !is_white(#[trigger] t[i]) by {
        assert(t[i] == y[i - n]);
    }
    assert(is_white(t[m as int]));
    lemma_word_end(t, 0, m);
    assert(t.subrange(0, m as int) =~= x);
    lemma_skip_gap(t, m, n);
    lemma_word_end(t, n, t.len());
    assert(t.subrange(n as int, t.len() as int) =~= y);
    assert(fields_from(t, t.len()) =~= Seq::empty());
    assert(!is_white(t[n as int]));
    assert(fields_from(t, n) =~= seq![y]);
    assert(!is_white(t[0]));
    assert(fields_from(t, 0) =~= seq![x, y]);
}

/// A line is passed over if its first character other than white space is `#`, or if it
/// has none.
pub proof fn law_remark_line(before: Seq<char>, remark: Seq<char>)
    requires
        is_gap(before),
    ensures
        line_kind(before + seq!['#'] + remark) == LineKind::Skip,
        line_kind(before) == LineKind::Skip,
{
    let s = seq!['#'] + remark;
    assert(before + seq!['#'] + remark =~= before + s);
    lemma_trim_start(before, s);
    lemma_trim_hash(s);
    lemma_trim_blank(before);
}

proof fn lemma_trim_hash(s: Seq<char>)
    requires
        s.len() > 0,
        !is_white(s[0]),
    ensures
        trim_end(s).len() > 0,
        trim_end(s)[0] == s[0],
    decreases s.len(),
{
    if is_white(s.last()) {
        assert(s.drop_last()[0] == s[0]);
        lemma_trim_hash(s.drop_last());
    }
}

proof fn lemma_trim_blank(s: Seq<char>)
    requires
        is_gap(s),
    ensures
        trim_start(s).len() == 0,
    decreases s.len(),
{
    if s.len() > 0 {
        assert(is_white(s[0]));
        assert forall|i: int| 0 <= i < s.drop_first().len() implies is_white(
            #[trigger] s.drop_first()[i],
        ) && s.drop_first()[i] != '\n' by {
            assert(s.drop_first()[i] == s[i + 1]);
        }
        lemma_trim_blank(s.drop_first());
    }
}

/// The line lists a pair.
pub open spec fn lists_pair() -> spec_fn(Seq<char>) -> bool {
    |line: Seq<char>| line_kind(line) is Pair
}

/// The pair that a line lists.
pub open spec fn pair_of() -> spec_fn(Seq<char>) -> (u64, u64) {
    |line: Seq<char>| (line_kind(line)->Pair_0, line_kind(line)->Pair_1)
}

/// Lines are read in turn: the first malformed one is reported with its number from 1 on,
/// and without one, the pairs are those of the lines that list one, in order.
pub proof fn law_lines_in_turn(lines: Seq<Seq<char>>, k: nat)
    requires
        k <= lines.len(),
    ensures
        match listed(lines, k) {
            Ok(pairs) => {
                &&& forall|i: int| 0 <= i < k ==> line_kind(#[trigger] lines[i]) !is Bad
                &&& pairs == lines.take(k as int).filter(lists_pair()).map_values(pair_of())
            },
            Err((number, line)) => {
                &&& 1 <= number <= k
                &&& line == lines[number - 1]
                &&& line_kind(line) is Bad
                &&& forall|i: int| 0 <= i < number - 1 ==> line_kind(#[trigger] lines[i]) !is Bad
            },
        },
    decreases k,
{
    reveal(Seq::filter);
    let keep = lists_pair();
    let give = pair_of();
    if k > 0 {
        law_lines_in_turn(lines, (k - 1) as nat);
        let now = lines.take(k as int);
        let front = lines.take(k - 1);
        assert(now.drop_last() =~= front);
        assert(now.last() == lines[k - 1]);
        match listed(lines, (k - 1) as nat) {
            Ok(pairs) => {
                if keep(now.last()) {
                    assert(now.filter(keep) == front.filter(keep).push(now.last()));
                    assert(now.filter(keep).map_values(give) =~= front.filter(keep).map_values(
                        give,
                    ).push(give(now.last())));
                }
            },
            Err(e) => {},
        }
    } else {
        assert(lines.take(0).filter(keep).map_values(give) =~= Seq::empty());
    }
}

/// An edge list that is written with a line for each pair reads back as the pairs.
pub proof fn law_pairs_read_back(pairs: Seq<(u64, u64)>)
    ensures
        listed_pairs(
            as_text(
                Seq::new(
                    pairs.len(),
                    |i: int| pair_line(Seq::empty(), pairs[i].0, seq![' '], pairs[i].1, Seq::empty()),
                ),
            ),
        ) == Ok::<Seq<(u64, u64)>, (nat, Seq<char>)>(pairs),
{
    let lines = Seq::new(
        pairs.len(),
        |i: int| pair_line(Seq::empty(), pairs[i].0, seq![' '], pairs[i].1, Seq::empty()),
    );
    assert forall|i: int| 0 <= i < lines.len() implies is_line(#[trigger] lines[i]) by {
        let (a, b) = pairs[i];
        lemma_decimal(a as nat);
        lemma_decimal(b as nat);
        let x = decimal(a as nat);
        let y = decimal(b as nat);
        assert(lines[i] =~= x + seq![' '] + y);
        assert(lines[i].last() == y.last());
        assert forall|j: int| 0 <= j < lines[i].len() implies (#[trigger] lines[i][j])
            != '\n' by {
            if j < x.len() {
                assert(lines[i][j] == x[j]);
            } else if j > x.len() {
                assert(lines[i][j] == y[j - x.len() - 1]);
            }
        }
    }
    law_lines_read_back(lines);
    lemma_pairs_listed(pairs, lines, pairs.len());
    assert(pairs.take(pairs.len() as int) =~= pairs);
}

proof fn lemma_pairs_listed(pairs: Seq<(u64, u64)>, lines: Seq<Seq<char>>, k: nat)
    requires
        k <= pairs.len() == lines.len(),
        forall|i: int|
            0 <= i < lines.len() ==> #[trigger] lines[i] == pair_line(
                Seq::empty(),
                pairs[i].0,
                seq![' '],
                pairs[i].1,
                Seq::empty(),
            ),
    ensures
        listed(lines, k) == Ok::<Seq<(u64, u64)>, (nat, Seq<char>)>(pairs.take(k as int)),
    decreases k,
{
    if k > 0 {
        lemma_pairs_listed(pairs, lines, (k - 1) as nat);
        let (a, b) = pairs[k - 1];
        law_pair_line(Seq::empty(), a, seq![' '], b, Seq::empty());
        assert(lines[k - 1] == pair_line(Seq::empty(), a, seq![' '], b, Seq::empty()));
        assert(pairs.take(k as int) =~= pairs.take(k - 1).push((a, b)));
    } else {
        assert(pairs.take(0) =~= Seq::empty());
    }
}

/// A drift table reads back as what was recorded of each cluster, by cluster; of a cluster
/// recorded several times, the last record counts.
pub proof fn law_drift_reads_back(records: Seq<(u32, ClusterDrift)>, c: u32)
    ensures
        ({
            let rows = Seq::new(
                records.len(),
                |i: int|
                    (
                        cluster_key(records[i].0),
                        cluster_drift_bytes(records[i].1.generation, records[i].1.delta_inserts),
                    ),
            );
            let report = recorded_drift(rows, rows.len());
            &&& report is Ok
            &&& report->Ok_0.contains_key(c) <==> exists|i: int|
                0 <= i < records.len() && (#[trigger] records[i]).0 == c
            &&& forall|i: int|
                0 <= i < records.len() && (#[trigger] records[i]).0 == c && (forall|j: int|
                    i < j < records.len() ==> (#[trigger] records[j]).0 != c)
                    ==> report->Ok_0[c] == records[i].1
        }),
{
    let rows = Seq::new(
        records.len(),
        |i: int|
            (
                cluster_key(records[i].0),
                cluster_drift_bytes(records[i].1.generation, records[i].1.delta_inserts),
            ),
    );
    lemma_drift_rows(records, rows, records.len(), c);
}

proof fn lemma_drift_rows(
    records: Seq<(u32, ClusterDrift)>,
    rows: Seq<(Seq<u8>, Seq<u8>)>,
    k: nat,
    c: u32,
)
    requires
        k <= records.len() == rows.len(),
        forall|i: int|
            0 <= i < rows.len() ==> #[trigger] rows[i] == (
                cluster_key(records[i].0),
                cluster_drift_bytes(records[i].1.generation, records[i].1.delta_inserts),
            ),
    ensures
        ({
            let report = recorded_drift(rows, k);
            &&& report is Ok
            &&& report->Ok_0.contains_key(c) <==> exists|i: int|
                0 <= i < k && (#[trigger] records[i]).0 == c
            &&& forall|i: int|
                0 <= i < k && (#[trigger] records[i]).0 == c && (forall|j: int|
                    i < j < k ==> (#[trigger] records[j]).0 != c) ==> report->Ok_0[c]
                    == records[i].1
        }),
    decreases k,
{
    if k > 0 {
        lemma_drift_rows(records, rows, (k - 1) as nat, c);
        let (d, drift) = records[k - 1];
        assert(rows[k - 1] == (
            cluster_key(d),
            cluster_drift_bytes(drift.generation, drift.delta_inserts),
        ));
        law_cluster_drift_round_trip(drift.generation, drift.delta_inserts);
        lemma_pow256();
        lemma_le_round_trip(d as nat, 4);
        assert(keyed_cluster(cluster_key(d), "cluster_drift"@) == Ok::<u32, Failure>(d));
        let before = recorded_drift(rows, (k - 1) as nat)->Ok_0;
        let now = recorded_drift(rows, k)->Ok_0;
        assert(now == before.insert(d, drift));
        if d == c {
            assert(records[k - 1].0 == c);
        } else {
            assert forall|i: int|
                0 <= i < k && (#[trigger] records[i]).0 == c && (forall|j: int|
                    i < j < k ==> (#[trigger] records[j]).0 != c) implies now[c]
                == records[i].1 by {
                assert(i < k - 1);
            }
        }
    }
}

} // verus!
