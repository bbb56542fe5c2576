//! What is listed of an index: labels in order, clusters by size, and drift.
use crate::maintenance::{drift_entries, ClusterDrift, DriftReport};
use crate::sort::{lemma_sorted_items, precedes, sort_items};
use crate::text::{
    comes_before, copied, find, find_from, lemma_text_before_total, lemma_text_before_transitive,
    text, text_before, to_chars, to_text,
};
use vstd::prelude::*;
use vstd::string::StringExecFns;

verus! {

/// The characters of each label.
pub open spec fn label_texts(labels: Seq<String>) -> Seq<Seq<char>> {
    labels.map_values(|label: String| label@)
}

/// The characters of each list.
spec fn char_texts(labels: Seq<Vec<char>>) -> Seq<Seq<char>> {
    labels.map_values(|label: Vec<char>| label@)
}

/// No text comes before one in front of it.
pub open spec fn in_text_order(s: Seq<Seq<char>>) -> bool {
    forall|i: int, j: int| 0 <= i < j < s.len() ==> !text_before(#[trigger] s[j], #[trigger] s[i])
}

/// Each text comes before those behind it.
pub open spec fn strictly_in_text_order(s: Seq<Seq<char>>) -> bool {
    forall|i: int, j: int| 0 <= i < j < s.len() ==> text_before(#[trigger] s[i], #[trigger] s[j])
}

/// Where `b` does not come before `a`, nor `c` before `b`, `c` does not come before `a`.
proof fn lemma_not_before(a: Seq<char>, b: Seq<char>, c: Seq<char>)
    requires
        !text_before(b, a),
        !text_before(c, b),
    ensures
        !text_before(c, a),
{
    lemma_text_before_total(a, b);
    lemma_text_before_total(b, c);
    lemma_text_before_total(a, c);
    if text_before(c, a) {
        if a == b {
        } else if b == c {
        } else {
            lemma_text_before_transitive(a, b, c);
        }
    }
}

/// Merges two lists of texts in order.
fn merge_texts(a: &Vec<Vec<char>>, b: &Vec<Vec<char>>) -> (c: Vec<Vec<char>>)
    requires
        in_text_order(char_texts(a@)),
        in_text_order(char_texts(b@)),
    ensures
        in_text_order(char_texts(c@)),
        char_texts(c@).to_multiset() == char_texts(a@).to_multiset().add(
            char_texts(b@).to_multiset(),
        ),
{
    broadcast use vstd::seq_lib::group_to_multiset_ensures;

    let ghost sa = char_texts(a@);
    let ghost sb = char_texts(b@);
    let mut c: Vec<Vec<char>> = Vec::new();
    let mut i: usize = 0;
    let mut j: usize = 0;
    assert(sa.take(0) =~= Seq::empty());
    assert(sb.take(0) =~= Seq::empty());
    assert(char_texts(c@) =~= Seq::empty());
    assert(char_texts(c@).to_multiset() =~= sa.take(0).to_multiset().add(
        sb.take(0).to_multiset(),
    ));
    while i < a.len() || j < b.len()
        invariant
            i <= a.len(),
            j <= b.len(),
            sa == char_texts(a@),
            sb == char_texts(b@),
            in_text_order(sa),
            in_text_order(sb),
            in_text_order(char_texts(c@)),
            forall|x: int, y: int|
                0 <= x < c@.len() && i <= y < sa.len() ==> !text_before(
                    #[trigger] sa[y],
                    #[trigger] char_texts(c@)[x],
                ),
            forall|x: int, y: int|
                0 <= x < c@.len() && j <= y < sb.len() ==> !text_before(
                    #[trigger] sb[y],
                    #[trigger] char_texts(c@)[x],
                ),
            char_texts(c@).to_multiset() == sa.take(i as int).to_multiset().add(
                sb.take(j as int).to_multiset(),
            ),
        decreases (a.len() - i) + (b.len() - j),
    {
        let left = if i >= a.len() {
            false
        } else if j >= b.len() {
            true
        } else {
            !comes_before(b[j].as_slice(), a[i].as_slice())
        };
        let ghost front = char_texts(c@);
        if left {
            let next = copied(a[i].as_slice());
            c.push(next);
            proof {
                assert(char_texts(c@) =~= front.push(sa[i as int]));
                front.to_multiset_ensures();
                sa.take(i as int).to_multiset_ensures();
                assert(sa.take(i + 1) =~= sa.take(i as int).push(sa[i as int]));
                assert(sa.take(i as int).push(sa[i as int]).to_multiset().add(
                    sb.take(j as int).to_multiset(),
                ) =~= sa.take(i as int).to_multiset().add(sb.take(j as int).to_multiset()).insert(
                    sa[i as int],
                ));
                assert forall|y: int| i <= y < sa.len() implies !text_before(
                    #[trigger] sa[y],
                    sa[i as int],
                ) by {
                    lemma_text_before_total(sa[i as int], sa[i as int]);
                }
                assert forall|y: int| j <= y < sb.len() implies !text_before(
                    #[trigger] sb[y],
                    sa[i as int],
                ) by {
                    if y > j {
                        lemma_not_before(sa[i as int], sb[j as int], sb[y]);
                    }
                }
            }
            i += 1;
        } else {
            let next = copied(b[j].as_slice());
            c.push(next);
            proof {
                assert(char_texts(c@) =~= front.push(sb[j as int]));
                front.to_multiset_ensures();
                sb.take(j as int).to_multiset_ensures();
                assert(sb.take(j + 1) =~= sb.take(j as int).push(sb[j as int]));
                assert(sa.take(i as int).to_multiset().add(
                    sb.take(j as int).push(sb[j as int]).to_multiset(),
                ) =~= sa.take(i as int).to_multiset().add(sb.take(j as int).to_multiset()).insert(
                    sb[j as int],
                ));
                assert forall|y: int| j <= y < sb.len() implies !text_before(
                    #[trigger] sb[y],
                    sb[j as int],
                ) by {
                    lemma_text_before_total(sb[j as int], sb[j as int]);
                }
                assert forall|y: int| i <= y < sa.len() implies !text_before(
                    #[trigger] sa[y],
                    sb[j as int],
                ) by {
                    lemma_text_before_total(sa[i as int], sb[j as int]);
                    if y > i {
                        lemma_not_before(sb[j as int], sa[i as int], sa[y]);
                    }
                }
            }
            j += 1;
        }
    }
    assert(sa.take(i as int) =~= sa);
    assert(sb.take(j as int) =~= sb);
    c
}

/// Sorts a list of texts.
fn sort_texts(items: Vec<Vec<char>>) -> (sorted: Vec<Vec<char>>)
    ensures
        in_text_order(char_texts(sorted@)),
        char_texts(sorted@).to_multiset() == char_texts(items@).to_multiset(),
    decreases items@.len(),
{
    let n: usize = items.len();
    if n <= 1 {
        return items;
    }
    let mid: usize = n / 2;
    let mut left: Vec<Vec<char>> = Vec::new();
    let mut right: Vec<Vec<char>> = Vec::new();
    let ghost all = char_texts(items@);
    let mut i: usize = 0;
    assert(char_texts(left@) =~= all.take(0));
    while i < n
        invariant
            i <= n,
            n == items@.len(),
            mid == n / 2,
            n > 1,
            all == char_texts(items@),
            left@.len() == (if i <= mid {
                i
            } else {
                mid
            }),
            right@.len() == (if i <= mid {
                0
            } else {
                i - mid
            }),
            char_texts(left@) == all.take(left@.len() as int),
            char_texts(right@) == all.subrange(mid as int, mid + right@.len()),
        decreases n - i,
    {
        let next = copied(items[i].as_slice());
        if i < mid {
            let ghost front = char_texts(left@);
            left.push(next);
            assert(char_texts(left@) =~= front.push(all[i as int]));
            assert(all.take(i + 1) =~= all.take(i as int).push(all[i as int]));
        } else {
            let ghost front = char_texts(right@);
            right.push(next);
            assert(char_texts(right@) =~= front.push(all[i as int]));
            assert(all.subrange(mid as int, i + 1) =~= all.subrange(mid as int, i as int).push(
                all[i as int],
            ));
        }
        i += 1;
    }
    proof {
        assert(all =~= char_texts(left@) + char_texts(right@));
        vstd::seq_lib::lemma_multiset_commutative(char_texts(left@), char_texts(right@));
    }
    let a = sort_texts(left);
    let b = sort_texts(right);
    merge_texts(&a, &b)
}

/// The labels in the order of their characters.
pub fn sorted_labels(labels: &Vec<String>) -> (sorted: Vec<String>)
    ensures
        in_text_order(label_texts(sorted@)),
        label_texts(sorted@).to_multiset() == label_texts(labels@).to_multiset(),
{
    let mut items: Vec<Vec<char>> = Vec::new();
    let mut i: usize = 0;
    while i < labels.len()
        invariant
            i <= labels@.len(),
            items@.len() == i,
            forall|k: int| 0 <= k < i ==> (#[trigger] items@[k])@ == labels@[k]@,
        decreases labels@.len() - i,
    {
        items.push(to_chars(labels[i].as_str()));
        i += 1;
    }
    assert(char_texts(items@) =~= label_texts(labels@));
    let ordered = sort_texts(items);
    let mut sorted: Vec<String> = Vec::new();
    let mut i: usize = 0;
    while i < ordered.len()
        invariant
            i <= ordered@.len(),
            sorted@.len() == i,
            forall|k: int| 0 <= k < i ==> (#[trigger] sorted@[k])@ == ordered@[k]@,
        decreases ordered@.len() - i,
    {
        sorted.push(to_text(ordered[i].as_slice()));
        i += 1;
    }
    assert(label_texts(sorted@) =~= char_texts(ordered@));
    sorted
}

/// The texts, with a comma between each and the next.
pub open spec fn joined_texts(texts: Seq<Seq<char>>) -> Seq<char>
    decreases texts.len(),
{
    if texts.len() == 0 {
        Seq::empty()
    } else if texts.len() == 1 {
        texts[0]
    } else {
        joined_texts(texts.drop_last()) + ", "@ + texts.last()
    }
}

/// The labels, with a comma between each and the next.
pub fn joined_labels(labels: &Vec<String>) -> (line: String)
    ensures
        line@ == joined_texts(label_texts(labels@)),
{
    let ghost all = label_texts(labels@);
    let mut line = String::new();
    let mut i: usize = 0;
    assert(all.take(0) =~= Seq::empty());
    while i < labels.len()
        invariant
            i <= labels@.len(),
            all == label_texts(labels@),
            line@ == joined_texts(all.take(i as int)),
        decreases labels@.len() - i,
    {
        proof {
            assert(all.take(i + 1).drop_last() =~= all.take(i as int));
            assert(all.take(i + 1).last() == labels@[i as int]@);
        }
        if i > 0 {
            line.append(", ");
        }
        line.append(labels[i].as_str());
        proof {
            if i == 0 {
                assert(line@ =~= labels@[0]@);
            } else {
                assert(line@ =~= joined_texts(all.take(i as int)) + ", "@ + labels@[i as int]@);
            }
        }
        i += 1;
    }
    assert(all.take(i as int) =~= all);
    line
}

/// `label` holds `pattern`, where one is asked for.
pub open spec fn is_wanted(label: Seq<char>, pattern: Option<Seq<char>>) -> bool {
    match pattern {
        Some(p) => p.len() == 0 || find_from(label, p, 0) is Some,
        None => true,
    }
}

/// Whether `label` holds `pattern`, where one is asked for.
fn wanted_label(label: &str, pattern: Option<&str>) -> (r: bool)
    ensures
        r == is_wanted(
            label@,
            match pattern {
                Some(p) => Some(p@),
                None => None,
            },
        ),
{
    match pattern {
        Some(p) => {
            if to_chars(p).len() == 0 {
                return true;
            }
            find(to_chars(label).as_slice(), p).is_some()
        },
        None => true,
    }
}

/// The labels shown, and the number passed over.
pub struct Shown {
    pub labels: Seq<Seq<char>>,
    pub filtered_out: nat,
    pub full: bool,
}

/// What is shown of the first `k` labels: those wanted, up to a limit. Where one more is
/// wanted than the limit allows, the listing ends.
pub open spec fn shown_of(
    labels: Seq<Seq<char>>,
    pattern: Option<Seq<char>>,
    limit: nat,
    k: nat,
) -> Shown
    decreases k,
{
    if k == 0 {
        Shown { labels: Seq::empty(), filtered_out: 0, full: false }
    } else {
        let front = shown_of(labels, pattern, limit, (k - 1) as nat);
        if front.full {
            front
        } else if !is_wanted(labels[k - 1], pattern) {
            Shown { filtered_out: front.filtered_out + 1, ..front }
        } else if front.labels.len() >= limit {
            Shown { full: true, ..front }
        } else {
            Shown { labels: front.labels.push(labels[k - 1]), ..front }
        }
    }
}

/// A list of labels.
#[derive(Debug)]
pub struct TableListing {
    /// The labels listed.
    pub labels: Vec<String>,
    /// The number of labels that do not hold what was asked for.
    pub filtered_out: usize,
}

/// `distinct` holds what `labels` holds, in order and without repetitions.
pub open spec fn is_distinct_order(distinct: Seq<Seq<char>>, labels: Seq<Seq<char>>) -> bool {
    &&& strictly_in_text_order(distinct)
    &&& forall|t: Seq<char>| #[trigger] distinct.contains(t) <==> labels.contains(t)
}

/// The labels in order, without repetitions.
pub fn distinct_labels(labels: &Vec<String>) -> (distinct: Vec<String>)
    ensures
        is_distinct_order(label_texts(distinct@), label_texts(labels@)),
{
    broadcast use vstd::seq_lib::group_to_multiset_ensures;

    let sorted = sorted_labels(labels);
    let ghost all = label_texts(sorted@);
    let mut distinct: Vec<String> = Vec::new();
    let mut i: usize = 0;
    assert(label_texts(distinct@) =~= Seq::empty());
    while i < sorted.len()
        invariant
            i <= sorted@.len(),
            all == label_texts(sorted@),
            in_text_order(all),
            strictly_in_text_order(label_texts(distinct@)),
            distinct@.len() == 0 <==> i == 0,
            i > 0 ==> label_texts(distinct@).last() == all[i - 1],
            forall|t: Seq<char>| #[trigger]
                label_texts(distinct@).contains(t) <==> all.take(i as int).contains(t),
        decreases sorted@.len() - i,
    {
        let ghost front = label_texts(distinct@);
        proof {
            assert(all.take(i + 1) =~= all.take(i as int).push(all[i as int]));
            if i > 0 {
                lemma_text_before_total(all[i - 1], all[i as int]);
                assert(!text_before(all[i as int], all[i - 1]));
            }
        }
        let fresh = i == 0 || comes_before(
            to_chars(sorted[i - 1].as_str()).as_slice(),
            to_chars(sorted[i].as_str()).as_slice(),
        );
        if fresh {
            distinct.push(text(sorted[i].as_str()));
            proof {
                assert(label_texts(distinct@) =~= front.push(all[i as int]));
                assert forall|x: int| 0 <= x < front.len() implies text_before(
                    #[trigger] front[x],
                    all[i as int],
                ) by {
                    if x < front.len() - 1 {
                        lemma_text_before_transitive(front[x], front.last(), all[i as int]);
                    }
                }
                assert forall|t: Seq<char>| #[trigger]
                    label_texts(distinct@).contains(t) <==> all.take(i + 1).contains(t) by {
                    lemma_push_contains(front, all[i as int], t);
                    lemma_push_contains(all.take(i as int), all[i as int], t);
                }
            }
        } else {
            proof {
                assert(front.contains(all[i as int])) by {
                    assert(front[front.len() - 1] == all[i as int]);
                }
                assert forall|t: Seq<char>| #[trigger]
                    front.contains(t) <==> all.take(i + 1).contains(t) by {
                    lemma_push_contains(all.take(i as int), all[i as int], t);
                }
            }
        }
        i += 1;
    }
    proof {
        let given = label_texts(labels@);
        assert(all.take(i as int) =~= all);
        all.to_multiset_ensures();
        given.to_multiset_ensures();
        assert forall|t: Seq<char>| #[trigger]
            label_texts(distinct@).contains(t) <==> given.contains(t) by {
            assert(all.contains(t) <==> all.to_multiset().count(t) > 0);
            assert(given.contains(t) <==> given.to_multiset().count(t) > 0);
        }
    }
    distinct
}

proof fn lemma_push_contains(s: Seq<Seq<char>>, x: Seq<char>, t: Seq<char>)
    ensures
        s.push(x).contains(t) <==> s.contains(t) || t == x,
{
    if s.contains(t) {
        let i = s.index_of(t);
        assert(s.push(x)[i] == t);
    }
    if t == x {
        assert(s.push(x)[s.len() as int] == t);
    }
    if s.push(x).contains(t) {
        let i = s.push(x).index_of(t);
        if i < s.len() {
            assert(s[i] == t);
        }
    }
}

/// What to list of some labels: each once and in order, if it holds the pattern, up to a
/// limit.
pub fn table_listing(labels: &Vec<String>, pattern: Option<&str>, limit: usize) -> (listing:
    TableListing)
    ensures
        exists|distinct: Seq<Seq<char>>| #[trigger]
            is_distinct_order(distinct, label_texts(labels@)) && ({
                let shown = shown_of(
                    distinct,
                    match pattern {
                        Some(p) => Some(p@),
                        None => None,
                    },
                    limit as nat,
                    distinct.len(),
                );
                label_texts(listing.labels@) == shown.labels && listing.filtered_out
                    == shown.filtered_out
            }),
{
    let ghost wanted: Option<Seq<char>> = match pattern {
        Some(p) => Some(p@),
        None => None,
    };
    let distinct = distinct_labels(labels);
    let ghost all = label_texts(distinct@);
    let mut shown: Vec<String> = Vec::new();
    let mut filtered_out: usize = 0;
    let mut full = false;
    let mut i: usize = 0;
    assert(label_texts(shown@) =~= Seq::empty());
    while i < distinct.len()
        invariant
            i <= distinct@.len(),
            all == label_texts(distinct@),
            wanted == (match pattern {
                Some(p) => Some(p@),
                None => None,
            }),
            filtered_out <= i,
            (Shown { labels: label_texts(shown@), filtered_out: filtered_out as nat, full })
                == shown_of(all, wanted, limit as nat, i as nat),
        decreases distinct@.len() - i,
    {
        if !full {
            if !wanted_label(distinct[i].as_str(), pattern) {
                filtered_out += 1;
            } else if shown.len() >= limit {
                full = true;
            } else {
                let ghost front = label_texts(shown@);
                shown.push(text(distinct[i].as_str()));
                assert(label_texts(shown@) =~= front.push(all[i as int]));
            }
        }
        i += 1;
    }
    TableListing { labels: shown, filtered_out }
}

/// Labels have only one order without repetitions.
pub proof fn law_distinct_order_is_unique(
    a: Seq<Seq<char>>,
    b: Seq<Seq<char>>,
    labels: Seq<Seq<char>>,
)
    requires
        is_distinct_order(a, labels),
        is_distinct_order(b, labels),
    ensures
        a == b,
{
    assert forall|t: Seq<char>| #[trigger] a.contains(t) <==> b.contains(t) by {
        assert(a.contains(t) <==> labels.contains(t));
        assert(b.contains(t) <==> labels.contains(t));
    }
    lemma_one_order(a, b);
}

proof fn lemma_one_order(a: Seq<Seq<char>>, b: Seq<Seq<char>>)
    requires
        strictly_in_text_order(a),
        strictly_in_text_order(b),
        forall|t: Seq<char>| #[trigger] a.contains(t) <==> b.contains(t),
    ensures
        a == b,
    decreases a.len(),
{
    if a.len() == 0 {
        if b.len() > 0 {
            assert(b.contains(b[0]));
            assert(a.contains(b[0]));
        }
        assert(a =~= b);
    } else {
        assert(a.contains(a.last()));
        assert(b.contains(a.last()));
        let j = b.index_of(a.last());
        assert(b[j] == a.last());
        assert(b.contains(b.last()));
        assert(a.contains(b.last()));
        let i = a.index_of(b.last());
        assert(a[i] == b.last());
        lemma_text_before_total(a.last(), b.last());
        if j < b.len() - 1 {
            assert(text_before(b[j], b[b.len() - 1]));
            if i < a.len() - 1 {
                assert(text_before(a[i], a[a.len() - 1]));
            }
            assert(false);
        }
        let x = a.drop_last();
        let y = b.drop_last();
        assert forall|t: Seq<char>| #[trigger] x.contains(t) <==> y.contains(t) by {
            lemma_front(a, t);
            lemma_front(b, t);
            assert(a.contains(t) <==> b.contains(t));
        }
        assert forall|i: int, j: int| 0 <= i < j < x.len() implies text_before(
            #[trigger] x[i],
            #[trigger] x[j],
        ) by {
            assert(text_before(a[i], a[j]));
        }
        assert forall|i: int, j: int| 0 <= i < j < y.len() implies text_before(
            #[trigger] y[i],
            #[trigger] y[j],
        ) by {
            assert(text_before(b[i], b[j]));
        }
        lemma_one_order(x, y);
        assert(a =~= x.push(a.last()));
        assert(b =~= y.push(b.last()));
    }
}

proof fn lemma_front(a: Seq<Seq<char>>, t: Seq<char>)
    requires
        a.len() > 0,
        strictly_in_text_order(a),
    ensures
        a.drop_last().contains(t) <==> a.contains(t) && t != a.last(),
{
    let front = a.drop_last();
    assert(a =~= front.push(a.last()));
    lemma_push_contains(front, a.last(), t);
    if front.contains(a.last()) {
        let i = front.index_of(a.last());
        assert(front[i] == a.last());
        assert(text_before(a[i], a[a.len() - 1]));
        lemma_text_before_total(a.last(), a.last());
    }
}

/// The most rows that a list of drift has.
pub const DRIFT_ROWS: usize = 50;

/// `a` is listed before `b`: more was inserted into it, or as much into a lower cluster.
pub open spec fn drifted_more(a: (u32, ClusterDrift), b: (u32, ClusterDrift)) -> bool {
    a.1.delta_inserts > b.1.delta_inserts || (a.1.delta_inserts == b.1.delta_inserts && a.0 < b.0)
}

/// `rows` holds the clusters of `m` into which most was inserted, those with most first.
pub open spec fn is_drift_listing(
    rows: Seq<(u32, ClusterDrift)>,
    m: Map<u32, ClusterDrift>,
) -> bool {
    &&& rows.len() <= DRIFT_ROWS
    &&& forall|i: int, j: int|
        0 <= i < j < rows.len() ==> drifted_more(#[trigger] rows[i], #[trigger] rows[j])
    &&& forall|i: int|
        0 <= i < rows.len() ==> m.contains_key((#[trigger] rows[i]).0) && m[rows[i].0] == rows[i].1
            && rows[i].1.delta_inserts > 0
    &&& forall|c: u32| #[trigger]
        m.contains_key(c) && m[c].delta_inserts > 0 ==> rows.contains((c, m[c])) || (rows.len()
            == DRIFT_ROWS && forall|i: int|
            0 <= i < rows.len() ==> drifted_more(#[trigger] rows[i], (c, m[c])))
}

/// The key by which an entry is sorted.
spec fn drift_key(entry: (u32, ClusterDrift)) -> int {
    u32::MAX - entry.1.delta_inserts
}

/// The clusters into which most was inserted.
pub fn drift_listing(report: &DriftReport) -> (rows: Vec<(u32, ClusterDrift)>)
    ensures
        is_drift_listing(rows@, report.per_cluster@),
{
    let ghost m = report.per_cluster@;
    let entries = drift_entries(&report.per_cluster);
    let mut items: Vec<(u128, usize)> = Vec::new();
    let mut i: usize = 0;
    while i < entries.len()
        invariant
            i <= entries@.len(),
            items@.len() == i,
            forall|k: int|
                0 <= k < i ==> (#[trigger] items@[k]).0 == drift_key(entries@[k]) && items@[k].1 == k,
        decreases entries@.len() - i,
    {
        items.push(((u32::MAX - entries[i].1.delta_inserts) as u128, i));
        i += 1;
    }
    let sorted = sort_items(items);
    proof {
        lemma_sorted_items(items@, sorted@);
    }
    assert forall|k: int| 0 <= k < sorted@.len() implies (#[trigger] sorted@[k]).1 < entries@.len()
        && sorted@[k].0 == drift_key(entries@[sorted@[k].1 as int]) by {
        assert(sorted@.contains(sorted@[k]));
        assert(items@.contains(sorted@[k]));
    }
    assert forall|x: int, y: int| 0 <= x < y < sorted@.len() implies drifted_more(
        entries@[(#[trigger] sorted@[x]).1 as int],
        entries@[(#[trigger] sorted@[y]).1 as int],
    ) by {
        assert(precedes(sorted@[x], sorted@[y]));
        assert(items@.no_duplicates());
        assert(sorted@[x] != sorted@[y]);
    }
    let mut rows: Vec<(u32, ClusterDrift)> = Vec::new();
    let mut i: usize = 0;
    while i < sorted.len() && i < DRIFT_ROWS
        invariant
            i <= sorted@.len(),
            i <= DRIFT_ROWS,
            forall|k: int|
                0 <= k < sorted@.len() ==> (#[trigger] sorted@[k]).1 < entries@.len() && sorted@[k].0
                    == drift_key(entries@[sorted@[k].1 as int]),
            forall|x: int, y: int|
                0 <= x < y < sorted@.len() ==> drifted_more(
                    entries@[(#[trigger] sorted@[x]).1 as int],
                    entries@[(#[trigger] sorted@[y]).1 as int],
                ),
            rows@.len() <= i,
            forall|k: int|
                0 <= k < rows@.len() ==> #[trigger] rows@[k] == entries@[sorted@[k].1 as int]
                    && rows@[k].1.delta_inserts > 0,
            rows@.len() < i ==> forall|k: int|
                rows@.len() <= k < sorted@.len() ==> entries@[(
                #[trigger] sorted@[k]).1 as int].1.delta_inserts == 0,
        decreases sorted@.len() - i,
    {
        let entry = entries[sorted[i].1];
        if entry.1.delta_inserts > 0 {
            rows.push(entry);
        } else {
            assert forall|k: int| rows@.len() <= k < sorted@.len() implies entries@[(
            #[trigger] sorted@[k]).1 as int].1.delta_inserts == 0 by {
                if k > i {
                    assert(drifted_more(
                        entries@[sorted@[i as int].1 as int],
                        entries@[sorted@[k].1 as int],
                    ));
                }
            }
        }
        i += 1;
    }
    proof {
        assert forall|c: u32| #[trigger]
            m.contains_key(c) && m[c].delta_inserts > 0 implies rows@.contains((c, m[c])) || (
        rows@.len() == DRIFT_ROWS && forall|i: int|
            0 <= i < rows@.len() ==> drifted_more(#[trigger] rows@[i], (c, m[c]))) by {
            let p = choose|p: int| 0 <= p < entries@.len() && (#[trigger] entries@[p]).0 == c;
            assert(entries@[p] == (c, m[c]));
            assert(items@[p].1 == p);
            assert(items@.contains(items@[p]));
            assert(sorted@.contains(items@[p]));
            let k = sorted@.index_of(items@[p]);
            assert(sorted@[k].1 == p);
            if k < rows@.len() {
                assert(rows@[k] == (c, m[c]));
            }
        }
    }
    rows
}

/// What is shown of the clusters read so far.
pub struct ClustersShown {
    pub shown: nat,
    pub skipped: nat,
    pub full: bool,
}

/// What is shown of the first `k` clusters, given the size and the hubs of each that is
/// there: the ones with at least `min_size` members, up to a limit.
pub open spec fn clusters_shown(
    metas: Seq<Option<(u32, u32)>>,
    min_size: u32,
    limit: nat,
    k: nat,
) -> ClustersShown
    decreases k,
{
    if k == 0 {
        ClustersShown { shown: 0, skipped: 0, full: false }
    } else {
        let front = clusters_shown(metas, min_size, limit, (k - 1) as nat);
        match metas[k - 1] {
            Some((size, _)) if !front.full => if size < min_size {
                ClustersShown { skipped: front.skipped + 1, ..front }
            } else if front.shown >= limit {
                ClustersShown { full: true, ..front }
            } else {
                ClustersShown { shown: front.shown + 1, ..front }
            },
            _ => front,
        }
    }
}

/// A list of clusters, one after the other.
pub struct ClusterListing {
    count: u32,
    min_size: u32,
    limit: usize,
    next: u32,
    shown: usize,
    skipped: usize,
    full: bool,
    seen: Ghost<Seq<Option<(u32, u32)>>>,
}

impl ClusterListing {
    #[verifier::type_invariant]
    spec fn inv(self) -> bool {
        &&& self.next == self.seen@.len()
        &&& self.next <= self.count
        &&& self.shown <= self.next
        &&& self.skipped <= self.next
        &&& (ClustersShown {
            shown: self.shown as nat,
            skipped: self.skipped as nat,
            full: self.full,
        }) == clusters_shown(self.seen@, self.min_size, self.limit as nat, self.seen@.len())
    }

    /// The number of clusters, the least size to show and the most clusters to show.
    pub closed spec fn options(self) -> (u32, u32, usize) {
        (self.count, self.min_size, self.limit)
    }

    /// What was read of the first clusters.
    pub closed spec fn seen(self) -> Seq<Option<(u32, u32)>> {
        self.seen@
    }

    /// What is shown so far.
    pub open spec fn outcome(self) -> ClustersShown {
        clusters_shown(
            self.seen(),
            self.options().1,
            self.options().2 as nat,
            self.seen().len(),
        )
    }

    /// A list of `count` clusters.
    pub fn new(count: u32, min_size: u32, limit: usize) -> (listing: Self)
        ensures
            listing.options() == (count, min_size, limit),
            listing.seen() == Seq::<Option<(u32, u32)>>::empty(),
    {
        ClusterListing {
            count,
            min_size,
            limit,
            next: 0,
            shown: 0,
            skipped: 0,
            full: false,
            seen: Ghost(Seq::empty()),
        }
    }

    /// The next cluster to read, until all are read or no more may be shown.
    pub fn wanted(&self) -> (r: Option<u32>)
        ensures
            r == (if self.outcome().full || self.seen().len() >= self.options().0 {
                None
            } else {
                Some(self.seen().len() as u32)
            }),
    {
        proof {
            use_type_invariant(self);
        }
        if self.full || self.next >= self.count {
            None
        } else {
            Some(self.next)
        }
    }

    /// Takes in the size and the hubs of the next cluster, and says whether to show it.
    pub fn answer(self, meta: Option<(u32, u32)>) -> (r: (Self, bool))
        requires
            !self.outcome().full,
            self.seen().len() < self.options().0,
        ensures
            r.0.options() == self.options(),
            r.0.seen() == self.seen().push(meta),
            r.1 == (r.0.outcome().shown == self.outcome().shown + 1),
    {
        proof {
            use_type_invariant(&self);
            lemma_shown_prefix(
                self.seen@,
                self.seen@.push(meta),
                self.min_size,
                self.limit as nat,
                self.seen@.len(),
            );
        }
        let ghost seen = self.seen@.push(meta);
        let mut shown: usize = self.shown;
        let mut skipped: usize = self.skipped;
        let mut full = self.full;
        let mut show = false;
        match meta {
            Some((size, _)) => {
                if size < self.min_size {
                    skipped += 1;
                } else if shown >= self.limit {
                    full = true;
                } else {
                    shown += 1;
                    show = true;
                }
            },
            None => {},
        }
        let listing = ClusterListing {
            count: self.count,
            min_size: self.min_size,
            limit: self.limit,
            next: self.next + 1,
            shown,
            skipped,
            full,
            seen: Ghost(seen),
        };
        (listing, show)
    }

    /// The number of clusters shown.
    pub fn shown(&self) -> (n: usize)
        ensures
            n == self.outcome().shown,
    {
        proof {
            use_type_invariant(self);
        }
        self.shown
    }

    /// The number of clusters too small to show, where that tells anything.
    pub fn below_threshold(&self) -> (n: usize)
        ensures
            n == (if self.options().1 > 1 {
                self.outcome().skipped
            } else {
                0
            }),
    {
        proof {
            use_type_invariant(self);
        }
        if self.min_size > 1 {
            self.skipped
        } else {
            0
        }
    }
}

proof fn lemma_shown_prefix(
    a: Seq<Option<(u32, u32)>>,
    b: Seq<Option<(u32, u32)>>,
    min_size: u32,
    limit: nat,
    k: nat,
)
    requires
        k <= a.len() <= b.len(),
        forall|i: int| 0 <= i < a.len() ==> a[i] == #[trigger] b[i],
    ensures
        clusters_shown(a, min_size, limit, k) == clusters_shown(b, min_size, limit, k),
    decreases k,
{
    if k > 0 {
        lemma_shown_prefix(a, b, min_size, limit, (k - 1) as nat);
    }
}

/// Whether a label is wanted.
pub open spec fn wants(pattern: Option<Seq<char>>) -> spec_fn(Seq<char>) -> bool {
    |label: Seq<char>| is_wanted(label, pattern)
}

/// A label is wanted if what is asked for occurs somewhere in it.
pub proof fn law_wanted_holds_pattern(label: Seq<char>, p: Seq<char>)
    ensures
        is_wanted(label, Some(p)) <==> exists|i: int|
            0 <= i <= label.len() - p.len() && #[trigger] label.subrange(i, i + p.len()) == p,
        is_wanted(label, None),
{
    if p.len() == 0 {
        assert(label.subrange(0, 0int + p.len()) =~= p);
    } else {
        lemma_find_from(label, p, 0);
    }
}

proof fn lemma_find_from(s: Seq<char>, p: Seq<char>, from: nat)
    requires
        p.len() > 0,
    ensures
        find_from(s, p, from) is Some <==> exists|i: int|
            from <= i <= s.len() - p.len() && #[trigger] s.subrange(i, i + p.len()) == p,
    decreases s.len() - from,
{
    if from < s.len() && from + p.len() <= s.len() {
        let here = s.subrange(from as int, (from + p.len()) as int);
        assert(here == s.subrange(from as int, from as int + p.len()));
        if here != p {
            lemma_find_from(s, p, from + 1);
            if exists|i: int|
                from <= i <= s.len() - p.len() && #[trigger] s.subrange(i, i + p.len()) == p {
                let i = choose|i: int|
                    from <= i <= s.len() - p.len() && #[trigger] s.subrange(i, i + p.len()) == p;
                assert(i != from);
                assert(s.subrange(i, i + p.len()) == p);
            }
        }
    }
}

/// A listing shows the wanted labels in order, as many as the limit allows, and counts
/// those passed over. It is full if there is one more wanted than that, and then it ends at
/// that one.
pub proof fn law_listing_shows_wanted(
    labels: Seq<Seq<char>>,
    pattern: Option<Seq<char>>,
    limit: nat,
    k: nat,
)
    requires
        k <= labels.len(),
    ensures
        ({
            let wanted = labels.take(k as int).filter(wants(pattern));
            let all = shown_of(labels, pattern, limit, k);
            &&& all.full <==> wanted.len() > limit
            &&& !all.full ==> all.labels == wanted && all.filtered_out == k - wanted.len()
            &&& all.full ==> all.labels == wanted.take(limit as int) && exists|j: int|
                {
                    &&& 0 <= j < k
                    &&& is_wanted(labels[j], pattern)
                    &&& #[trigger] labels.take(j).filter(wants(pattern)).len() == limit
                    &&& all.filtered_out == j - limit
                }
        }),
    decreases k,
{
    reveal(Seq::filter);
    let keep = wants(pattern);
    if k > 0 {
        law_listing_shows_wanted(labels, pattern, limit, (k - 1) as nat);
        let now = labels.take(k as int);
        let front = labels.take(k - 1);
        assert(now.drop_last() =~= front);
        assert(now.last() == labels[k - 1]);
        let before = front.filter(keep);
        let after = now.filter(keep);
        if keep(labels[k - 1]) {
            assert(after == before.push(labels[k - 1]));
            if before.len() >= limit {
                assert(after.take(limit as int) =~= before.take(limit as int));
            }
            if before.len() == limit {
                assert(before.take(limit as int) =~= before);
                assert(labels.take(k - 1).filter(wants(pattern)).len() == limit);
            }
        } else {
            assert(after == before);
        }
    } else {
        assert(labels.take(0).filter(keep) =~= Seq::empty());
    }
}

/// A cluster of at least so many members.
pub open spec fn at_least(min_size: u32) -> spec_fn(Option<(u32, u32)>) -> bool {
    |meta: Option<(u32, u32)>| meta is Some && (meta->0).0 >= min_size
}

/// A cluster of fewer members.
pub open spec fn below(min_size: u32) -> spec_fn(Option<(u32, u32)>) -> bool {
    |meta: Option<(u32, u32)>| meta is Some && (meta->0).0 < min_size
}

/// A listing of clusters shows as many of those large enough as the limit allows, and
/// counts the smaller ones. It is full if there is one more large enough than that, and
/// then it ends at that one.
pub proof fn law_listing_shows_large(
    metas: Seq<Option<(u32, u32)>>,
    min_size: u32,
    limit: nat,
    k: nat,
)
    requires
        k <= metas.len(),
    ensures
        ({
            let large = metas.take(k as int).filter(at_least(min_size));
            let all = clusters_shown(metas, min_size, limit, k);
            &&& all.full <==> large.len() > limit
            &&& !all.full ==> all.shown == large.len() && all.skipped == metas.take(
                k as int,
            ).filter(below(min_size)).len()
            &&& all.full ==> all.shown == limit && exists|j: int|
                {
                    &&& 0 <= j < k
                    &&& #[trigger] metas.take(j).filter(at_least(min_size)).len() == limit
                    &&& at_least(min_size)(metas[j])
                    &&& all.skipped == metas.take(j).filter(below(min_size)).len()
                }
        }),
    decreases k,
{
    reveal(Seq::filter);
    if k > 0 {
        law_listing_shows_large(metas, min_size, limit, (k - 1) as nat);
        let now = metas.take(k as int);
        let front = metas.take(k - 1);
        assert(now.drop_last() =~= front);
        assert(now.last() == metas[k - 1]);
        let before = front.filter(at_least(min_size));
        if at_least(min_size)(metas[k - 1]) && before.len() == limit {
            assert(metas.take(k - 1).filter(at_least(min_size)).len() == limit);
        }
    }
}

} // verus!
