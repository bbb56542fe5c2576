//! Sorting of keyed positions.
//!
//! An item is a key and a position. Items are ordered by key, and equal keys by
//! position, so sorting the positions of a list by their keys is stable.
use vstd::prelude::*;

verus! {

/// `a` comes before `b` or equals it.
pub open spec fn precedes(a: (u128, usize), b: (u128, usize)) -> bool {
    a.0 < b.0 || (a.0 == b.0 && a.1 <= b.1)
}

/// Every item comes before those behind it.
pub open spec fn in_order(s: Seq<(u128, usize)>) -> bool {
    forall|i: int, j: int| 0 <= i <= j < s.len() ==> precedes(#[trigger] s[i], #[trigger] s[j])
}

/// Merges two sorted lists.
fn merge(a: &Vec<(u128, usize)>, b: &Vec<(u128, usize)>) -> (c: Vec<(u128, usize)>)
    requires
        in_order(a@),
        in_order(b@),
    ensures
        in_order(c@),
        c@.to_multiset() == a@.to_multiset().add(b@.to_multiset()),
{
    broadcast use vstd::seq_lib::group_to_multiset_ensures;

    let mut c: Vec<(u128, usize)> = Vec::new();
    let mut i: usize = 0;
    let mut j: usize = 0;
    assert(a@.take(0) =~= Seq::empty());
    assert(b@.take(0) =~= Seq::empty());
    assert(c@.to_multiset() =~= a@.take(0).to_multiset().add(b@.take(0).to_multiset()));
    while i < a.len() || j < b.len()
        invariant
            i <= a.len(),
            j <= b.len(),
            in_order(a@),
            in_order(b@),
            in_order(c@),
            forall|x: int, y: int|
                0 <= x < c@.len() && i <= y < a@.len() ==> precedes(
                    #[trigger] c@[x],
                    #[trigger] a@[y],
                ),
            forall|x: int, y: int|
                0 <= x < c@.len() && j <= y < b@.len() ==> precedes(
                    #[trigger] c@[x],
                    #[trigger] b@[y],
                ),
            c@.to_multiset() == a@.take(i as int).to_multiset().add(
                b@.take(j as int).to_multiset(),
            ),
        decreases (a.len() - i) + (b.len() - j),
    {
        let left = if i >= a.len() {
            false
        } else if j >= b.len() {
            true
        } else {
            a[i].0 < b[j].0 || (a[i].0 == b[j].0 && a[i].1 <= b[j].1)
        };
        if left {
            proof {
                c@.to_multiset_ensures();
                a@.take(i as int).to_multiset_ensures();
                assert(a@.take(i + 1) =~= a@.take(i as int).push(a@[i as int]));
                assert(a@.take(i as int).push(a@[i as int]).to_multiset().add(
                    b@.take(j as int).to_multiset(),
                ) =~= a@.take(i as int).to_multiset().add(b@.take(j as int).to_multiset()).insert(
                    a@[i as int],
                ));
            }
            c.push(a[i]);
            i += 1;
        } else {
            proof {
                c@.to_multiset_ensures();
                b@.take(j as int).to_multiset_ensures();
                assert(b@.take(j + 1) =~= b@.take(j as int).push(b@[j as int]));
                assert(a@.take(i as int).to_multiset().add(
                    b@.take(j as int).push(b@[j as int]).to_multiset(),
                ) =~= a@.take(i as int).to_multiset().add(b@.take(j as int).to_multiset()).insert(
                    b@[j as int],
                ));
            }
            c.push(b[j]);
            j += 1;
        }
    }
    assert(a@.take(i as int) =~= a@);
    assert(b@.take(j as int) =~= b@);
    c
}

/// Sorts a list of items.
pub fn sort_items(items: Vec<(u128, usize)>) -> (sorted: Vec<(u128, usize)>)
    ensures
        in_order(sorted@),
        sorted@.to_multiset() == items@.to_multiset(),
    decreases items@.len(),
{
    broadcast use vstd::seq_lib::group_to_multiset_ensures;

    let n: usize = items.len();
    if n <= 1 {
        return items;
    }
    let mid: usize = n / 2;
    let mut left: Vec<(u128, usize)> = Vec::new();
    let mut right: Vec<(u128, usize)> = Vec::new();
    let mut i: usize = 0;
    while i < n
        invariant
            i <= n,
            n == items@.len(),
            mid == n / 2,
            n > 1,
            i <= mid ==> left@ == items@.take(i as int) && right@.len() == 0,
            i > mid ==> left@ == items@.take(mid as int) && right@ == items@.subrange(
                mid as int,
                i as int,
            ),
        decreases n - i,
    {
        if i < mid {
            left.push(items[i]);
            assert(items@.take(i + 1) =~= items@.take(i as int).push(items@[i as int]));
        } else {
            right.push(items[i]);
            assert(items@.subrange(mid as int, i + 1) =~= items@.subrange(
                mid as int,
                i as int,
            ).push(items@[i as int]));
        }
        i += 1;
    }
    proof {
        assert(items@ =~= left@ + right@);
        vstd::seq_lib::lemma_multiset_commutative(left@, right@);
    }
    let a = sort_items(left);
    let b = sort_items(right);
    merge(&a, &b)
}

/// Sorting keeps the items, and keeps them distinct.
pub proof fn lemma_sorted_items(items: Seq<(u128, usize)>, sorted: Seq<(u128, usize)>)
    requires
        sorted.to_multiset() == items.to_multiset(),
    ensures
        sorted.len() == items.len(),
        forall|x: (u128, usize)| sorted.contains(x) <==> #[trigger] items.contains(x),
        items.no_duplicates() ==> sorted.no_duplicates(),
{
    broadcast use vstd::seq_lib::group_to_multiset_ensures;

    items.to_multiset_ensures();
    sorted.to_multiset_ensures();
    assert forall|x: (u128, usize)| sorted.contains(x) <==> #[trigger] items.contains(x) by {
        assert(items.contains(x) <==> items.to_multiset().count(x) > 0);
        assert(sorted.contains(x) <==> sorted.to_multiset().count(x) > 0);
    }
    if items.no_duplicates() {
        items.lemma_multiset_has_no_duplicates();
        sorted.lemma_multiset_has_no_duplicates_conv();
    }
}

/// The keys increase strictly.
pub open spec fn increasing_keys(s: Seq<u128>) -> bool {
    forall|i: int, j: int| 0 <= i < j < s.len() ==> s[i] < s[j]
}

/// Sorts keys and drops repetitions.
pub fn distinct_keys(values: &Vec<u128>) -> (sorted: Vec<u128>)
    ensures
        increasing_keys(sorted@),
        forall|x: u128| sorted@.contains(x) <==> #[trigger] values@.contains(x),
{
    let mut items: Vec<(u128, usize)> = Vec::new();
    let mut i: usize = 0;
    while i < values.len()
        invariant
            i <= values.len(),
            items@ == Seq::new(i as nat, |j: int| (values@[j], 0usize)),
        decreases values.len() - i,
    {
        items.push((values[i], 0));
        assert(items@ =~= Seq::new((i + 1) as nat, |j: int| (values@[j], 0usize)));
        i += 1;
    }
    let ghost given = items@;
    let items = sort_items(items);
    proof {
        lemma_sorted_items(given, items@);
    }
    let mut sorted: Vec<u128> = Vec::new();
    let mut k: usize = 0;
    while k < items.len()
        invariant
            k <= items.len(),
            in_order(items@),
            increasing_keys(sorted@),
            sorted@.len() > 0 <==> k > 0,
            k > 0 ==> sorted@.last() == items@[k - 1].0,
            forall|j: int| 0 <= j < k ==> sorted@.contains((#[trigger] items@[j]).0),
            forall|j: int|
                0 <= j < sorted@.len() ==> exists|h: int|
                    0 <= h < k && (#[trigger] items@[h]).0 == #[trigger] sorted@[j],
        decreases items.len() - k,
    {
        let x: u128 = items[k].0;
        let ghost before = sorted@;
        assert(k > 0 ==> precedes(items@[k - 1], items@[k as int]));
        if sorted.len() == 0 || sorted[sorted.len() - 1] != x {
            sorted.push(x);
        }
        proof {
            assert(sorted@.last() == x);
            assert forall|j: int| 0 <= j < k + 1 implies sorted@.contains(
                (#[trigger] items@[j]).0,
            ) by {
                if j < k {
                    let y = items@[j].0;
                    assert(before.contains(y));
                    let h = choose|h: int| 0 <= h < before.len() && before[h] == y;
                    assert(sorted@[h] == y);
                } else {
                    assert(sorted@[sorted@.len() - 1] == x);
                }
            }
            assert forall|j: int| 0 <= j < sorted@.len() implies exists|h: int|
                0 <= h < k + 1 && (#[trigger] items@[h]).0 == #[trigger] sorted@[j] by {
                if j < before.len() {
                    assert(before[j] == sorted@[j]);
                    let h = choose|h: int| 0 <= h < k && (#[trigger] items@[h]).0 == before[j];
                    assert(items@[h].0 == sorted@[j]);
                } else {
                    assert(items@[k as int].0 == sorted@[j]);
                }
            }
        }
        k += 1;
    }
    proof {
        assert forall|x: u128| sorted@.contains(x) <==> #[trigger] values@.contains(x) by {
            if values@.contains(x) {
                let j = choose|j: int| 0 <= j < values@.len() && values@[j] == x;
                assert(given[j] == (x, 0usize));
                assert(given.contains((x, 0usize)));
                assert(items@.contains((x, 0usize)));
                let h = choose|h: int| 0 <= h < items@.len() && items@[h] == (x, 0usize);
                assert(sorted@.contains(items@[h].0));
            }
            if sorted@.contains(x) {
                let j = choose|j: int| 0 <= j < sorted@.len() && sorted@[j] == x;
                let h = choose|h: int|
                    0 <= h < items@.len() && (#[trigger] items@[h]).0 == sorted@[j];
                assert(items@.contains(items@[h]));
                assert(given.contains(items@[h]));
                let g = choose|g: int| 0 <= g < given.len() && given[g] == items@[h];
                assert(values@[g] == x);
            }
        }
    }
    sorted
}

/// The place of a key in a list of increasing keys.
pub fn key_place(keys: &Vec<u128>, key: u128) -> (place: Option<usize>)
    requires
        increasing_keys(keys@),
    ensures
        match place {
            Some(i) => i < keys@.len() && keys@[i as int] == key,
            None => !keys@.contains(key),
        },
{
    let mut lo: usize = 0;
    let mut hi: usize = keys.len();
    while lo < hi
        invariant
            lo <= hi <= keys@.len(),
            increasing_keys(keys@),
            forall|i: int| 0 <= i < lo ==> keys@[i] < key,
            forall|i: int| hi <= i < keys@.len() ==> keys@[i] > key,
        decreases hi - lo,
    {
        let mid: usize = lo + (hi - lo) / 2;
        let x: u128 = keys[mid];
        if x == key {
            return Some(mid);
        } else if x < key {
            lo = mid + 1;
        } else {
            hi = mid;
        }
    }
    None
}

} // verus!
