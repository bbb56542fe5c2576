//! Finite sums over index ranges and over weighted lists.
use vstd::prelude::*;

verus! {

/// `f(0) + f(1) + ... + f(n - 1)`.
pub open spec fn sum(n: nat, f: spec_fn(int) -> int) -> int
    decreases n,
{
    if n == 0 {
        0
    } else {
        sum((n - 1) as nat, f) + f(n - 1)
    }
}

/// The total weight that `list` gives to the target `v`.
pub open spec fn weight_to(list: Seq<(usize, u64)>, v: int) -> int
    decreases list.len(),
{
    if list.len() == 0 {
        0
    } else {
        weight_to(list.drop_last(), v) + (if list.last().0 == v {
            list.last().1 as int
        } else {
            0
        })
    }
}

/// The sum over the entries `(v, w)` of `list` of `w * f(v)`.
pub open spec fn list_sum(list: Seq<(usize, u64)>, f: spec_fn(int) -> int) -> int
    decreases list.len(),
{
    if list.len() == 0 {
        0
    } else {
        list_sum(list.drop_last(), f) + list.last().1 * f(list.last().0 as int)
    }
}

pub proof fn lemma_sum_ext(n: nat, f: spec_fn(int) -> int, g: spec_fn(int) -> int)
    requires
        forall|i: int| 0 <= i < n ==> #[trigger] f(i) == g(i),
    ensures
        sum(n, f) == sum(n, g),
    decreases n,
{
    if n > 0 {
        lemma_sum_ext((n - 1) as nat, f, g);
    }
}

pub proof fn lemma_sum_zero(n: nat, f: spec_fn(int) -> int)
    requires
        forall|i: int| 0 <= i < n ==> #[trigger] f(i) == 0,
    ensures
        sum(n, f) == 0,
    decreases n,
{
    if n > 0 {
        lemma_sum_zero((n - 1) as nat, f);
    }
}

pub proof fn lemma_sum_add(n: nat, f: spec_fn(int) -> int, g: spec_fn(int) -> int)
    ensures
        sum(n, |i: int| f(i) + g(i)) == sum(n, f) + sum(n, g),
    decreases n,
{
    if n > 0 {
        lemma_sum_add((n - 1) as nat, f, g);
    }
}

pub proof fn lemma_sum_scale(n: nat, f: spec_fn(int) -> int, c: int)
    ensures
        sum(n, |i: int| c * f(i)) == c * sum(n, f),
    decreases n,
{
    if n > 0 {
        lemma_sum_scale((n - 1) as nat, f, c);
        assert(c * (sum((n - 1) as nat, f) + f(n - 1)) == c * sum((n - 1) as nat, f) + c * f(n - 1))
            by (nonlinear_arith);
    }
}

/// A sum whose terms vanish everywhere but at `k`.
pub proof fn lemma_sum_single(n: nat, f: spec_fn(int) -> int, k: int)
    requires
        0 <= k < n,
        forall|i: int| 0 <= i < n && i != k ==> #[trigger] f(i) == 0,
    ensures
        sum(n, f) == f(k),
    decreases n,
{
    if k == n - 1 {
        lemma_sum_zero((n - 1) as nat, f);
    } else {
        lemma_sum_single((n - 1) as nat, f, k);
    }
}

/// Changing one term changes the sum by the same amount.
pub proof fn lemma_sum_update(n: nat, f: spec_fn(int) -> int, g: spec_fn(int) -> int, k: int)
    requires
        0 <= k < n,
        forall|i: int| 0 <= i < n && i != k ==> #[trigger] f(i) == g(i),
    ensures
        sum(n, g) == sum(n, f) - f(k) + g(k),
    decreases n,
{
    if k == n - 1 {
        lemma_sum_ext((n - 1) as nat, f, g);
    } else {
        lemma_sum_update((n - 1) as nat, f, g, k);
        assert(f(n - 1) == g(n - 1));
    }
}

pub proof fn lemma_sum_le(n: nat, f: spec_fn(int) -> int, g: spec_fn(int) -> int)
    requires
        forall|i: int| 0 <= i < n ==> #[trigger] f(i) <= g(i),
    ensures
        sum(n, f) <= sum(n, g),
    decreases n,
{
    if n > 0 {
        lemma_sum_le((n - 1) as nat, f, g);
    }
}

pub proof fn lemma_sum_nonneg(n: nat, f: spec_fn(int) -> int)
    requires
        forall|i: int| 0 <= i < n ==> #[trigger] f(i) >= 0,
    ensures
        sum(n, f) >= 0,
    decreases n,
{
    if n > 0 {
        lemma_sum_nonneg((n - 1) as nat, f);
    }
}

/// A term of a sum of non-negative terms is at most the sum.
pub proof fn lemma_sum_term_le(n: nat, f: spec_fn(int) -> int, k: int)
    requires
        0 <= k < n,
        forall|i: int| 0 <= i < n ==> #[trigger] f(i) >= 0,
    ensures
        f(k) <= sum(n, f),
    decreases n,
{
    if k == n - 1 {
        lemma_sum_nonneg((n - 1) as nat, f);
    } else {
        lemma_sum_term_le((n - 1) as nat, f, k);
    }
}

/// A positive sum has a positive term.
pub proof fn lemma_sum_positive_term(n: nat, f: spec_fn(int) -> int) -> (k: int)
    requires
        sum(n, f) > 0,
    ensures
        0 <= k < n,
        f(k) > 0,
    decreases n,
{
    if f(n - 1) > 0 {
        n - 1
    } else {
        lemma_sum_positive_term((n - 1) as nat, f)
    }
}

/// A sum of non-negative terms grows with its range.
pub proof fn lemma_sum_prefix_le(k: nat, n: nat, f: spec_fn(int) -> int)
    requires
        k <= n,
        forall|i: int| 0 <= i < n ==> #[trigger] f(i) >= 0,
    ensures
        sum(k, f) <= sum(n, f),
    decreases n,
{
    if k < n {
        lemma_sum_prefix_le(k, (n - 1) as nat, f);
    }
}

/// A double sum may be taken in either order.
pub proof fn lemma_sum_swap(n: nat, k: nat, f: spec_fn(int, int) -> int)
    ensures
        sum(n, |i: int| sum(k, |j: int| f(i, j))) == sum(k, |j: int| sum(n, |i: int| f(i, j))),
    decreases n,
{
    let inner = |j: int| sum(n, |i: int| f(i, j));
    if n == 0 {
        assert forall|j: int| 0 <= j < k implies #[trigger] inner(j) == 0 by {}
        lemma_sum_zero(k, inner);
    } else {
        let m = (n - 1) as nat;
        lemma_sum_swap(m, k, f);
        let shorter = |j: int| sum(m, |i: int| f(i, j));
        let last = |j: int| f(n - 1, j);
        lemma_sum_add(k, shorter, last);
        lemma_sum_ext(k, inner, |j: int| shorter(j) + last(j));
        let outer = |i: int| sum(k, |j: int| f(i, j));
        assert(outer(n - 1) == sum(k, last)) by {
            lemma_sum_ext(k, |j: int| f(n - 1, j), last);
        }
    }
}

/// Summing over groups: every index lies in exactly one of `k` groups.
pub proof fn lemma_sum_by_group(n: nat, k: nat, group: spec_fn(int) -> int, f: spec_fn(int) -> int)
    requires
        forall|i: int| 0 <= i < n ==> 0 <= #[trigger] group(i) < k,
    ensures
        sum(k, |c: int| sum(n, |i: int| if group(i) == c { f(i) } else { 0 })) == sum(n, f),
{
    let cell = |i: int, c: int| if group(i) == c { f(i) } else { 0 };
    lemma_sum_swap(n, k, cell);
    let rows = |i: int| sum(k, |c: int| cell(i, c));
    assert forall|i: int| 0 <= i < n implies #[trigger] rows(i) == f(i) by {
        lemma_sum_single(k, |c: int| cell(i, c), group(i));
    }
    lemma_sum_ext(n, rows, f);
    let columns = |c: int| sum(n, |i: int| cell(i, c));
    let stated = |c: int| sum(n, |i: int| if group(i) == c { f(i) } else { 0 });
    assert forall|c: int| 0 <= c < k implies #[trigger] columns(c) == stated(c) by {
        lemma_sum_ext(n, |i: int| cell(i, c), |i: int| if group(i) == c { f(i) } else { 0 });
    }
    lemma_sum_ext(k, columns, stated);
}

pub proof fn lemma_weight_to_nonneg(list: Seq<(usize, u64)>, v: int)
    ensures
        weight_to(list, v) >= 0,
    decreases list.len(),
{
    if list.len() > 0 {
        lemma_weight_to_nonneg(list.drop_last(), v);
    }
}

/// A weighted list may be summed target by target.
pub proof fn lemma_list_sum_by_target(list: Seq<(usize, u64)>, n: nat, f: spec_fn(int) -> int)
    requires
        forall|i: int| 0 <= i < list.len() ==> (#[trigger] list[i]).0 < n,
    ensures
        list_sum(list, f) == sum(n, |v: int| weight_to(list, v) * f(v)),
    decreases list.len(),
{
    let whole = |v: int| weight_to(list, v) * f(v);
    if list.len() == 0 {
        assert forall|v: int| 0 <= v < n implies #[trigger] whole(v) == 0 by {
            assert(0 * f(v) == 0);
        }
        lemma_sum_zero(n, whole);
    } else {
        let front = list.drop_last();
        let t = list.last().0 as int;
        let w = list.last().1 as int;
        assert(list[list.len() - 1] == list.last());
        assert forall|i: int| 0 <= i < front.len() implies (#[trigger] front[i]).0 < n by {
            assert(front[i] == list[i]);
        }
        lemma_list_sum_by_target(front, n, f);
        let part = |v: int| weight_to(front, v) * f(v);
        let extra = |v: int| if v == t { w * f(t) } else { 0 };
        lemma_sum_single(n, extra, t);
        lemma_sum_add(n, part, extra);
        assert forall|v: int| 0 <= v < n implies #[trigger] whole(v) == part(v) + extra(v) by {
            if v == t {
                assert((weight_to(front, v) + w) * f(v) == weight_to(front, v) * f(v) + w * f(v))
                    by (nonlinear_arith);
            }
        }
        lemma_sum_ext(n, whole, |v: int| part(v) + extra(v));
    }
}

pub proof fn lemma_list_sum_push(list: Seq<(usize, u64)>, e: (usize, u64), f: spec_fn(int) -> int)
    ensures
        list_sum(list.push(e), f) == list_sum(list, f) + e.1 * f(e.0 as int),
{
    assert(list.push(e).drop_last() =~= list);
}

/// Where `f` is 0 or 1 at its target, an entry adds nothing or its weight.
pub proof fn lemma_list_sum_push_indicator(
    list: Seq<(usize, u64)>,
    e: (usize, u64),
    f: spec_fn(int) -> int,
)
    requires
        f(e.0 as int) == 0 || f(e.0 as int) == 1,
    ensures
        list_sum(list.push(e), f) == list_sum(list, f) + (if f(e.0 as int) == 1 {
            e.1 as int
        } else {
            0
        }),
{
    lemma_list_sum_push(list, e, f);
    let w = e.1 as int;
    assert(w * 0 == 0 && w * 1 == w) by (nonlinear_arith);
}

pub proof fn lemma_weight_to_push(list: Seq<(usize, u64)>, e: (usize, u64), v: int)
    ensures
        weight_to(list.push(e), v) == weight_to(list, v) + (if e.0 == v {
            e.1 as int
        } else {
            0
        }),
{
    assert(list.push(e).drop_last() =~= list);
}

/// No entry outweighs the total that goes to its target, nor that the whole list.
pub proof fn lemma_weight_to_le_total(list: Seq<(usize, u64)>, v: int)
    ensures
        0 <= weight_to(list, v) <= list_sum(list, |t: int| 1int),
    decreases list.len(),
{
    if list.len() > 0 {
        lemma_weight_to_le_total(list.drop_last(), v);
    }
}

/// The target of a positive entry receives a positive weight.
pub proof fn lemma_weight_to_positive(list: Seq<(usize, u64)>, i: int)
    requires
        0 <= i < list.len(),
    ensures
        weight_to(list, list[i].0 as int) >= list[i].1,
    decreases list.len(),
{
    if i == list.len() - 1 {
        lemma_weight_to_nonneg(list.drop_last(), list[i].0 as int);
    } else {
        lemma_weight_to_positive(list.drop_last(), i);
    }
}

/// A target that no entry names receives nothing.
pub proof fn lemma_weight_to_absent(list: Seq<(usize, u64)>, v: int)
    requires
        forall|i: int| 0 <= i < list.len() ==> (#[trigger] list[i]).0 != v,
    ensures
        weight_to(list, v) == 0,
    decreases list.len(),
{
    if list.len() > 0 {
        let front = list.drop_last();
        assert forall|i: int| 0 <= i < front.len() implies (#[trigger] front[i]).0 != v by {
            assert(front[i] == list[i]);
        }
        assert(list[list.len() - 1].0 != v);
        lemma_weight_to_absent(front, v);
    }
}

} // verus!
