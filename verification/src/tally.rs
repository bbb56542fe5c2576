//! Adding up weights by key.
use crate::distinct::{lemma_orderly, orderly};
use crate::sums::{lemma_weight_to_absent, lemma_weight_to_push, weight_to};
use crate::weighted::{lemma_list_total_prefix, lemma_list_total_push, list_total};
use std::collections::BTreeMap;
use vstd::prelude::*;
use vstd::std_specs::cmp::OrdSpec;
use vstd::std_specs::iter::IteratorSpec;

verus! {

/// The first components increase strictly.
pub open spec fn ascending(list: Seq<(usize, u64)>) -> bool {
    forall|i: int, j: int| 0 <= i < j < list.len() ==> (#[trigger] list[i]).0 < (#[trigger] list[j]).0
}

/// Some entry of `list` has the key `v`.
pub open spec fn names(list: Seq<(usize, u64)>, v: usize) -> bool {
    exists|i: int| 0 <= i < list.len() && (#[trigger] list[i]).0 == v
}

/// The entries of a map in the order of their keys.
fn sorted_entries(m: &BTreeMap<usize, u64>) -> (entries: Vec<(usize, u64)>)
    ensures
        ascending(entries@),
        forall|i: int|
            0 <= i < entries@.len() ==> m@.contains_key((#[trigger] entries@[i]).0)
                && m@[entries@[i].0] == entries@[i].1,
        forall|v: usize| m@.contains_key(v) <==> names(entries@, v),
{
    broadcast use vstd::std_specs::btree::group_btree_axioms;

    proof {
        lemma_orderly();
    }
    let entry_iter = m.iter();
    let ghost given = entry_iter.remaining();
    let ghost keys = given.map_values(|kv: (&usize, &u64)| *kv.0);
    proof {
        assert(vstd::std_specs::btree::increasing_seq(keys));
        assert forall|i: int, j: int| 0 <= i < j < given.len() implies *given[i].0
            < *given[j].0 by {
            assert(keys[i].cmp_spec(&keys[j]) is Less);
        }
        assert forall|v: usize| m@.contains_key(v) implies exists|i: int|
            0 <= i < given.len() && *(#[trigger] given[i]).0 == v by {
            assert(given.contains((&v, &m@[v])));
        }
    }
    let mut entries: Vec<(usize, u64)> = Vec::new();
    for kv in it: entry_iter
        invariant
            it.seq() == given,
            entries@.len() == it.index(),
            forall|i: int|
                0 <= i < entries@.len() ==> (#[trigger] entries@[i]).0 == *given[i].0
                    && entries@[i].1 == *given[i].1,
    {
        entries.push((*kv.0, *kv.1));
    }
    proof {
        assert forall|v: usize| m@.contains_key(v) <==> names(entries@, v) by {
            if m@.contains_key(v) {
                let i = choose|i: int| 0 <= i < given.len() && *(#[trigger] given[i]).0 == v;
                assert(entries@[i].0 == v);
            }
            if names(entries@, v) {
                let i = choose|i: int| 0 <= i < entries@.len() && (#[trigger] entries@[i]).0 == v;
                assert(m@.contains_key(*given[i].0));
            }
        }
    }
    entries
}

/// Adds up the weights of `list` by key: one entry for each key that occurs, in
/// the order of the keys.
pub fn tally(list: &Vec<(usize, u64)>) -> (entries: Vec<(usize, u64)>)
    requires
        list_total(list@) <= u64::MAX,
    ensures
        ascending(entries@),
        forall|i: int|
            0 <= i < entries@.len() ==> (#[trigger] entries@[i]).1 == weight_to(
                list@,
                entries@[i].0 as int,
            ),
        forall|v: usize| names(list@, v) <==> names(entries@, v),
{
    broadcast use vstd::std_specs::btree::group_btree_axioms;

    proof {
        lemma_orderly();
    }
    let mut sums: BTreeMap<usize, u64> = BTreeMap::new();
    let mut i: usize = 0;
    while i < list.len()
        invariant
            i <= list.len(),
            list_total(list@) <= u64::MAX,
            orderly::<usize>(),
            forall|v: usize| #[trigger] sums@.contains_key(v) <==> names(list@.take(i as int), v),
            forall|v: usize| #[trigger]
                sums@.contains_key(v) ==> sums@[v] == weight_to(list@.take(i as int), v as int),
        decreases list.len() - i,
    {
        let (v, w) = list[i];
        let ghost before = list@.take(i as int);
        let ghost after = list@.take(i + 1);
        proof {
            assert(after =~= before.push(list@[i as int]));
            lemma_list_total_prefix(list@, i + 1);
            lemma_list_total_push(before, list@[i as int]);
            lemma_list_total_prefix(before, before.len() as int);
            crate::sums::lemma_weight_to_le_total(before, v as int);
            if !sums@.contains_key(v) {
                lemma_weight_to_absent(before, v as int);
            }
        }
        let sum: u64 = match sums.get(&v) {
            Some(s) => *s,
            None => 0,
        };
        let ghost earlier = sums@;
        sums.insert(v, sum + w);
        proof {
            assert forall|x: usize| #[trigger] sums@.contains_key(x) <==> names(after, x) by {
                if names(after, x) {
                    let j = choose|j: int| 0 <= j < after.len() && (#[trigger] after[j]).0 == x;
                    if j < i {
                        assert(before[j].0 == x);
                        assert(earlier.contains_key(x));
                    }
                }
                if sums@.contains_key(x) {
                    if x == v {
                        assert(after[i as int].0 == x);
                    } else {
                        assert(earlier.contains_key(x));
                        let j = choose|j: int| 0 <= j < before.len() && (#[trigger] before[j]).0 == x;
                        assert(after[j].0 == x);
                    }
                }
            }
            assert forall|x: usize| #[trigger] sums@.contains_key(x) implies sums@[x] == weight_to(
                after,
                x as int,
            ) by {
                lemma_weight_to_push(before, list@[i as int], x as int);
                if x != v {
                    assert(earlier.contains_key(x));
                }
            }
        }
        i += 1;
    }
    assert(list@.take(i as int) =~= list@);
    let entries = sorted_entries(&sums);
    proof {
        assert forall|v: usize| names(list@, v) <==> names(entries@, v) by {
            assert(sums@.contains_key(v) <==> names(list@, v));
        }
    }
    entries
}

} // verus!
