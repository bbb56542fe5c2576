//! Distinct values in order of first appearance.
use std::collections::BTreeMap;
use vstd::prelude::*;
use vstd::laws_cmp::obeys_cmp;

verus! {

/// The distinct values of `s`, each at the place of its first appearance.
pub open spec fn distinct<T>(s: Seq<T>) -> Seq<T>
    decreases s.len(),
{
    if s.len() == 0 {
        Seq::empty()
    } else {
        let front = distinct(s.drop_last());
        if front.contains(s.last()) {
            front
        } else {
            front.push(s.last())
        }
    }
}

/// The distinct values hold every value once, and nothing else.
pub proof fn lemma_distinct<T>(s: Seq<T>)
    ensures
        distinct(s).no_duplicates(),
        distinct(s).len() <= s.len(),
        forall|x: T| #[trigger] distinct(s).contains(x) <==> s.contains(x),
    decreases s.len(),
{
    if s.len() > 0 {
        let front = s.drop_last();
        lemma_distinct(front);
        let d = distinct(front);
        assert forall|x: T| #[trigger] distinct(s).contains(x) <==> s.contains(x) by {
            if s.contains(x) {
                let i = choose|i: int| 0 <= i < s.len() && s[i] == x;
                if i < s.len() - 1 {
                    assert(front[i] == x);
                    assert(d.contains(x));
                    let j = choose|j: int| 0 <= j < d.len() && d[j] == x;
                    assert(distinct(s)[j] == x);
                } else if !d.contains(x) {
                    assert(distinct(s)[d.len() as int] == x);
                }
            }
            if distinct(s).contains(x) {
                let j = choose|j: int| 0 <= j < distinct(s).len() && distinct(s)[j] == x;
                if j < d.len() {
                    assert(d[j] == x);
                    assert(d.contains(x));
                    assert(front.contains(x));
                    let i = choose|i: int| 0 <= i < front.len() && front[i] == x;
                    assert(s[i] == x);
                } else {
                    assert(s[s.len() - 1] == x);
                }
            }
        }
    }
}

/// A list without duplicates is its own list of distinct values.
pub proof fn lemma_distinct_of_distinct<T>(s: Seq<T>)
    requires
        s.no_duplicates(),
    ensures
        distinct(s) == s,
    decreases s.len(),
{
    if s.len() > 0 {
        let front = s.drop_last();
        lemma_distinct_of_distinct(front);
        assert(s =~= front.push(s.last()));
        if front.contains(s.last()) {
            let i = choose|i: int| 0 <= i < front.len() && front[i] == s.last();
            assert(s[i] == s[s.len() - 1]);
        }
    }
}

/// The position of a value in a list without duplicates is determined by the value.
pub proof fn lemma_index_of<T>(s: Seq<T>, i: int)
    requires
        s.no_duplicates(),
        0 <= i < s.len(),
    ensures
        s.index_of(s[i]) == i,
{
    let x = s[i];
    assert(s.contains(x));
    let j = s.index_of(x);
    assert(0 <= j < s.len() && s[j] == x);
}

/// The order of `T` is a total order that agrees with equality.
pub open spec fn orderly<T: Ord>() -> bool {
    obeys_cmp::<T>()
}

/// The machine integers used as keys are orderly.
pub proof fn lemma_orderly()
    ensures
        orderly::<usize>(),
        orderly::<u32>(),
        orderly::<u64>(),
        orderly::<i64>(),
        orderly::<u128>(),
{
    broadcast use vstd::laws_cmp::group_laws_cmp;

}

/// Numbers values in the order in which they first appear.
#[derive(Debug)]
pub struct Interner<T: Ord + Copy> {
    items: Vec<T>,
    index: BTreeMap<T, usize>,
}

impl<T: Ord + Copy> View for Interner<T> {
    type V = Seq<T>;

    closed spec fn view(&self) -> Seq<T> {
        self.items@
    }
}

impl<T: Ord + Copy> Interner<T> {
    /// The items are distinct and the reverse lookup agrees with them.
    pub closed spec fn wf(&self) -> bool {
        &&& orderly::<T>()
        &&& self.items@.no_duplicates()
        &&& forall|x: T| #[trigger]
            self.index@.contains_key(x) ==> self.index@[x] < self.items@.len()
                && self.items@[self.index@[x] as int] == x
        &&& forall|i: int|
            0 <= i < self.items@.len() ==> #[trigger] self.index@.contains_key(self.items@[i])
    }

    pub proof fn lemma_wf(&self)
        requires
            self.wf(),
        ensures
            self@.no_duplicates(),
    {
    }

    pub fn new() -> (interner: Self)
        requires
            orderly::<T>(),
        ensures
            interner.wf(),
            interner@ == Seq::<T>::empty(),
    {
        Interner { items: Vec::new(), index: BTreeMap::new() }
    }

    /// The number of `x`, which it receives now if it had none.
    pub fn intern(&mut self, x: T) -> (i: usize)
        requires
            old(self).wf(),
        ensures
            final(self).wf(),
            final(self)@ == (if old(self)@.contains(x) {
                old(self)@
            } else {
                old(self)@.push(x)
            }),
            i < final(self)@.len(),
            final(self)@[i as int] == x,
    {
        broadcast use vstd::std_specs::btree::group_btree_axioms;

        if let Some(i) = self.index.get(&x) {
            let k: usize = *i;
            assert(self.items@[k as int] == x);
            return k;
        }
        proof {
            if self.items@.contains(x) {
                let j = choose|j: int| 0 <= j < self.items@.len() && self.items@[j] == x;
                assert(self.index@.contains_key(self.items@[j]));
            }
        }
        let k: usize = self.items.len();
        self.items.push(x);
        self.index.insert(x, k);
        proof {
            assert forall|i: int| 0 <= i < self.items@.len() implies #[trigger]
                self.index@.contains_key(self.items@[i]) by {
                if i < k {
                    assert(old(self).index@.contains_key(old(self).items@[i]));
                }
            }
        }
        k
    }

    /// The number of `x`, if it has one.
    pub fn lookup(&self, x: T) -> (i: Option<usize>)
        requires
            self.wf(),
        ensures
            i is Some <==> self@.contains(x),
            i is Some ==> i->0 < self@.len() && self@[i->0 as int] == x,
    {
        broadcast use vstd::std_specs::btree::group_btree_axioms;

        match self.index.get(&x) {
            Some(i) => {
                let k: usize = *i;
                assert(self.items@[k as int] == x);
                Some(k)
            },
            None => {
                proof {
                    if self.items@.contains(x) {
                        let j = choose|j: int| 0 <= j < self.items@.len() && self.items@[j] == x;
                        assert(self.index@.contains_key(self.items@[j]));
                    }
                }
                None
            },
        }
    }

    /// The number of values.
    pub fn len(&self) -> (n: usize)
        ensures
            n == self@.len(),
    {
        self.items.len()
    }
}

} // verus!
