//! A bag that is both indexable and hashable. The index order is the
//! ascending comparison order of the items in the bag.

use vstd::prelude::*;

use crate::order::{
    TotalOrder, sorted, search, lemma_sorted_insert, lemma_sorted_remove, lemma_sorted_canonical,
};

verus! {

/// A bag (multiset) whose elements are kept in one flat sequence in
/// ascending comparison order, so it can be read like an array.
///
/// Values may repeat; repeats sit adjacent to one another, and because
/// values that compare equal are equal outright, their order among
/// themselves is unobservable. Equality, hashing and ordering of whole
/// bags are the structural ones of the backing sequence, so they depend
/// only on the values held and their multiplicities, never on the order
/// they arrived in.
#[derive(Debug, Hash, PartialEq, Eq, Clone, PartialOrd, Ord)]
pub struct HIBag<T> {
    items: Vec<T>,
}

impl<T> View for HIBag<T> {
    type V = Seq<T>;

    closed spec fn view(&self) -> Seq<T> {
        self.items@
    }
}

impl<T: TotalOrder> HIBag<T> {
    /// The representation invariant: the backing sequence is sorted in
    /// ascending comparison order.
    pub open spec fn well_formed(&self) -> bool {
        sorted(self@)
    }

    /// Creates an empty bag.
    pub fn new() -> (r: HIBag<T>)
        ensures
            r.well_formed(),
            r@ == Seq::<T>::empty(),
    {
        HIBag { items: Vec::new() }
    }

    /// Inserts `item` at a sorted position; repeats are kept.
    ///
    /// The bag always grows by one element, and the multiplicity of
    /// `item` grows by one.
    pub fn insert(&mut self, item: T)
        requires
            old(self).well_formed(),
        ensures
            final(self).well_formed(),
            final(self)@.len() == old(self)@.len() + 1,
            final(self)@.to_multiset() == old(self)@.to_multiset().insert(item),
            final(self)@.to_multiset().count(item) == old(self)@.to_multiset().count(item) + 1,
            forall|y: T|
                y != item ==> final(self)@.to_multiset().count(y) == old(
                    self,
                )@.to_multiset().count(y),
            exists|i: int|
                0 <= i <= old(self)@.len() && final(self)@ == old(self)@.insert(i, item),
            forall|y: T| final(self)@.contains(y) == (old(self)@.contains(y) || y == item),
    {
        broadcast use vstd::seq_lib::group_to_multiset_ensures;
        broadcast use vstd::multiset::group_multiset_axioms;

        let ghost s0 = self@;
        let found_at: (bool, usize) = search(&self.items, &item);
        let i = found_at.1;
        proof {
            if found_at.0 {
                assert(s0[i as int] == item);
                assert forall|k: int| 0 <= k < i implies (#[trigger] s0[k]).le(item) by {
                    assert(s0[k].le(s0[i as int]));
                }
                assert forall|k: int| i <= k < s0.len() implies item.le(#[trigger] s0[k]) by {
                    if k == i {
                        T::lemma_total(item, item);
                    } else {
                        assert(s0[i as int].le(s0[k]));
                    }
                }
            }
            lemma_sorted_insert(s0, i as int, item);
        }
        self.items.insert(i, item);
        proof {
            assert(self@ == s0.insert(i as int, item));
            assert(s0.insert(i as int, item).to_multiset() == s0.to_multiset().insert(item));
            assert forall|y: T| self@.contains(y) == (s0.contains(y) || y == item) by {
                if self@.contains(y) {
                    let m = choose|m: int| 0 <= m < self@.len() && self@[m] == y;
                    if m < i {
                        assert(s0[m] == y);
                        assert(s0.contains(y));
                    } else if m > i {
                        assert(s0[m - 1] == y);
                        assert(s0.contains(y));
                    }
                }
                if s0.contains(y) {
                    let m = choose|m: int| 0 <= m < s0.len() && s0[m] == y;
                    if m < i {
                        assert(self@[m] == y);
                    } else {
                        assert(self@[m + 1] == y);
                    }
                    assert(self@.contains(y));
                }
                if y == item {
                    assert(self@[i as int] == y);
                    assert(self@.contains(y));
                }
            }
        }
    }

    /// Removes one element comparing equal to `item`, if any, and
    /// returns it; other occurrences stay.
    ///
    /// Returns `None` and leaves the bag unchanged when no element
    /// compares equal to `item`; this is the expected way to observe
    /// absence, not a failure.
    pub fn remove(&mut self, item: &T) -> (r: Option<T>)
        requires
            old(self).well_formed(),
        ensures
            final(self).well_formed(),
            old(self)@.contains(*item) ==> {
                &&& r == Some(*item)
                &&& final(self)@.len() + 1 == old(self)@.len()
                &&& final(self)@.to_multiset() == old(self)@.to_multiset().remove(*item)
                &&& final(self)@.to_multiset().count(*item) + 1 == old(
                    self,
                )@.to_multiset().count(*item)
                &&& exists|i: int|
                    0 <= i < old(self)@.len() && old(self)@[i] == *item && final(self)@ == old(
                        self,
                    )@.remove(i)
            },
            !old(self)@.contains(*item) ==> r == None::<T> && final(self)@ == old(self)@,
            forall|y: T|
                y != *item ==> final(self)@.to_multiset().count(y) == old(
                    self,
                )@.to_multiset().count(y),
    {
        broadcast use vstd::seq_lib::group_to_multiset_ensures;
        broadcast use vstd::multiset::group_multiset_axioms;

        let found_at: (bool, usize) = search(&self.items, item);
        if found_at.0 {
            let ghost s0 = self@;
            let i = found_at.1;
            let removed = self.items.remove(i);
            proof {
                lemma_sorted_remove(s0, i as int);
                assert(self@ == s0.remove(i as int));
                assert(s0.remove(i as int).to_multiset() == s0.to_multiset().remove(s0[i as int]));
                assert(s0.to_multiset().count(*item) > 0);
            }
            Some(removed)
        } else {
            None
        }
    }

    /// Reports whether some element compares equal to `item`.
    pub fn contains(&self, item: &T) -> (r: bool)
        requires
            self.well_formed(),
        ensures
            r == self@.contains(*item),
    {
        let found_at: (bool, usize) = search(&self.items, item);
        found_at.0
    }

    /// The number of elements held, multiplicities counted.
    pub fn len(&self) -> (n: usize)
        ensures
            n == self@.len(),
    {
        self.items.len()
    }

    /// The elements in ascending comparison order.
    ///
    /// The returned vector is the bag's backing storage, so walking it
    /// front to back is iteration in sorted order, and its entry at `i`
    /// is the bag's element at position `i`.
    pub fn iter(&self) -> (r: &Vec<T>)
        ensures
            r@ == self@,
    {
        &self.items
    }

    /// Removes and returns the element at `index`.
    ///
    /// Positions count in comparison order. `index` must be in bounds:
    /// callers check it against `len` beforehand.
    pub fn remove_index(&mut self, index: usize) -> (r: T)
        requires
            old(self).well_formed(),
            index < old(self)@.len(),
        ensures
            final(self).well_formed(),
            r == old(self)@[index as int],
            final(self)@ == old(self)@.remove(index as int),
    {
        proof {
            lemma_sorted_remove(self@, index as int);
        }
        self.items.remove(index)
    }

    /// The element at `index`, counted in comparison order.
    ///
    /// `index` must be in bounds: callers check it against `len`
    /// beforehand.
    pub fn get_index(&self, index: usize) -> (r: &T)
        requires
            index < self@.len(),
        ensures
            *r == self@[index as int],
    {
        &self.items[index]
    }

    /// Removes every element.
    pub fn clear(&mut self)
        ensures
            final(self).well_formed(),
            final(self)@ == Seq::<T>::empty(),
    {
        self.items.clear();
    }

    /// Builds a bag by inserting each value of `values` in turn.
    ///
    /// Every value is kept, repeats included: the result holds exactly
    /// the values of `values` with their multiplicities, in ascending
    /// order.
    pub fn from_vec(values: Vec<T>) -> (r: HIBag<T>)
        ensures
            r.well_formed(),
            r@.to_multiset() == values@.to_multiset(),
    {
        broadcast use vstd::seq_lib::group_to_multiset_ensures;
        broadcast use vstd::multiset::group_multiset_axioms;

        let ghost vs = values@;
        let mut values = values;
        let mut r = HIBag::new();
        proof {
            assert forall|y: T| r@.to_multiset().count(y) == 0 by {
                assert(!r@.contains(y));
            }
            assert(vs.to_multiset() =~= values@.to_multiset().add(r@.to_multiset()));
        }
        while values.len() > 0
            invariant
                r.well_formed(),
                vs.to_multiset() == values@.to_multiset().add(r@.to_multiset()),
            decreases values@.len(),
        {
            let ghost v0 = values@;
            let ghost r0 = r@;
            let x = values.pop().unwrap();
            r.insert(x);
            proof {
                assert(v0 == values@.push(x));
                vstd::seq_lib::to_multiset_build(values@, x);
                assert(v0.to_multiset() == values@.to_multiset().insert(x));
                assert(values@.to_multiset().insert(x).add(r0.to_multiset())
                    =~= values@.to_multiset().add(r0.to_multiset().insert(x)));
            }
        }
        proof {
            assert forall|y: T| values@.to_multiset().count(y) == 0 by {
                assert(!values@.contains(y));
            }
            assert(values@.to_multiset().add(r@.to_multiset()) =~= r@.to_multiset());
        }
        r
    }

    /// Hands back the backing vector, consuming the bag; its order is
    /// the bag's iteration order.
    pub fn into_vec(self) -> (r: Vec<T>)
        ensures
            r@ == self@,
    {
        self.items
    }
}

/// A well-formed bag is a canonical form: any two well-formed bags
/// holding the same values with the same multiplicities have equal
/// backing sequences, however and in whatever order those values were
/// inserted.
pub proof fn lemma_bag_canonical<T: TotalOrder>(a: HIBag<T>, b: HIBag<T>)
    requires
        a.well_formed(),
        b.well_formed(),
        a@.to_multiset() == b@.to_multiset(),
    ensures
        a@ == b@,
{
    lemma_sorted_canonical(a@, b@);
}

} // verus!
