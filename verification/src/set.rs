//! A set that is both indexable and hashable. The index order is the
//! ascending comparison order of the items in the set.

use vstd::prelude::*;

use crate::order::{
    TotalOrder, sorted_strict, search, lemma_sorted_strict_implies_sorted,
    lemma_sorted_strict_insert, lemma_sorted_strict_remove, lemma_sorted_strict_remove_absent,
    lemma_sorted_strict_canonical,
};

verus! {

/// A set whose elements are kept in one flat sequence in strictly
/// ascending comparison order, so it can be read like an array.
///
/// Each value is held at most once; positional order equals comparison
/// order; and equality, hashing and ordering of whole sets are the
/// structural ones of the backing sequence, so they depend only on the
/// values held, never on the order they arrived in.
#[derive(Debug, Hash, PartialEq, Eq, Clone, PartialOrd, Ord)]
pub struct HISet<T> {
    items: Vec<T>,
}

impl<T> View for HISet<T> {
    type V = Seq<T>;

    closed spec fn view(&self) -> Seq<T> {
        self.items@
    }
}

impl<T: TotalOrder> HISet<T> {
    /// The representation invariant: the backing sequence is strictly
    /// ascending, hence sorted and free of repeats.
    pub open spec fn well_formed(&self) -> bool {
        sorted_strict(self@)
    }

    /// Creates an empty set.
    pub fn new() -> (r: HISet<T>)
        ensures
            r.well_formed(),
            r@ == Seq::<T>::empty(),
    {
        HISet { items: Vec::new() }
    }

    /// Inserts `item` at its sorted position.
    ///
    /// Returns `true` when an element comparing equal was already
    /// present, in which case the set is left unchanged; returns `false`
    /// when `item` was actually added.
    pub fn insert(&mut self, item: T) -> (r: bool)
        requires
            old(self).well_formed(),
        ensures
            final(self).well_formed(),
            r == old(self)@.contains(item),
            r ==> final(self)@ == old(self)@,
            !r ==> final(self)@.len() == old(self)@.len() + 1 && (exists|i: int|
                0 <= i <= old(self)@.len() && final(self)@ == old(self)@.insert(i, item)),
            forall|y: T| final(self)@.contains(y) == (old(self)@.contains(y) || y == item),
    {
        proof {
            lemma_sorted_strict_implies_sorted(self@);
        }
        let found_at: (bool, usize) = search(&self.items, &item);
        if found_at.0 {
            true
        } else {
            let ghost s0 = self@;
            let i = found_at.1;
            self.items.insert(i, item);
            proof {
                lemma_sorted_strict_insert(s0, i as int, item);
                assert(self@ == s0.insert(i as int, item));
                assert forall|y: T| self@.contains(y) == (s0.contains(y) || y == item) by {
                    if self@.contains(y) {
                        let m = choose|m: int| 0 <= m < self@.len() && self@[m] == y;
                        if m < i {
                            assert(s0[m] == y);
                            assert(s0.contains(y));
                        } else if m > i {
                            assert(s0[m - 1] == y);
                            assert(s0.contains(y));
                        }
                    }
                    if s0.contains(y) {
                        let m = choose|m: int| 0 <= m < s0.len() && s0[m] == y;
                        if m < i {
                            assert(self@[m] == y);
                        } else {
                            assert(self@[m + 1] == y);
                        }
                        assert(self@.contains(y));
                    }
                    if y == item {
                        assert(self@[i as int] == y);
                        assert(self@.contains(y));
                    }
                }
            }
            false
        }
    }

    /// Removes the element comparing equal to `item`, if any, and
    /// returns it.
    ///
    /// Returns `None` and leaves the set unchanged when no element
    /// compares equal to `item`; this is the expected way to observe
    /// absence, not a failure.
    pub fn remove(&mut self, item: &T) -> (r: Option<T>)
        requires
            old(self).well_formed(),
        ensures
            final(self).well_formed(),
            old(self)@.contains(*item) ==> {
                &&& r == Some(*item)
                &&& final(self)@.len() + 1 == old(self)@.len()
                &&& !final(self)@.contains(*item)
                &&& exists|i: int|
                    0 <= i < old(self)@.len() && old(self)@[i] == *item && final(self)@ == old(
                        self,
                    )@.remove(i)
            },
            !old(self)@.contains(*item) ==> r == None::<T> && final(self)@ == old(self)@,
            forall|y: T|
                y != *item ==> final(self)@.contains(y) == old(self)@.contains(y),
    {
        proof {
            lemma_sorted_strict_implies_sorted(self@);
        }
        let found_at: (bool, usize) = search(&self.items, item);
        if found_at.0 {
            let ghost s0 = self@;
            let i = found_at.1;
            let removed = self.items.remove(i);
            proof {
                lemma_sorted_strict_remove(s0, i as int);
                lemma_sorted_strict_remove_absent(s0, i as int);
                assert forall|y: T|
                    y != *item implies self@.contains(y) == s0.contains(y) by {
                    if self@.contains(y) {
                        let m = choose|m: int| 0 <= m < self@.len() && self@[m] == y;
                        let m0 = if m < i { m } else { m + 1 };
                        assert(s0[m0] == y);
                        assert(s0.contains(y));
                    }
                    if s0.contains(y) {
                        let m = choose|m: int| 0 <= m < s0.len() && s0[m] == y;
                        if m < i {
                            assert(self@[m] == y);
                        } else {
                            assert(self@[m - 1] == y);
                        }
                        assert(self@.contains(y));
                    }
                }
            }
            Some(removed)
        } else {
            None
        }
    }

    /// Reports whether some element compares equal to `item`.
    pub fn contains(&self, item: &T) -> (r: bool)
        requires
            self.well_formed(),
        ensures
            r == self@.contains(*item),
    {
        proof {
            lemma_sorted_strict_implies_sorted(self@);
        }
        let found_at: (bool, usize) = search(&self.items, item);
        found_at.0
    }

    /// The number of elements held.
    pub fn len(&self) -> (n: usize)
        ensures
            n == self@.len(),
    {
        self.items.len()
    }

    /// The elements in ascending comparison order.
    ///
    /// The returned vector is the set's backing storage, so walking it
    /// front to back is iteration in sorted order, and its entry at `i`
    /// is the set's element at position `i`.
    pub fn iter(&self) -> (r: &Vec<T>)
        ensures
            r@ == self@,
    {
        &self.items
    }

    /// Removes and returns the element at `index`.
    ///
    /// Positions count in comparison order. `index` must be in bounds:
    /// callers check it against `len` beforehand.
    pub fn remove_index(&mut self, index: usize) -> (r: T)
        requires
            old(self).well_formed(),
            index < old(self)@.len(),
        ensures
            final(self).well_formed(),
            r == old(self)@[index as int],
            final(self)@ == old(self)@.remove(index as int),
    {
        proof {
            lemma_sorted_strict_remove(self@, index as int);
        }
        self.items.remove(index)
    }

    /// The element at `index`, counted in comparison order.
    ///
    /// `index` must be in bounds: callers check it against `len`
    /// beforehand.
    pub fn get_index(&self, index: usize) -> (r: &T)
        requires
            index < self@.len(),
        ensures
            *r == self@[index as int],
    {
        &self.items[index]
    }

    /// Positional read through a mutable set; the set is not changed.
    ///
    /// `index` must be in bounds: callers check it against `len`
    /// beforehand.
    pub fn get_index_mut(&mut self, index: usize) -> (r: &T)
        requires
            index < old(self)@.len(),
        ensures
            final(self)@ == old(self)@,
            *r == old(self)@[index as int],
    {
        &self.items[index]
    }

    /// Removes every element.
    pub fn clear(&mut self)
        ensures
            final(self).well_formed(),
            final(self)@ == Seq::<T>::empty(),
    {
        self.items.clear();
    }

    /// Builds a set by inserting each value of `values` in turn.
    ///
    /// Values comparing equal collapse to one element, so the result
    /// holds exactly the distinct values of `values`, in ascending order.
    pub fn from_vec(values: Vec<T>) -> (r: HISet<T>)
        ensures
            r.well_formed(),
            forall|y: T| r@.contains(y) == values@.contains(y),
    {
        let ghost vs = values@;
        let mut values = values;
        let mut r = HISet::new();
        while values.len() > 0
            invariant
                r.well_formed(),
                forall|y: T| (r@.contains(y) || values@.contains(y)) == vs.contains(y),
            decreases values@.len(),
        {
            let ghost v0 = values@;
            let x = values.pop().unwrap();
            proof {
                assert(v0 == values@.push(x));
                assert forall|y: T| v0.contains(y) == (values@.contains(y) || y == x) by {
                    if v0.contains(y) {
                        let m = choose|m: int| 0 <= m < v0.len() && v0[m] == y;
                        if m < v0.len() - 1 {
                            assert(values@[m] == y);
                            assert(values@.contains(y));
                        }
                    }
                    if values@.contains(y) {
                        let m = choose|m: int| 0 <= m < values@.len() && values@[m] == y;
                        assert(v0[m] == y);
                        assert(v0.contains(y));
                    }
                    if y == x {
                        assert(v0[v0.len() - 1] == y);
                        assert(v0.contains(y));
                    }
                }
            }
            r.insert(x);
        }
        proof {
            assert(forall|y: T| !values@.contains(y));
        }
        r
    }

    /// Hands back the backing vector, consuming the set; its order is
    /// the set's iteration order.
    pub fn into_vec(self) -> (r: Vec<T>)
        ensures
            r@ == self@,
    {
        self.items
    }
}

/// Inserting a value a set already holds is a no-op: a well-formed set
/// whose elements are the old elements together with an already-held `x`
/// is the old set itself, element for element.
///
/// Chained with the contract of [`HISet::insert`], this is the
/// uniqueness law: the second of two equal insertions changes neither
/// the contents nor the length.
pub proof fn lemma_insert_present_is_no_op<T: TotalOrder>(s: HISet<T>, t: HISet<T>, x: T)
    requires
        s.well_formed(),
        t.well_formed(),
        s@.contains(x),
        forall|y: T| t@.contains(y) == (s@.contains(y) || y == x),
    ensures
        t@ == s@,
{
    assert forall|y: T| t@.contains(y) == s@.contains(y) by {
        assert(t@.contains(y) == (s@.contains(y) || y == x));
    }
    lemma_sorted_strict_canonical(t@, s@);
}

/// A well-formed set is a canonical form: any two well-formed sets
/// holding exactly the same values have equal backing sequences, however
/// and in whatever order those values were inserted.
pub proof fn lemma_set_canonical<T: TotalOrder>(a: HISet<T>, b: HISet<T>)
    requires
        a.well_formed(),
        b.well_formed(),
        forall|y: T| a@.contains(y) == b@.contains(y),
    ensures
        a@ == b@,
{
    lemma_sorted_strict_canonical(a@, b@);
}

} // verus!
