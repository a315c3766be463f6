//! The comparison order the containers sort by, and the shared
//! binary-search machinery over sequences held in that order.

use vstd::prelude::*;

verus! {

/// A total order on a type, with an executable comparison that agrees
/// with the specification-level relation `le`.
///
/// The relation must be total, transitive and antisymmetric. Antisymmetry
/// ties comparison equality to logical equality: two values that compare
/// equal in both directions are the same value, so a container never has
/// to distinguish "equal" elements.
pub trait TotalOrder: Sized {
    /// The order relation: `self` comes no later than `other`.
    spec fn le(self, other: Self) -> bool;

    /// Any two values are comparable.
    proof fn lemma_total(x: Self, y: Self)
        ensures
            x.le(y) || y.le(x),
    ;

    /// The order relation is transitive.
    proof fn lemma_transitive(x: Self, y: Self, z: Self)
        requires
            x.le(y),
            y.le(z),
        ensures
            x.le(z),
    ;

    /// Values that compare no later than each other are equal.
    proof fn lemma_antisymmetric(x: Self, y: Self)
        requires
            x.le(y),
            y.le(x),
        ensures
            x == y,
    ;

    /// Executable form of `le`.
    fn le_exec(&self, other: &Self) -> (r: bool)
        ensures
            r == self.le(*other),
    ;
}

impl TotalOrder for u8 {
    open spec fn le(self, other: Self) -> bool {
        self <= other
    }

    proof fn lemma_total(x: Self, y: Self) {
    }

    proof fn lemma_transitive(x: Self, y: Self, z: Self) {
    }

    proof fn lemma_antisymmetric(x: Self, y: Self) {
    }

    fn le_exec(&self, other: &Self) -> (r: bool) {
        *self <= *other
    }
}

impl TotalOrder for u32 {
    open spec fn le(self, other: Self) -> bool {
        self <= other
    }

    proof fn lemma_total(x: Self, y: Self) {
    }

    proof fn lemma_transitive(x: Self, y: Self, z: Self) {
    }

    proof fn lemma_antisymmetric(x: Self, y: Self) {
    }

    fn le_exec(&self, other: &Self) -> (r: bool) {
        *self <= *other
    }
}

impl TotalOrder for u64 {
    open spec fn le(self, other: Self) -> bool {
        self <= other
    }

    proof fn lemma_total(x: Self, y: Self) {
    }

    proof fn lemma_transitive(x: Self, y: Self, z: Self) {
    }

    proof fn lemma_antisymmetric(x: Self, y: Self) {
    }

    fn le_exec(&self, other: &Self) -> (r: bool) {
        *self <= *other
    }
}

impl TotalOrder for usize {
    open spec fn le(self, other: Self) -> bool {
        self <= other
    }

    proof fn lemma_total(x: Self, y: Self) {
    }

    proof fn lemma_transitive(x: Self, y: Self, z: Self) {
    }

    proof fn lemma_antisymmetric(x: Self, y: Self) {
    }

    fn le_exec(&self, other: &Self) -> (r: bool) {
        *self <= *other
    }
}

impl TotalOrder for i32 {
    open spec fn le(self, other: Self) -> bool {
        self <= other
    }

    proof fn lemma_total(x: Self, y: Self) {
    }

    proof fn lemma_transitive(x: Self, y: Self, z: Self) {
    }

    proof fn lemma_antisymmetric(x: Self, y: Self) {
    }

    fn le_exec(&self, other: &Self) -> (r: bool) {
        *self <= *other
    }
}

impl TotalOrder for i64 {
    open spec fn le(self, other: Self) -> bool {
        self <= other
    }

    proof fn lemma_total(x: Self, y: Self) {
    }

    proof fn lemma_transitive(x: Self, y: Self, z: Self) {
    }

    proof fn lemma_antisymmetric(x: Self, y: Self) {
    }

    fn le_exec(&self, other: &Self) -> (r: bool) {
        *self <= *other
    }
}

/// Strict form of the order: `a` comes before `b` and differs from it.
pub open spec fn lt<T: TotalOrder>(a: T, b: T) -> bool {
    a.le(b) && a != b
}

/// The sequence is in ascending comparison order; equal values may repeat.
pub open spec fn sorted<T: TotalOrder>(s: Seq<T>) -> bool {
    forall|i: int, j: int| #![trigger s[i], s[j]] 0 <= i < j < s.len() ==> s[i].le(s[j])
}

/// The sequence is in strictly ascending comparison order: sorted with
/// no value repeated.
pub open spec fn sorted_strict<T: TotalOrder>(s: Seq<T>) -> bool {
    forall|i: int, j: int| #![trigger s[i], s[j]] 0 <= i < j < s.len() ==> lt(s[i], s[j])
}

/// A strictly sorted sequence is in particular sorted.
pub proof fn lemma_sorted_strict_implies_sorted<T: TotalOrder>(s: Seq<T>)
    requires
        sorted_strict(s),
    ensures
        sorted(s),
{
    assert forall|i: int, j: int| #![trigger s[i], s[j]] 0 <= i < j < s.len() implies s[i].le(
        s[j],
    ) by {
        assert(lt(s[i], s[j]));
    }
}

/// Binary search over a vector held in ascending comparison order.
///
/// Returns `(true, i)` with the element at `i` equal to `item` when some
/// element compares equal to `item`, and otherwise `(false, i)` where `i`
/// is the position at which `item` would have to be spliced in to keep
/// the order: everything before `i` comes strictly before `item` and
/// everything from `i` on comes strictly after it.
pub fn search<T: TotalOrder>(v: &Vec<T>, item: &T) -> (r: (bool, usize))
    requires
        sorted(v@),
    ensures
        r.0 == v@.contains(*item),
        r.0 ==> r.1 < v@.len() && v@[r.1 as int] == *item,
        !r.0 ==> r.1 <= v@.len() && (forall|k: int|
            0 <= k < r.1 ==> lt(#[trigger] v@[k], *item)) && (forall|k: int|
            r.1 <= k < v@.len() ==> lt(*item, #[trigger] v@[k])),
{
    let mut lo: usize = 0;
    let mut hi: usize = v.len();
    while lo < hi
        invariant
            lo <= hi <= v@.len(),
            sorted(v@),
            forall|k: int| 0 <= k < lo ==> lt(#[trigger] v@[k], *item),
            forall|k: int| hi <= k < v@.len() ==> lt(*item, #[trigger] v@[k]),
        decreases hi - lo,
    {
        let mid = lo + (hi - lo) / 2;
        if item.le_exec(&v[mid]) {
            if v[mid].le_exec(item) {
                proof {
                    T::lemma_antisymmetric(*item, v@[mid as int]);
                    assert(v@[mid as int] == *item);
                    assert(v@.contains(*item));
                }
                return (true, mid);
            } else {
                // `item` comes strictly before the middle element.
                proof {
                    assert forall|k: int| mid <= k < v@.len() implies lt(*item, v@[k]) by {
                        if k > mid {
                            assert(v@[mid as int].le(v@[k]));
                            T::lemma_transitive(*item, v@[mid as int], v@[k]);
                        }
                    }
                }
                hi = mid;
            }
        } else {
            // The middle element comes strictly before `item`.
            proof {
                T::lemma_total(*item, v@[mid as int]);
                assert(v@[mid as int].le(*item));
                assert forall|k: int| 0 <= k < mid + 1 implies lt(v@[k], *item) by {
                    if k < mid {
                        assert(v@[k].le(v@[mid as int]));
                        T::lemma_transitive(v@[k], v@[mid as int], *item);
                    }
                }
            }
            lo = mid + 1;
        }
    }
    proof {
        assert forall|k: int| 0 <= k < v@.len() implies v@[k] != *item by {
            assert(lt(v@[k], *item) || lt(*item, v@[k]));
        }
        assert(!v@.contains(*item));
    }
    (false, lo)
}

/// Splicing a value into its sorted position keeps the sequence sorted.
pub proof fn lemma_sorted_insert<T: TotalOrder>(s: Seq<T>, i: int, x: T)
    requires
        sorted(s),
        0 <= i <= s.len(),
        forall|k: int| 0 <= k < i ==> (#[trigger] s[k]).le(x),
        forall|k: int| i <= k < s.len() ==> x.le(#[trigger] s[k]),
    ensures
        sorted(s.insert(i, x)),
{
    let t = s.insert(i, x);
    assert forall|a: int, b: int| #![trigger t[a], t[b]] 0 <= a < b < t.len() implies t[a].le(
        t[b],
    ) by {
        if b < i {
            assert(t[a] == s[a] && t[b] == s[b]);
            assert(s[a].le(s[b]));
        } else if b == i {
            assert(t[a] == s[a] && t[b] == x);
            assert(s[a].le(x));
        } else if a < i {
            assert(t[a] == s[a] && t[b] == s[b - 1]);
            if a == b - 1 {
                assert(s[a].le(x) && x.le(s[b - 1]));
                T::lemma_transitive(s[a], x, s[b - 1]);
            } else {
                assert(s[a].le(s[b - 1]));
            }
        } else if a == i {
            assert(t[a] == x && t[b] == s[b - 1]);
            assert(x.le(s[b - 1]));
        } else {
            assert(t[a] == s[a - 1] && t[b] == s[b - 1]);
            assert(s[a - 1].le(s[b - 1]));
        }
    }
}

/// Splicing a value strictly between its neighbours keeps a strictly
/// sorted sequence strictly sorted.
pub proof fn lemma_sorted_strict_insert<T: TotalOrder>(s: Seq<T>, i: int, x: T)
    requires
        sorted_strict(s),
        0 <= i <= s.len(),
        forall|k: int| 0 <= k < i ==> lt(#[trigger] s[k], x),
        forall|k: int| i <= k < s.len() ==> lt(x, #[trigger] s[k]),
    ensures
        sorted_strict(s.insert(i, x)),
{
    let t = s.insert(i, x);
    assert forall|a: int, b: int| #![trigger t[a], t[b]] 0 <= a < b < t.len() implies lt(
        t[a],
        t[b],
    ) by {
        if b < i {
            assert(t[a] == s[a] && t[b] == s[b]);
            assert(lt(s[a], s[b]));
        } else if b == i {
            assert(t[a] == s[a] && t[b] == x);
            assert(lt(s[a], x));
        } else if a < i {
            assert(t[a] == s[a] && t[b] == s[b - 1]);
            if a == b - 1 {
                assert(lt(s[a], x) && lt(x, s[b - 1]));
                T::lemma_transitive(s[a], x, s[b - 1]);
                if s[a] == s[b - 1] {
                    T::lemma_antisymmetric(s[a], x);
                }
            } else {
                assert(lt(s[a], s[b - 1]));
            }
        } else if a == i {
            assert(t[a] == x && t[b] == s[b - 1]);
            assert(lt(x, s[b - 1]));
        } else {
            assert(t[a] == s[a - 1] && t[b] == s[b - 1]);
            assert(lt(s[a - 1], s[b - 1]));
        }
    }
}

/// Removing an element keeps the sequence sorted.
pub proof fn lemma_sorted_remove<T: TotalOrder>(s: Seq<T>, i: int)
    requires
        sorted(s),
        0 <= i < s.len(),
    ensures
        sorted(s.remove(i)),
{
    let t = s.remove(i);
    assert forall|a: int, b: int| #![trigger t[a], t[b]] 0 <= a < b < t.len() implies t[a].le(
        t[b],
    ) by {
        let a0 = if a < i { a } else { a + 1 };
        let b0 = if b < i { b } else { b + 1 };
        assert(t[a] == s[a0] && t[b] == s[b0]);
        assert(s[a0].le(s[b0]));
    }
}

/// Removing an element keeps a strictly sorted sequence strictly sorted.
pub proof fn lemma_sorted_strict_remove<T: TotalOrder>(s: Seq<T>, i: int)
    requires
        sorted_strict(s),
        0 <= i < s.len(),
    ensures
        sorted_strict(s.remove(i)),
{
    let t = s.remove(i);
    assert forall|a: int, b: int| #![trigger t[a], t[b]] 0 <= a < b < t.len() implies lt(
        t[a],
        t[b],
    ) by {
        let a0 = if a < i { a } else { a + 1 };
        let b0 = if b < i { b } else { b + 1 };
        assert(t[a] == s[a0] && t[b] == s[b0]);
        assert(lt(s[a0], s[b0]));
    }
}

/// In a strictly sorted sequence a value occurs at most once, so
/// removing its one occurrence leaves no equal element behind.
pub proof fn lemma_sorted_strict_remove_absent<T: TotalOrder>(s: Seq<T>, i: int)
    requires
        sorted_strict(s),
        0 <= i < s.len(),
    ensures
        !s.remove(i).contains(s[i]),
{
    let t = s.remove(i);
    assert forall|m: int| 0 <= m < t.len() implies t[m] != s[i] by {
        if m < i {
            assert(lt(s[m], s[i]));
        } else {
            assert(t[m] == s[m + 1]);
            assert(lt(s[i], s[m + 1]));
        }
    }
}

/// Dropping the last element of a strictly sorted sequence drops exactly
/// the largest value and nothing else.
proof fn lemma_sorted_strict_drop_last_contains<T: TotalOrder>(s: Seq<T>, y: T)
    requires
        sorted_strict(s),
        s.len() > 0,
    ensures
        s.drop_last().contains(y) == (s.contains(y) && y != s[s.len() - 1]),
{
    let t = s.drop_last();
    if t.contains(y) {
        let m = choose|m: int| 0 <= m < t.len() && t[m] == y;
        assert(s[m] == y);
        assert(s.contains(y));
        assert(lt(s[m], s[s.len() - 1]));
    }
    if s.contains(y) && y != s[s.len() - 1] {
        let m = choose|m: int| 0 <= m < s.len() && s[m] == y;
        assert(t[m] == y);
        assert(t.contains(y));
    }
}

/// A strictly sorted sequence is determined by the set of values it
/// holds: two such sequences containing exactly the same values are
/// equal, however those values were gathered.
pub proof fn lemma_sorted_strict_canonical<T: TotalOrder>(a: Seq<T>, b: Seq<T>)
    requires
        sorted_strict(a),
        sorted_strict(b),
        forall|y: T| a.contains(y) == b.contains(y),
    ensures
        a == b,
    decreases a.len(),
{
    if a.len() == 0 {
        if b.len() > 0 {
            assert(b.contains(b[0]));
            assert(a.contains(b[0]));
        }
        assert(a =~= b);
    } else {
        let la = a[a.len() - 1];
        assert(a.contains(la));
        assert(b.contains(la));
        let j = choose|j: int| 0 <= j < b.len() && b[j] == la;
        if j < b.len() - 1 {
            assert(lt(b[j], b[b.len() - 1]));
            assert(b.contains(b[b.len() - 1]));
            assert(a.contains(b[b.len() - 1]));
            let k = choose|k: int| 0 <= k < a.len() && a[k] == b[b.len() - 1];
            if k < a.len() - 1 {
                assert(lt(a[k], la));
                T::lemma_antisymmetric(la, b[b.len() - 1]);
            }
            assert(false);
        }
        assert(b[b.len() - 1] == la);
        let a2 = a.drop_last();
        let b2 = b.drop_last();
        assert(sorted_strict(a2) && sorted_strict(b2)) by {
            assert(forall|i: int, j: int|
                #![trigger a2[i], a2[j]]
                0 <= i < j < a2.len() ==> a2[i] == a[i] && a2[j] == a[j]);
            assert(forall|i: int, j: int|
                #![trigger b2[i], b2[j]]
                0 <= i < j < b2.len() ==> b2[i] == b[i] && b2[j] == b[j]);
        }
        assert forall|y: T| a2.contains(y) == b2.contains(y) by {
            lemma_sorted_strict_drop_last_contains(a, y);
            lemma_sorted_strict_drop_last_contains(b, y);
        }
        lemma_sorted_strict_canonical(a2, b2);
        assert(a.len() == b.len());
        assert forall|m: int| 0 <= m < a.len() implies a[m] == b[m] by {
            if m < a.len() - 1 {
                assert(a2[m] == a[m] && b2[m] == b[m]);
            }
        }
        assert(a =~= b);
    }
}

/// A sorted sequence is determined by the values it holds and their
/// multiplicities: two sorted sequences with the same multiset of values
/// are equal, however those values were gathered.
pub proof fn lemma_sorted_canonical<T: TotalOrder>(a: Seq<T>, b: Seq<T>)
    requires
        sorted(a),
        sorted(b),
        a.to_multiset() == b.to_multiset(),
    ensures
        a == b,
    decreases a.len(),
{
    broadcast use vstd::seq_lib::group_to_multiset_ensures;

    assert(a.to_multiset().len() == a.len());
    assert(b.to_multiset().len() == b.len());
    if a.len() == 0 {
        assert(a =~= b);
    } else {
        let la = a[a.len() - 1];
        let lb = b[b.len() - 1];
        assert(a.contains(la));
        assert(a.to_multiset().count(la) > 0);
        assert(b.to_multiset().count(la) > 0);
        assert(b.contains(la));
        let j = choose|j: int| 0 <= j < b.len() && b[j] == la;
        assert(b.contains(lb));
        assert(b.to_multiset().count(lb) > 0);
        assert(a.to_multiset().count(lb) > 0);
        assert(a.contains(lb));
        let k = choose|k: int| 0 <= k < a.len() && a[k] == lb;
        if la != lb {
            assert(j < b.len() - 1);
            assert(b[j].le(lb));
            assert(k < a.len() - 1);
            assert(a[k].le(la));
            T::lemma_antisymmetric(la, lb);
        }
        assert(la == lb);
        let a2 = a.drop_last();
        let b2 = b.drop_last();
        assert(a.remove(a.len() - 1) =~= a2);
        assert(b.remove(b.len() - 1) =~= b2);
        assert(a.remove(a.len() - 1).to_multiset() == a.to_multiset().remove(la));
        assert(b.remove(b.len() - 1).to_multiset() == b.to_multiset().remove(lb));
        assert(sorted(a2) && sorted(b2)) by {
            assert(forall|i: int, j: int|
                #![trigger a2[i], a2[j]]
                0 <= i < j < a2.len() ==> a2[i] == a[i] && a2[j] == a[j]);
            assert(forall|i: int, j: int|
                #![trigger b2[i], b2[j]]
                0 <= i < j < b2.len() ==> b2[i] == b[i] && b2[j] == b[j]);
        }
        lemma_sorted_canonical(a2, b2);
        assert forall|m: int| 0 <= m < a.len() implies a[m] == b[m] by {
            if m < a.len() - 1 {
                assert(a2[m] == a[m] && b2[m] == b[m]);
            }
        }
        assert(a =~= b);
    }
}

} // verus!
