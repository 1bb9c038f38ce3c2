//! A Python-flavoured list value type.
//!
//! A `PyList` owns one growable buffer; its view is the element sequence.
//! Methods that compare elements are specified through the element type's
//! equality spec and promise their full behaviour whenever that equality
//! obeys its specification (as it does for the primitive types).

use vstd::prelude::*;
use vstd::multiset::Multiset;
use vstd::std_specs::cmp::PartialEqSpec;
use crate::caps::Len;
use crate::caps::PyBool;
use crate::caps::PySum;
use crate::caps::Truthy;
use crate::caps::i64_prefix_sums_ok;
use crate::caps::seq_sum_i64;

verus! {

/// An owned list with Python's method surface; equality is structural,
/// element by element.
#[derive(Debug, Clone, PartialEq)]
pub struct PyList<T> {
    inner: Vec<T>,
}

impl<T> View for PyList<T> {
    type V = Seq<T>;

    closed spec fn view(&self) -> Seq<T> {
        self.inner@
    }
}

/// The first position at or after `i` whose element equals `x`, under the
/// element type's equality spec.
pub open spec fn find_first_eq<T: PartialEq>(s: Seq<T>, x: T, i: int) -> Option<int>
    decreases s.len() - i + 1,
{
    if i < 0 || i >= s.len() {
        None
    } else if s[i].eq_spec(&x) {
        Some(i)
    } else {
        find_first_eq(s, x, i + 1)
    }
}

/// How many elements of `s` equal `x`, under the element type's equality spec.
pub open spec fn count_eq<T: PartialEq>(s: Seq<T>, x: T) -> int
    decreases s.len(),
{
    if s.len() == 0 {
        0
    } else {
        count_eq(s.drop_last(), x) + if s.last().eq_spec(&x) { 1int } else { 0int }
    }
}

/// A non-decreasing sequence of 64-bit integers.
pub open spec fn sorted_i64(s: Seq<i64>) -> bool {
    forall|i: int, j: int| 0 <= i < j < s.len() ==> s[i] <= s[j]
}

impl<T> PyList<T> {
    /// An empty list.
    pub fn new() -> (r: PyList<T>)
        ensures
            r@ == Seq::<T>::empty(),
    {
        PyList { inner: Vec::new() }
    }

    /// A list owning the given elements.
    pub fn from_vec(vec: Vec<T>) -> (r: PyList<T>)
        ensures
            r@ == vec@,
    {
        PyList { inner: vec }
    }

    /// Add one element at the end.
    pub fn append(&mut self, item: T)
        ensures
            final(self)@ == old(self)@.push(item),
    {
        self.inner.push(item);
    }

    /// Add every element of `items` at the end, in order.
    pub fn extend(&mut self, items: Vec<T>)
        ensures
            final(self)@ == old(self)@ + items@,
    {
        let mut items = items;
        self.inner.append(&mut items);
    }

    /// Insert at `index` when it is within bounds; out of bounds, leave the
    /// list unchanged.
    pub fn insert(&mut self, index: usize, item: T)
        ensures
            final(self)@ == if index <= old(self)@.len() {
                old(self)@.insert(index as int, item)
            } else {
                old(self)@
            },
    {
        if index <= self.inner.len() {
            self.inner.insert(index, item);
        }
    }

    /// Remove and return the element at `index`, the last element when no
    /// index is given, or nothing when the position is absent.
    pub fn pop(&mut self, index: Option<usize>) -> (r: Option<T>)
        ensures
            match index {
                Some(i) => if i < old(self)@.len() {
                    r == Some(old(self)@[i as int])
                        && final(self)@ == old(self)@.remove(i as int)
                } else {
                    r is None && final(self)@ == old(self)@
                },
                None => if old(self)@.len() > 0 {
                    r == Some(old(self)@.last())
                        && final(self)@ == old(self)@.drop_last()
                } else {
                    r is None && final(self)@ == old(self)@
                },
            },
    {
        match index {
            Some(i) => {
                if i < self.inner.len() {
                    Some(self.inner.remove(i))
                } else {
                    None
                }
            }
            None => {
                if self.inner.len() > 0 {
                    self.inner.pop()
                } else {
                    None
                }
            }
        }
    }

    /// Reverse the elements in place.
    pub fn reverse(&mut self)
        ensures
            final(self)@ == old(self)@.reverse(),
    {
        let ghost orig = self.inner@;
        let mut rebuilt: Vec<T> = Vec::new();
        proof {
            assert(orig.take(orig.len() as int) =~= orig);
            assert(orig.skip(orig.len() as int).reverse() =~= Seq::<T>::empty());
        }
        while self.inner.len() > 0
            invariant
                self.inner@.len() <= orig.len(),
                rebuilt@ == orig.skip(self.inner@.len() as int).reverse(),
                self.inner@ == orig.take(self.inner@.len() as int),
            decreases self.inner@.len(),
        {
            let ghost before = self.inner@;
            let x = self.inner.pop().unwrap();
            rebuilt.push(x);
            proof {
                assert(before.drop_last() =~= orig.take(before.len() - 1));
                assert(rebuilt@ =~= orig.skip(before.len() - 1).reverse());
            }
        }
        proof {
            assert(orig.skip(0) =~= orig);
            assert(rebuilt@ =~= orig.reverse());
        }
        self.inner = rebuilt;
    }

    /// Remove every element.
    pub fn clear(&mut self)
        ensures
            final(self)@ == Seq::<T>::empty(),
    {
        self.inner.clear();
    }

    /// The element at `index`, when present.
    pub fn get(&self, index: usize) -> (r: Option<&T>)
        ensures
            match r {
                Some(v) => index < self@.len() && *v == self@[index as int],
                None => index >= self@.len(),
            },
    {
        if index < self.inner.len() {
            Some(&self.inner[index])
        } else {
            None
        }
    }

    /// Overwrite the element at `index`; reports whether it was in bounds.
    pub fn set(&mut self, index: usize, item: T) -> (r: bool)
        ensures
            if index < old(self)@.len() {
                r && final(self)@ == old(self)@.update(index as int, item)
            } else {
                !r && final(self)@ == old(self)@
            },
    {
        if index < self.inner.len() {
            self.inner[index] = item;
            true
        } else {
            false
        }
    }

    /// Borrow the underlying buffer.
    pub fn as_vec(&self) -> (r: &Vec<T>)
        ensures
            r@ == self@,
    {
        &self.inner
    }
}

impl<T: Copy> PyList<T> {
    /// A copy of the list.
    pub fn copy(&self) -> (r: PyList<T>)
        ensures
            r@ == self@,
    {
        let mut out: Vec<T> = Vec::new();
        let mut i: usize = 0;
        while i < self.inner.len()
            invariant
                i <= self.inner@.len(),
                out@ == self.inner@.take(i as int),
            decreases self.inner@.len() - i,
        {
            out.push(self.inner[i]);
            assert(out@ =~= self.inner@.take(i + 1));
            i += 1;
        }
        assert(self.inner@.take(self.inner@.len() as int) =~= self.inner@);
        PyList { inner: out }
    }
}

impl<T: PartialEq> PyList<T> {
    /// Remove the first element equal to `item`; reports whether one was
    /// found.
    pub fn remove(&mut self, item: &T) -> (r: bool)
        ensures
            T::obeys_eq_spec() ==> match find_first_eq(old(self)@, *item, 0) {
                Some(j) => r && final(self)@ == old(self)@.remove(j),
                None => !r && final(self)@ == old(self)@,
            },
    {
        let mut i: usize = 0;
        while i < self.inner.len()
            invariant
                i <= self@.len(),
                self@ == old(self)@,
                T::obeys_eq_spec() ==> find_first_eq(self@, *item, 0)
                    == find_first_eq(self@, *item, i as int),
            decreases self@.len() - i,
        {
            if &self.inner[i] == item {
                self.inner.remove(i);
                return true;
            }
            i += 1;
        }
        false
    }

    /// Position of the first element equal to `item`.
    pub fn index(&self, item: &T) -> (r: Option<usize>)
        ensures
            T::obeys_eq_spec() ==> match r {
                Some(j) => Some(j as int) == find_first_eq(self@, *item, 0),
                None => find_first_eq(self@, *item, 0) is None,
            },
    {
        let mut i: usize = 0;
        while i < self.inner.len()
            invariant
                i <= self@.len(),
                T::obeys_eq_spec() ==> find_first_eq(self@, *item, 0)
                    == find_first_eq(self@, *item, i as int),
            decreases self@.len() - i,
        {
            if &self.inner[i] == item {
                return Some(i);
            }
            i += 1;
        }
        None
    }

    /// How many elements equal `item`.
    pub fn count(&self, item: &T) -> (r: usize)
        ensures
            T::obeys_eq_spec() ==> r as int == count_eq(self@, *item),
    {
        let mut cnt: usize = 0;
        let mut i: usize = 0;
        assert(self@.take(0) =~= Seq::<T>::empty());
        while i < self.inner.len()
            invariant
                i <= self@.len(),
                cnt <= i,
                T::obeys_eq_spec() ==> cnt as int == count_eq(self@.take(i as int), *item),
            decreases self@.len() - i,
        {
            proof {
                assert(self@.take(i + 1).drop_last() =~= self@.take(i as int));
            }
            if &self.inner[i] == item {
                cnt += 1;
            }
            i += 1;
        }
        assert(self@.take(self@.len() as int) =~= self@);
        cnt
    }
}

impl PyList<i64> {
    /// Sort the elements in non-decreasing order, keeping exactly the same
    /// elements (as a multiset).
    pub fn sort(&mut self)
        ensures
            sorted_i64(final(self)@),
            final(self)@.to_multiset() == old(self)@.to_multiset(),
    {
        broadcast use vstd::seq_lib::group_to_multiset_ensures;

        let ghost orig = self.inner@;
        let mut out: Vec<i64> = Vec::new();
        proof {
            assert(out@.to_multiset().add(self.inner@.to_multiset()) =~= orig.to_multiset());
        }
        while self.inner.len() > 0
            invariant
                sorted_i64(out@),
                forall|a: int, b: int|
                    0 <= a < out@.len() && 0 <= b < self.inner@.len()
                        ==> out@[a] <= self.inner@[b],
                out@.to_multiset().add(self.inner@.to_multiset()) == orig.to_multiset(),
            decreases self.inner@.len(),
        {
            // find the index of a least remaining element
            let mut min_idx: usize = 0;
            let mut j: usize = 1;
            while j < self.inner.len()
                invariant
                    self.inner@.len() > 0,
                    min_idx < self.inner@.len(),
                    j <= self.inner@.len(),
                    forall|k: int| 0 <= k < j ==> self.inner@[min_idx as int] <= self.inner@[k],
                decreases self.inner@.len() - j,
            {
                if self.inner[j] < self.inner[min_idx] {
                    min_idx = j;
                }
                j += 1;
            }
            let ghost wbefore = self.inner@;
            let ghost out_before = out@;
            let v = self.inner.remove(min_idx);
            out.push(v);
            proof {
                wbefore.to_multiset_ensures();
                out_before.to_multiset_ensures();
                assert(wbefore.remove(min_idx as int).to_multiset()
                    == wbefore.to_multiset().remove(wbefore[min_idx as int]));
                assert(out_before.push(v).to_multiset() == out_before.to_multiset().insert(v));
                assert(self.inner@.to_multiset() == wbefore.to_multiset().remove(v));
                assert(out@.to_multiset() == out_before.to_multiset().insert(v));
                assert(wbefore.to_multiset().contains(v));
                assert(out@.to_multiset().add(self.inner@.to_multiset()) =~= orig.to_multiset());
                assert forall|a: int, b: int|
                    0 <= a < out@.len() && 0 <= b < self.inner@.len()
                        implies out@[a] <= self.inner@[b] by {
                    if a < out@.len() - 1 {
                        if b < min_idx {
                            assert(self.inner@[b] == wbefore[b]);
                        } else {
                            assert(self.inner@[b] == wbefore[b + 1]);
                        }
                    } else {
                        assert(out@[a] == v);
                        if b < min_idx {
                            assert(self.inner@[b] == wbefore[b]);
                        } else {
                            assert(self.inner@[b] == wbefore[b + 1]);
                        }
                    }
                }
            }
        }
        proof {
            assert(self.inner@.to_multiset() =~= Multiset::<i64>::empty());
            assert(out@.to_multiset() =~= orig.to_multiset());
        }
        self.inner = out;
    }
}

impl<T> Len for PyList<T> {
    open spec fn spec_len(&self) -> nat {
        self@.len()
    }

    fn len(&self) -> (r: usize) {
        self.inner.len()
    }
}

impl<T> Truthy for PyList<T> {
    open spec fn spec_truthy(&self) -> bool {
        self@.len() != 0
    }

    fn is_truthy(&self) -> (r: bool) {
        self.inner.len() != 0
    }
}

impl<T> PyBool for &PyList<T> {
    open spec fn spec_bool(self) -> bool {
        self@.len() != 0
    }

    fn py_bool(self) -> (r: bool) {
        self.inner.len() != 0
    }
}

impl PySum<i64> for &PyList<i64> {
    open spec fn sum_ok(self) -> bool {
        i64_prefix_sums_ok(self@)
    }

    open spec fn spec_sum(self) -> i64 {
        seq_sum_i64(self@) as i64
    }

    fn py_sum(self) -> (r: i64) {
        let n = self.inner.len();
        let mut acc: i64 = 0;
        let mut i: usize = 0;
        assert(self@.take(0) =~= Seq::<i64>::empty());
        while i < n
            invariant
                n == self@.len(),
                i <= n,
                i64_prefix_sums_ok(self@),
                acc as int == seq_sum_i64(self@.take(i as int)),
            decreases n - i,
        {
            proof {
                assert(self@.take(i + 1).drop_last() =~= self@.take(i as int));
                assert(seq_sum_i64(self@.take(i + 1)) == acc as int + self@[i as int]);
            }
            acc = acc + self.inner[i];
            i += 1;
        }
        assert(self@.take(n as int) =~= self@);
        acc
    }
}

} // verus!
