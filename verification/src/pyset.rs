//! A Python-flavoured set value type over strings.
//!
//! The set owns one buffer of pairwise-distinct elements; its mathematical
//! content is the finite set of their character sequences.

use vstd::prelude::*;
use crate::caps::Len;
use crate::caps::PyBool;
use crate::caps::Truthy;
use crate::strutil::chars_eq;
use crate::strutil::str_to_chars;

verus! {

/// The finite set an element list denotes.
pub open spec fn set_of(s: Seq<String>) -> Set<Seq<char>>
    decreases s.len(),
{
    if s.len() == 0 {
        Set::empty()
    } else {
        set_of(s.drop_last()).insert(s.last()@)
    }
}

/// Whether the elements of the list are pairwise distinct.
pub open spec fn elems_distinct(s: Seq<String>) -> bool {
    forall|i: int, j: int| 0 <= i < j < s.len() ==> s[i]@ != s[j]@
}

/// A value is in the set exactly when some element carries it.
pub proof fn lemma_set_of_contains(s: Seq<String>, k: Seq<char>)
    ensures
        set_of(s).contains(k) <==> exists|i: int| 0 <= i < s.len() && (#[trigger] s[i])@ == k,
    decreases s.len(),
{
    if s.len() > 0 {
        lemma_set_of_contains(s.drop_last(), k);
        if s.last()@ == k {
            assert(s[s.len() - 1]@ == k);
        } else if set_of(s).contains(k) {
            let i = choose|i: int| 0 <= i < s.drop_last().len() && (#[trigger] s.drop_last()[i])@
                == k;
            assert(s[i]@ == k);
        } else {
            assert forall|i: int| 0 <= i < s.len() implies (#[trigger] s[i])@ != k by {
                if i < s.len() - 1 {
                    assert(s.drop_last()[i]@ == s[i]@);
                }
            }
        }
    }
}

/// With distinct elements, removing the element at `i` removes its value.
pub proof fn lemma_set_of_remove(s: Seq<String>, i: int)
    requires
        elems_distinct(s),
        0 <= i < s.len(),
    ensures
        set_of(s.remove(i)) == set_of(s).remove(s[i]@),
        elems_distinct(s.remove(i)),
    decreases s.len(),
{
    let k = s[i]@;
    assert forall|a: int, b: int| 0 <= a < b < s.remove(i).len()
        implies (#[trigger] s.remove(i)[a])@ != (#[trigger] s.remove(i)[b])@ by {
        let a2 = if a < i { a } else { a + 1 };
        let b2 = if b < i { b } else { b + 1 };
        assert(s.remove(i)[a] == s[a2] && s.remove(i)[b] == s[b2]);
    }
    if i == s.len() - 1 {
        assert(s.remove(i) =~= s.drop_last());
        assert forall|t: int| 0 <= t < s.drop_last().len()
            implies (#[trigger] s.drop_last()[t])@ != k by {
            assert(s.drop_last()[t] == s[t]);
        }
        lemma_set_of_absent(s.drop_last(), k);
        assert(set_of(s.drop_last()).remove(k) =~= set_of(s.drop_last()));
        assert(set_of(s).remove(k) =~= set_of(s.drop_last()).insert(k).remove(k));
        assert(set_of(s.drop_last()).insert(k).remove(k) =~= set_of(s.drop_last()).remove(k));
    } else {
        lemma_set_of_remove(s.drop_last(), i);
        assert(s.remove(i).drop_last() =~= s.drop_last().remove(i));
        assert(s.remove(i).last() == s.last());
        assert(s.drop_last()[i] == s[i]);
        assert(s.last()@ != k);
        assert(set_of(s.drop_last()).remove(k).insert(s.last()@)
            =~= set_of(s.drop_last()).insert(s.last()@).remove(k));
    }
}

/// A value carried by no element is absent.
pub proof fn lemma_set_of_absent(s: Seq<String>, k: Seq<char>)
    requires
        forall|i: int| 0 <= i < s.len() ==> (#[trigger] s[i])@ != k,
    ensures
        !set_of(s).contains(k),
    decreases s.len(),
{
    if s.len() > 0 {
        assert forall|i: int| 0 <= i < s.drop_last().len()
            implies (#[trigger] s.drop_last()[i])@ != k by {
            assert(s.drop_last()[i] == s[i]);
        }
        lemma_set_of_absent(s.drop_last(), k);
    }
}

/// Appending an element inserts its value.
pub proof fn lemma_set_of_push(s: Seq<String>, x: String)
    ensures
        set_of(s.push(x)) == set_of(s).insert(x@),
{
    assert(s.push(x).drop_last() =~= s);
    assert(s.push(x).last() == x);
}

/// An owned set with Python's method surface.
#[derive(Debug, Clone)]
pub struct PySet {
    items: Vec<String>,
}

impl View for PySet {
    type V = Set<Seq<char>>;

    closed spec fn view(&self) -> Set<Seq<char>> {
        set_of(self.items@)
    }
}

impl PySet {
    /// Each value held once: established by `new` and kept by every
    /// method.
    pub closed spec fn well_formed(&self) -> bool {
        elems_distinct(self.items@)
    }

    /// An empty set.
    pub fn new() -> (r: PySet)
        ensures
            r@ == Set::<Seq<char>>::empty(),
            r.well_formed(),
    {
        PySet { items: Vec::new() }
    }

    /// Find the position of a value.
    fn find(&self, item: &String) -> (r: Option<usize>)
        ensures
            match r {
                Some(i) => i < self.items@.len() && self.items@[i as int]@ == item@,
                None => forall|i: int| 0 <= i < self.items@.len()
                    ==> (#[trigger] self.items@[i])@ != item@,
            },
    {
        let needle = str_to_chars(item.as_str());
        let mut i: usize = 0;
        while i < self.items.len()
            invariant
                i <= self.items@.len(),
                needle@ == item@,
                forall|k: int| 0 <= k < i ==> (#[trigger] self.items@[k])@ != item@,
            decreases self.items@.len() - i,
        {
            let candidate = str_to_chars(self.items[i].as_str());
            if chars_eq(&candidate, &needle) {
                return Some(i);
            }
            i += 1;
        }
        None
    }

    /// Put a value in; already present, nothing changes.
    pub fn add(&mut self, item: String)
        requires
            old(self).well_formed(),
        ensures
            final(self).well_formed(),
            final(self)@ == old(self)@.insert(item@),
    {
        match self.find(&item) {
            Some(i) => {
                proof {
                    lemma_set_of_contains(self.items@, item@);
                    assert(self@.contains(item@));
                    assert(final(self)@ =~= old(self)@.insert(item@));
                }
            }
            None => {
                let ghost before = self.items@;
                proof {
                    lemma_set_of_push(before, item);
                    assert forall|a: int, b: int| 0 <= a < b < before.push(item).len()
                        implies (#[trigger] before.push(item)[a])@
                            != (#[trigger] before.push(item)[b])@ by {
                        if b < before.len() {
                        } else {
                            assert(before.push(item)[b] == item);
                            assert(before.push(item)[a] == before[a]);
                        }
                    }
                }
                self.items.push(item);
            }
        }
    }

    /// Take a value out; reports whether it was there.
    pub fn remove(&mut self, item: &String) -> (r: bool)
        requires
            old(self).well_formed(),
        ensures
            final(self).well_formed(),
            r == old(self)@.contains(item@),
            final(self)@ == old(self)@.remove(item@),
    {
        let ghost before = self.items@;
        proof {
            lemma_set_of_contains(before, item@);
        }
        match self.find(item) {
            Some(i) => {
                proof {
                    lemma_set_of_remove(before, i as int);
                }
                self.items.remove(i);
                true
            }
            None => {
                proof {
                    lemma_set_of_absent(before, item@);
                    assert(final(self)@ =~= old(self)@.remove(item@));
                }
                false
            }
        }
    }

    /// Take a value out if present; absent, nothing changes.
    pub fn discard(&mut self, item: &String)
        requires
            old(self).well_formed(),
        ensures
            final(self).well_formed(),
            final(self)@ == old(self)@.remove(item@),
    {
        self.remove(item);
    }

    /// Whether the value is in the set.
    pub fn contains(&self, item: &String) -> (r: bool)
        ensures
            r == self@.contains(item@),
    {
        proof {
            lemma_set_of_contains(self.items@, item@);
        }
        self.find(item).is_some()
    }

    /// Every value of either set.
    pub fn union(&self, other: &PySet) -> (r: PySet)
        requires
            self.well_formed(),
            other.well_formed(),
        ensures
            r.well_formed(),
            r@ == self@.union(other@),
    {
        let mut out = self.clone_verified();
        let mut i: usize = 0;
        proof {
            assert(other.items@.take(0) =~= Seq::<String>::empty());
            assert(out@ =~= self@.union(set_of(other.items@.take(0))));
        }
        while i < other.items.len()
            invariant
                i <= other.items@.len(),
                out.well_formed(),
                out@ == self@.union(set_of(other.items@.take(i as int))),
            decreases other.items@.len() - i,
        {
            let ghost cur = out@;
            out.add(other.items[i].clone());
            proof {
                assert(other.items@.take(i + 1).drop_last() =~= other.items@.take(i as int));
                assert(out@ =~= self@.union(set_of(other.items@.take(i + 1))));
            }
            i += 1;
        }
        proof {
            assert(other.items@.take(other.items@.len() as int) =~= other.items@);
        }
        out
    }

    /// Every value of this set that is in the other too.
    pub fn intersection(&self, other: &PySet) -> (r: PySet)
        requires
            self.well_formed(),
            other.well_formed(),
        ensures
            r.well_formed(),
            r@ == self@.intersect(other@),
    {
        let mut out = PySet::new();
        let mut i: usize = 0;
        proof {
            assert(self.items@.take(0) =~= Seq::<String>::empty());
            assert(out@ =~= set_of(self.items@.take(0)).intersect(other@));
        }
        while i < self.items.len()
            invariant
                i <= self.items@.len(),
                out.well_formed(),
                other.well_formed(),
                out@ == set_of(self.items@.take(i as int)).intersect(other@),
            decreases self.items@.len() - i,
        {
            proof {
                assert(self.items@.take(i + 1).drop_last() =~= self.items@.take(i as int));
            }
            if other.contains(&self.items[i]) {
                out.add(self.items[i].clone());
                proof {
                    assert(out@ =~= set_of(self.items@.take(i + 1)).intersect(other@));
                }
            } else {
                proof {
                    assert(out@ =~= set_of(self.items@.take(i + 1)).intersect(other@));
                }
            }
            i += 1;
        }
        proof {
            assert(self.items@.take(self.items@.len() as int) =~= self.items@);
        }
        out
    }

    /// Every value of this set that is not in the other.
    pub fn difference(&self, other: &PySet) -> (r: PySet)
        requires
            self.well_formed(),
            other.well_formed(),
        ensures
            r.well_formed(),
            r@ == self@.difference(other@),
    {
        let mut out = PySet::new();
        let mut i: usize = 0;
        proof {
            assert(self.items@.take(0) =~= Seq::<String>::empty());
            assert(out@ =~= set_of(self.items@.take(0)).difference(other@));
        }
        while i < self.items.len()
            invariant
                i <= self.items@.len(),
                out.well_formed(),
                other.well_formed(),
                out@ == set_of(self.items@.take(i as int)).difference(other@),
            decreases self.items@.len() - i,
        {
            proof {
                assert(self.items@.take(i + 1).drop_last() =~= self.items@.take(i as int));
            }
            if !other.contains(&self.items[i]) {
                out.add(self.items[i].clone());
                proof {
                    assert(out@ =~= set_of(self.items@.take(i + 1)).difference(other@));
                }
            } else {
                proof {
                    assert(out@ =~= set_of(self.items@.take(i + 1)).difference(other@));
                }
            }
            i += 1;
        }
        proof {
            assert(self.items@.take(self.items@.len() as int) =~= self.items@);
        }
        out
    }

    /// Remove every value.
    pub fn clear(&mut self)
        ensures
            final(self)@ == Set::<Seq<char>>::empty(),
            final(self).well_formed(),
    {
        self.items.clear();
    }

    /// A copy with the same values.
    fn clone_verified(&self) -> (r: PySet)
        requires
            self.well_formed(),
        ensures
            r.well_formed(),
            r@ == self@,
    {
        let mut items: Vec<String> = Vec::new();
        let mut i: usize = 0;
        while i < self.items.len()
            invariant
                i <= self.items@.len(),
                items@.len() == i,
                forall|t: int| 0 <= t < i ==> #[trigger] items@[t] == self.items@[t],
            decreases self.items@.len() - i,
        {
            items.push(self.items[i].clone());
            i += 1;
        }
        proof {
            assert(items@ =~= self.items@);
        }
        PySet { items }
    }
}

impl Len for PySet {
    open spec fn spec_len(&self) -> nat {
        self.spec_elems().len()
    }

    fn len(&self) -> (r: usize) {
        self.items.len()
    }
}

/// With distinct elements, the set is as large as the element list.
pub proof fn lemma_set_of_len(s: Seq<String>)
    ensures
        elems_distinct(s) ==> set_of(s).len() == s.len(),
        set_of(s).finite(),
    decreases s.len(),
{
    if s.len() > 0 {
        lemma_set_of_len(s.drop_last());
        if elems_distinct(s) {
            assert forall|a: int, b: int| 0 <= a < b < s.drop_last().len()
                implies (#[trigger] s.drop_last()[a])@ != (#[trigger] s.drop_last()[b])@ by {
                assert(s.drop_last()[a] == s[a] && s.drop_last()[b] == s[b]);
            }
            assert forall|t: int| 0 <= t < s.drop_last().len()
                implies (#[trigger] s.drop_last()[t])@ != s.last()@ by {
                assert(s.drop_last()[t] == s[t]);
            }
            lemma_set_of_absent(s.drop_last(), s.last()@);
        }
    }
}

impl Truthy for PySet {
    open spec fn spec_truthy(&self) -> bool {
        self.spec_elems().len() != 0
    }

    fn is_truthy(&self) -> (r: bool) {
        self.items.len() != 0
    }
}

impl PySet {
    /// The element list behind the set.
    pub closed spec fn spec_elems(&self) -> Seq<String> {
        self.items@
    }
}

impl PyBool for &PySet {
    open spec fn spec_bool(self) -> bool {
        self.spec_elems().len() != 0
    }

    fn py_bool(self) -> (r: bool) {
        self.items.len() != 0
    }
}

/// An empty set.
pub fn py_set() -> (r: PySet)
    ensures
        r@ == Set::<Seq<char>>::empty(),
        r.well_formed(),
{
    PySet::new()
}

} // verus!
