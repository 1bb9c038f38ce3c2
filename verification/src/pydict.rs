//! A Python-flavoured dictionary value type with string keys.
//!
//! The dictionary owns one buffer of key–value pairs with pairwise
//! distinct keys; its mathematical content is the finite map it denotes.

use vstd::prelude::*;
use crate::assoc::assoc_find;
use crate::assoc::assoc_map;
use crate::assoc::keys_distinct;
use crate::assoc::lemma_assoc_contains;
use crate::assoc::lemma_assoc_lookup;
use crate::assoc::lemma_assoc_not_contains_absent;
use crate::assoc::lemma_assoc_push;
use crate::assoc::lemma_assoc_remove;
use crate::caps::Len;
use crate::caps::PyBool;
use crate::caps::Truthy;

verus! {

/// The map after binding each of the pairs from `i` on, in order; a later
/// pair for the same key overrides an earlier one.
pub open spec fn upd_from<V>(
    m: Map<Seq<char>, V>,
    entries: Seq<(String, V)>,
    i: int,
) -> Map<Seq<char>, V>
    decreases entries.len() - i,
{
    if i < 0 || i >= entries.len() {
        m
    } else {
        upd_from(m.insert(entries[i].0@, entries[i].1), entries, i + 1)
    }
}

/// An owned dictionary with Python's method surface.
#[derive(Debug, Clone)]
pub struct PyDictionary<V> {
    entries: Vec<(String, V)>,
}

impl<V> View for PyDictionary<V> {
    type V = Map<Seq<char>, V>;

    closed spec fn view(&self) -> Map<Seq<char>, V> {
        assoc_map(self.entries@)
    }
}

impl<V> PyDictionary<V> {
    /// One entry per key: established by `new` and kept by every method.
    pub closed spec fn well_formed(&self) -> bool {
        keys_distinct(self.entries@)
    }

    /// The entry list behind the dictionary, in insertion order.
    pub closed spec fn spec_entries(&self) -> Seq<(String, V)> {
        self.entries@
    }

    /// An empty dictionary.
    pub fn new() -> (r: PyDictionary<V>)
        ensures
            r@ == Map::<Seq<char>, V>::empty(),
            r.well_formed(),
    {
        PyDictionary { entries: Vec::new() }
    }

    /// The value for a key, when present.
    pub fn get(&self, key: &String) -> (r: Option<&V>)
        requires
            self.well_formed(),
        ensures
            match r {
                Some(v) => self@.contains_key(key@) && *v == self@[key@],
                None => !self@.contains_key(key@),
            },
    {
        match assoc_find(&self.entries, key) {
            Some(i) => {
                proof {
                    lemma_assoc_lookup(self.entries@, i as int);
                }
                Some(&self.entries[i].1)
            }
            None => {
                proof {
                    lemma_assoc_not_contains_absent(self.entries@, key@);
                }
                None
            }
        }
    }

    /// Bind a key; an existing binding is replaced.
    pub fn set(&mut self, key: String, value: V)
        requires
            old(self).well_formed(),
        ensures
            final(self).well_formed(),
            final(self)@.dom() == old(self)@.dom().insert(key@),
            final(self)@[key@] == value,
            forall|k: Seq<char>| k != key@ && old(self)@.contains_key(k)
                ==> final(self)@.contains_key(k) && final(self)@[k] == old(self)@[k],
    {
        let ghost before = self.entries@;
        match assoc_find(&self.entries, &key) {
            Some(i) => {
                proof {
                    lemma_assoc_remove(before, i as int);
                }
                self.entries.remove(i);
                proof {
                    assert forall|t: int| 0 <= t < self.entries@.len()
                        implies (#[trigger] self.entries@[t]).0@ != key@ by {
                        if t < i {
                            assert(self.entries@[t] == before[t]);
                        } else {
                            assert(self.entries@[t] == before[t + 1]);
                        }
                    }
                }
            }
            None => {
                proof {
                    lemma_assoc_not_contains_absent(before, key@);
                }
            }
        }
        let ghost mid = self.entries@;
        assert(forall|t: int| 0 <= t < mid.len() ==> (#[trigger] mid[t]).0@ != key@);
        assert(assoc_map(mid) =~= old(self)@.remove(key@));
        let entry = (key, value);
        proof {
            lemma_assoc_push(mid, entry);
            assert forall|a: int, b: int| 0 <= a < b < mid.push(entry).len()
                implies mid.push(entry)[a].0@ != mid.push(entry)[b].0@ by {
                if b < mid.len() {
                    assert(mid.push(entry)[a] == mid[a]);
                    assert(mid.push(entry)[b] == mid[b]);
                } else {
                    assert(mid.push(entry)[a] == mid[a]);
                    assert(mid.push(entry)[b] == entry);
                }
            }
        }
        self.entries.push(entry);
        proof {
            assert(final(self)@.dom() =~= old(self)@.dom().insert(entry.0@));
        }
    }

    /// Unbind a key, reporting the value it had.
    pub fn pop(&mut self, key: &String) -> (r: Option<V>)
        requires
            old(self).well_formed(),
        ensures
            final(self).well_formed(),
            final(self)@ == old(self)@.remove(key@),
            match r {
                Some(v) => old(self)@.contains_key(key@) && v == old(self)@[key@],
                None => !old(self)@.contains_key(key@),
            },
    {
        let ghost before = self.entries@;
        match assoc_find(&self.entries, key) {
            Some(i) => {
                proof {
                    lemma_assoc_lookup(before, i as int);
                    lemma_assoc_remove(before, i as int);
                }
                Some(self.entries.remove(i).1)
            }
            None => {
                proof {
                    lemma_assoc_not_contains_absent(before, key@);
                    assert(final(self)@ =~= old(self)@.remove(key@));
                }
                None
            }
        }
    }

    /// Whether a key is bound.
    pub fn contains_key(&self, key: &String) -> (r: bool)
        ensures
            r == self@.contains_key(key@),
    {
        proof {
            lemma_assoc_contains(self.entries@, key@);
        }
        assoc_find(&self.entries, key).is_some()
    }

    /// The keys, in insertion order.
    pub fn keys(&self) -> (r: Vec<String>)
        requires
            self.well_formed(),
        ensures
            r@.map_values(|s: String| s@)
                == self.spec_entries().map_values(|kv: (String, V)| kv.0@),
            forall|t: int| 0 <= t < r@.len() ==> self@.contains_key(#[trigger] r@[t]@),
    {
        let mut out: Vec<String> = Vec::new();
        let mut i: usize = 0;
        while i < self.entries.len()
            invariant
                i <= self.entries@.len(),
                out@.len() == i,
                forall|t: int| 0 <= t < i ==> (#[trigger] out@[t])@ == self.entries@[t].0@,
            decreases self.entries@.len() - i,
        {
            out.push(self.entries[i].0.clone());
            i += 1;
        }
        proof {
            assert(out@.map_values(|s: String| s@)
                =~= self.entries@.map_values(|kv: (String, V)| kv.0@));
            assert forall|t: int| 0 <= t < out@.len()
                implies self@.contains_key(#[trigger] out@[t]@) by {
                lemma_assoc_lookup(self.entries@, t);
            }
        }
        out
    }

    /// Bind every pair of `other`, in its order; its bindings win.
    pub fn update(&mut self, other: PyDictionary<V>)
        requires
            old(self).well_formed(),
        ensures
            final(self).well_formed(),
            final(self)@ == upd_from(old(self)@, other.spec_entries(), 0),
    {
        let ghost gentries = other.entries@;
        let mut rest = other.entries;
        let _len_fact = rest.len();
        let mut i: usize = 0;
        while rest.len() > 0
            invariant
                gentries.len() <= usize::MAX,
                i + rest@.len() == gentries.len(),
                rest@ == gentries.skip(i as int),
                self.well_formed(),
                upd_from(old(self)@, gentries, 0) == upd_from(self@, gentries, i as int),
            decreases rest@.len(),
        {
            let ghost before = rest@;
            let pair = rest.remove(0);
            proof {
                assert(before.subrange(1, before.len() as int) =~= gentries.skip(i + 1));
                assert(pair == gentries[i as int]);
            }
            let ghost cur = self@;
            self.set(pair.0, pair.1);
            proof {
                assert(self@ =~= cur.insert(gentries[i as int].0@, gentries[i as int].1));
            }
            i += 1;
        }
    }

    /// Remove every binding.
    pub fn clear(&mut self)
        ensures
            final(self)@ == Map::<Seq<char>, V>::empty(),
            final(self).well_formed(),
    {
        self.entries.clear();
    }
}

impl<V: Copy> PyDictionary<V> {
    /// The value for a key, or the given default when it is absent.
    pub fn get_or_default(&self, key: &String, default: V) -> (r: V)
        requires
            self.well_formed(),
        ensures
            r == if self@.contains_key(key@) {
                self@[key@]
            } else {
                default
            },
    {
        match assoc_find(&self.entries, key) {
            Some(i) => {
                proof {
                    lemma_assoc_lookup(self.entries@, i as int);
                }
                self.entries[i].1
            }
            None => {
                proof {
                    lemma_assoc_not_contains_absent(self.entries@, key@);
                }
                default
            }
        }
    }

    /// The values, in the keys' order.
    pub fn values(&self) -> (r: Vec<V>)
        ensures
            r@ == self.spec_entries().map_values(|kv: (String, V)| kv.1),
    {
        let mut out: Vec<V> = Vec::new();
        let mut i: usize = 0;
        while i < self.entries.len()
            invariant
                i <= self.entries@.len(),
                out@.len() == i,
                forall|t: int| 0 <= t < i ==> #[trigger] out@[t] == self.entries@[t].1,
            decreases self.entries@.len() - i,
        {
            out.push(self.entries[i].1);
            i += 1;
        }
        proof {
            assert(out@ =~= self.spec_entries().map_values(|kv: (String, V)| kv.1));
        }
        out
    }

    /// The `(key, value)` pairs, in the keys' order.
    pub fn items(&self) -> (r: Vec<(String, V)>)
        ensures
            r@.map_values(|kv: (String, V)| (kv.0@, kv.1))
                == self.spec_entries().map_values(|kv: (String, V)| (kv.0@, kv.1)),
    {
        let mut out: Vec<(String, V)> = Vec::new();
        let mut i: usize = 0;
        while i < self.entries.len()
            invariant
                i <= self.entries@.len(),
                out@.len() == i,
                forall|t: int| 0 <= t < i ==> (#[trigger] out@[t]).0@ == self.entries@[t].0@
                    && out@[t].1 == self.entries@[t].1,
            decreases self.entries@.len() - i,
        {
            out.push((self.entries[i].0.clone(), self.entries[i].1));
            i += 1;
        }
        proof {
            assert(out@.map_values(|kv: (String, V)| (kv.0@, kv.1))
                =~= self.spec_entries().map_values(|kv: (String, V)| (kv.0@, kv.1)));
        }
        out
    }
}

impl<V> Len for PyDictionary<V> {
    open spec fn spec_len(&self) -> nat {
        self.spec_entries().len()
    }

    fn len(&self) -> (r: usize) {
        self.entries.len()
    }
}

impl<V> Truthy for PyDictionary<V> {
    open spec fn spec_truthy(&self) -> bool {
        self.spec_entries().len() != 0
    }

    fn is_truthy(&self) -> (r: bool) {
        self.entries.len() != 0
    }
}

impl<V> PyBool for &PyDictionary<V> {
    open spec fn spec_bool(self) -> bool {
        self.spec_entries().len() != 0
    }

    fn py_bool(self) -> (r: bool) {
        self.entries.len() != 0
    }
}

/// A dictionary handed through unchanged.
pub fn dict<V>(pairs: PyDictionary<V>) -> (r: PyDictionary<V>)
    ensures
        r@ == pairs@,
{
    pairs
}

/// A dictionary built from key–value pairs, earlier pairs bound first so
/// a repeated key keeps its last value.
pub fn dict_from_pairs<V>(pairs: Vec<(String, V)>) -> (r: PyDictionary<V>)
    ensures
        r.well_formed(),
        r@ == upd_from(Map::<Seq<char>, V>::empty(), pairs@, 0),
{
    let ghost gpairs = pairs@;
    let mut out: PyDictionary<V> = PyDictionary::new();
    let mut rest = pairs;
    let _len_fact = rest.len();
    let mut i: usize = 0;
    while rest.len() > 0
        invariant
            gpairs.len() <= usize::MAX,
            i + rest@.len() == gpairs.len(),
            rest@ == gpairs.skip(i as int),
            out.well_formed(),
            upd_from(Map::<Seq<char>, V>::empty(), gpairs, 0)
                == upd_from(out@, gpairs, i as int),
        decreases rest@.len(),
    {
        let ghost before = rest@;
        let pair = rest.remove(0);
        proof {
            assert(before.subrange(1, before.len() as int) =~= gpairs.skip(i + 1));
            assert(pair == gpairs[i as int]);
        }
        let ghost cur = out@;
        out.set(pair.0, pair.1);
        proof {
            assert(out@ =~= cur.insert(gpairs[i as int].0@, gpairs[i as int].1));
        }
        i += 1;
    }
    out
}

/// An empty dictionary.
pub fn py_dict<V>() -> (r: PyDictionary<V>)
    ensures
        r@ == Map::<Seq<char>, V>::empty(),
        r.well_formed(),
{
    PyDictionary::new()
}

} // verus!
