//! The function registry: a directory of `(module, function) -> signature`
//! entries for tooling and introspection.
//!
//! The registry is purely observational: nothing consults it to dispatch a
//! call.  Its mathematical content is a finite map keyed by the
//! `"module.function"` string.  Concurrent access is the embedding
//! program's concern: it wraps one registry value in its lock of choice and
//! calls these methods inside short critical sections.

use vstd::prelude::*;
use crate::assoc::assoc_find;
use crate::assoc::assoc_map;
use crate::assoc::keys_distinct;
use crate::assoc::lemma_assoc_contains;
use crate::assoc::lemma_assoc_lookup;
use crate::assoc::lemma_assoc_not_contains_absent;
use crate::assoc::lemma_assoc_push;
use crate::assoc::lemma_assoc_remove;

verus! {

/// The `"module.function"` key under which a binding is registered.
pub open spec fn full_key(module: Seq<char>, function: Seq<char>) -> Seq<char> {
    module + "."@ + function
}

/// A directory of registered bindings: `"module.function"` to the declared
/// signature text.
pub struct PythonFunctionRegistry {
    functions: Vec<(String, String)>,
}

impl View for PythonFunctionRegistry {
    type V = Map<Seq<char>, String>;

    closed spec fn view(&self) -> Map<Seq<char>, String> {
        assoc_map(self.functions@)
    }
}

impl PythonFunctionRegistry {
    /// One entry per key: established by `new` and kept by every method.
    pub closed spec fn well_formed(&self) -> bool {
        keys_distinct(self.functions@)
    }

    /// An empty registry.
    pub fn new() -> (r: PythonFunctionRegistry)
        ensures
            r@ == Map::<Seq<char>, String>::empty(),
            r.well_formed(),
    {
        PythonFunctionRegistry { functions: Vec::new() }
    }

    /// Record (or overwrite) the signature under `"module.function"`.
    pub fn register(&mut self, module: &str, function: &str, signature: &str) -> (nothing: ())
        requires
            old(self).well_formed(),
        ensures
            final(self).well_formed(),
            final(self)@.dom() == old(self)@.dom().insert(full_key(module@, function@)),
            final(self)@[full_key(module@, function@)]@ == signature@,
            forall|k: Seq<char>| k != full_key(module@, function@) && old(self)@.contains_key(k)
                ==> final(self)@.contains_key(k) && final(self)@[k] == old(self)@[k],
    {
        let mut key: String = module.to_owned();
        key.append(".");
        key.append(function);
        assert(key@ == full_key(module@, function@));
        let ghost before = self.functions@;
        match assoc_find(&self.functions, &key) {
            Some(i) => {
                proof {
                    lemma_assoc_remove(before, i as int);
                }
                self.functions.remove(i);
                proof {
                    assert forall|t: int| 0 <= t < self.functions@.len()
                        implies self.functions@[t].0@ != key@ by {
                        if t < i {
                            assert(self.functions@[t] == before[t]);
                        } else {
                            assert(self.functions@[t] == before[t + 1]);
                        }
                    }
                }
            }
            None => {
                proof {
                    lemma_assoc_not_contains_absent(before, key@);
                }
            }
        }
        let ghost mid = self.functions@;
        assert(forall|t: int| 0 <= t < mid.len() ==> #[trigger] mid[t].0@ != key@);
        assert(keys_distinct(mid));
        assert(assoc_map(mid) =~= old(self)@.remove(key@));
        let entry = (key, signature.to_owned());
        proof {
            lemma_assoc_push(mid, entry);
            assert forall|a: int, b: int| 0 <= a < b < mid.push(entry).len()
                implies mid.push(entry)[a].0@ != mid.push(entry)[b].0@ by {
                if b < mid.len() {
                    assert(mid.push(entry)[a] == mid[a]);
                    assert(mid.push(entry)[b] == mid[b]);
                } else {
                    assert(mid.push(entry)[a] == mid[a]);
                    assert(mid.push(entry)[b] == entry);
                }
            }
        }
        self.functions.push(entry);
        proof {
            assert(final(self)@ =~= old(self)@.remove(key@).insert(key@, entry.1));
            assert(final(self)@.dom()
                =~= old(self)@.dom().insert(full_key(module@, function@)));
        }
    }

    /// Whether a binding is registered under `"module.function"`.
    pub fn has_function(&self, module: &str, function: &str) -> (r: bool)
        ensures
            r == self@.contains_key(full_key(module@, function@)),
    {
        let mut key: String = module.to_owned();
        key.append(".");
        key.append(function);
        assert(key@ == full_key(module@, function@));
        proof {
            lemma_assoc_contains(self.functions@, key@);
        }
        assoc_find(&self.functions, &key).is_some()
    }

    /// The full table: each pair is a registered key with its signature,
    /// each key once, and every registered key appears.
    pub fn get_all_functions(&self) -> (r: &Vec<(String, String)>)
        requires
            self.well_formed(),
        ensures
            forall|i: int| 0 <= i < r@.len()
                ==> self@.contains_key(#[trigger] r@[i].0@) && self@[r@[i].0@] == r@[i].1,
            forall|i: int, j: int| 0 <= i < j < r@.len() ==> r@[i].0@ != r@[j].0@,
            forall|k: Seq<char>| self@.contains_key(k)
                ==> exists|i: int| 0 <= i < r@.len() && #[trigger] r@[i].0@ == k,
    {
        proof {
            assert forall|i: int| 0 <= i < self.functions@.len()
                implies self@.contains_key(#[trigger] self.functions@[i].0@)
                    && self@[self.functions@[i].0@] == self.functions@[i].1 by {
                lemma_assoc_lookup(self.functions@, i);
            }
            assert forall|k: Seq<char>| self@.contains_key(k)
                implies exists|i: int|
                    0 <= i < self.functions@.len() && #[trigger] self.functions@[i].0@ == k by {
                lemma_assoc_contains(self.functions@, k);
            }
        }
        &self.functions
    }
}

/// Law: after a registration the key is bound; registering an existing key
/// overwrites its binding and adds no entry; any other key is bound as
/// before.  The premises are exactly what `register` ensures of the
/// registry's map.
pub proof fn lemma_register_effect<V>(
    before: Map<Seq<char>, V>,
    after: Map<Seq<char>, V>,
    key: Seq<char>,
)
    requires
        after.dom() == before.dom().insert(key),
        forall|k: Seq<char>| k != key && before.contains_key(k)
            ==> after.contains_key(k) && after[k] == before[k],
    ensures
        after.contains_key(key),
        before.contains_key(key) ==> after.dom() == before.dom(),
        forall|k: Seq<char>| k != key && !before.contains_key(k) ==> !after.contains_key(k),
{
    if before.contains_key(key) {
        assert(after.dom() =~= before.dom());
    }
    assert forall|k: Seq<char>| k != key && !before.contains_key(k)
        implies !after.contains_key(k) by {
        assert(!before.dom().insert(key).contains(k));
    }
}

} // verus!
