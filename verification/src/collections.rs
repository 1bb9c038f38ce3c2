//! Specialised containers: a counting table, a double-ended queue, a
//! defaulting dictionary, an insertion-ordered dictionary and a layered
//! map view.

use vstd::prelude::*;
use vstd::std_specs::cmp::PartialEqSpec;
use std::collections::VecDeque;
use crate::assoc::assoc_find;
use crate::assoc::assoc_map;
use crate::assoc::keys_distinct;
use crate::assoc::lemma_assoc_contains;
use crate::assoc::lemma_assoc_lookup;
use crate::assoc::lemma_assoc_not_contains_absent;
use crate::assoc::lemma_assoc_push;
use crate::assoc::lemma_assoc_remove;
use crate::caps::Len;
use crate::caps::Truthy;
use crate::exceptions::PyException;
use crate::exceptions::key_error;
use crate::exceptions::value_error;

verus! {

/// A table counting occurrences of string keys; only positive counts are
/// kept.
#[derive(Debug, Clone)]
pub struct Counter {
    counts: Vec<(String, i64)>,
}

impl View for Counter {
    type V = Map<Seq<char>, i64>;

    closed spec fn view(&self) -> Map<Seq<char>, i64> {
        assoc_map(self.counts@)
    }
}

/// The count a map holds for a key, zero when absent.
pub open spec fn count_of(m: Map<Seq<char>, i64>, k: Seq<char>) -> int {
    if m.contains_key(k) {
        m[k] as int
    } else {
        0
    }
}

/// The counts after tallying each item of `items` once, in order.
pub open spec fn tally(m: Map<Seq<char>, i64>, items: Seq<String>, i: int) -> Map<Seq<char>, i64>
    decreases items.len() - i,
{
    if i < 0 || i >= items.len() {
        m
    } else {
        tally(m.insert(items[i]@, (count_of(m, items[i]@) + 1) as i64), items, i + 1)
    }
}

/// Sum of the counts in an entry list.
pub open spec fn counts_total(s: Seq<(String, i64)>) -> int
    decreases s.len(),
{
    if s.len() == 0 {
        0
    } else {
        counts_total(s.drop_last()) + s.last().1
    }
}

impl Counter {
    /// Keys unique and every kept count positive: established by `new` and
    /// kept by every method.
    pub closed spec fn well_formed(&self) -> bool {
        keys_distinct(self.counts@) && forall|i: int|
            0 <= i < self.counts@.len() ==> (#[trigger] self.counts@[i]).1 > 0
    }

    /// The entry list behind the counter, keys unique, counts positive.
    pub closed spec fn spec_entries(&self) -> Seq<(String, i64)> {
        self.counts@
    }

    /// An empty counter.
    pub fn new() -> (r: Counter)
        ensures
            r@ == Map::<Seq<char>, i64>::empty(),
            r.well_formed(),
    {
        Counter { counts: Vec::new() }
    }

    /// Count each item of the buffer once.
    pub fn from_iter(iterable: Vec<String>) -> (r: Counter)
        requires
            iterable@.len() < i64::MAX,
        ensures
            r@ == tally(Map::<Seq<char>, i64>::empty(), iterable@, 0),
            r.well_formed(),
    {
        let mut counter = Counter::new();
        counter.update(iterable);
        counter
    }

    /// Tally each item of the buffer once more.
    pub fn update(&mut self, iterable: Vec<String>)
        requires
            old(self).well_formed(),
            iterable@.len() <= i64::MAX,
            forall|k: Seq<char>| old(self)@.contains_key(k)
                ==> #[trigger] old(self)@[k] <= i64::MAX - iterable@.len(),
        ensures
            final(self).well_formed(),
            final(self)@ == tally(old(self)@, iterable@, 0),
    {
        let n = iterable.len();
        let mut i: usize = 0;
        while i < n
            invariant
                n == iterable@.len(),
                n <= i64::MAX,
                i <= n,
                self.well_formed(),
                self@ == tally(old(self)@, iterable@.take(i as int), 0),
                forall|k: Seq<char>| self@.contains_key(k)
                    ==> #[trigger] self@[k] <= i64::MAX - (n - i),
            decreases n - i,
        {
            let ghost before = self@;
            proof {
                lemma_tally_take_step(old(self)@, iterable@, i as int);
                lemma_counter_wf_bounds(self, iterable@[i as int]@);
            }
            self.update_one(&iterable[i], 1);
            proof {
                let key = iterable@[i as int]@;
                assert forall|k: Seq<char>| self@.contains_key(k)
                    implies #[trigger] self@[k] <= i64::MAX - (n - (i + 1)) by {
                    if k == key {
                        assert(self@[k] as int == count_of(before, key) + 1);
                    } else {
                        assert(self@[k] == before[k] && before.contains_key(k));
                    }
                }
            }
            i += 1;
        }
        assert(iterable@.take(n as int) =~= iterable@);
    }

    /// Add `count` to one key's tally; a tally that drops to zero or below
    /// is removed.
    pub fn update_one(&mut self, element: &String, count: i64)
        requires
            old(self).well_formed(),
            i64::MIN < count_of(old(self)@, element@) + count <= i64::MAX,
        ensures
            final(self).well_formed(),
            final(self)@ == if count_of(old(self)@, element@) + count > 0 {
                old(self)@.insert(element@, (count_of(old(self)@, element@) + count) as i64)
            } else {
                old(self)@.remove(element@)
            },
    {
        let ghost before = self.counts@;
        let mut newc: i64 = count;
        match assoc_find(&self.counts, element) {
            Some(i) => {
                proof {
                    lemma_assoc_lookup(before, i as int);
                    lemma_assoc_remove(before, i as int);
                }
                newc = self.counts[i].1 + count;
                self.counts.remove(i);
                proof {
                    assert forall|t: int| 0 <= t < self.counts@.len()
                        implies (#[trigger] self.counts@[t]).0@ != element@ by {
                        if t < i {
                            assert(self.counts@[t] == before[t]);
                        } else {
                            assert(self.counts@[t] == before[t + 1]);
                        }
                    }
                    assert forall|t: int| 0 <= t < self.counts@.len()
                        implies (#[trigger] self.counts@[t]).1 > 0 by {
                        if t < i {
                            assert(self.counts@[t] == before[t]);
                        } else {
                            assert(self.counts@[t] == before[t + 1]);
                        }
                    }
                }
            }
            None => {
                proof {
                    lemma_assoc_not_contains_absent(before, element@);
                }
            }
        }
        let ghost mid = self.counts@;
        assert(forall|t: int| 0 <= t < mid.len() ==> (#[trigger] mid[t]).0@ != element@);
        assert(assoc_map(mid) =~= old(self)@.remove(element@));
        if newc > 0 {
            let entry = (element.clone(), newc);
            proof {
                lemma_assoc_push(mid, entry);
                assert forall|a: int, b: int| 0 <= a < b < mid.push(entry).len()
                    implies mid.push(entry)[a].0@ != mid.push(entry)[b].0@ by {
                    if b < mid.len() {
                        assert(mid.push(entry)[a] == mid[a]);
                        assert(mid.push(entry)[b] == mid[b]);
                    } else {
                        assert(mid.push(entry)[a] == mid[a]);
                        assert(mid.push(entry)[b] == entry);
                    }
                }
                assert forall|t: int| 0 <= t < mid.push(entry).len()
                    implies (#[trigger] mid.push(entry)[t]).1 > 0 by {
                    if t < mid.len() {
                        assert(mid.push(entry)[t] == mid[t]);
                    } else {
                        assert(mid.push(entry)[t] == entry);
                    }
                }
            }
            self.counts.push(entry);
            proof {
                assert(final(self)@ =~= old(self)@.insert(element@, newc));
            }
        } else {
            proof {
                assert(final(self)@ =~= old(self)@.remove(element@));
            }
        }
    }

    /// The tally for a key, zero when it was never counted.
    pub fn get(&self, element: &String) -> (r: i64)
        requires
            self.well_formed(),
        ensures
            r as int == count_of(self@, element@),
    {
        match assoc_find(&self.counts, element) {
            Some(i) => {
                proof {
                    lemma_assoc_lookup(self.counts@, i as int);
                }
                self.counts[i].1
            }
            None => {
                proof {
                    lemma_assoc_not_contains_absent(self.counts@, element@);
                }
                0
            }
        }
    }

    /// Subtract another counter's tallies from this one, key by key.
    pub fn subtract(&mut self, other: &Counter)
        requires
            old(self).well_formed(),
            other.well_formed(),
        ensures
            final(self).well_formed(),
            final(self)@ == sub_entries(old(self)@, other.spec_entries()),
    {
        let n = other.counts.len();
        let mut i: usize = 0;
        while i < n
            invariant
                n == other.counts@.len(),
                i <= n,
                self.well_formed(),
                other.well_formed(),
                other.spec_entries() == other.counts@,
                self@ == sub_entries_upto(old(self)@, other.counts@, i as int),
            decreases n - i,
        {
            let ghost before = self@;
            proof {
                assert(other.counts@[i as int].1 > 0);
                lemma_counter_wf_bounds(self, other.counts@[i as int].0@);
            }
            let c = other.counts[i].1;
            self.update_one(&other.counts[i].0, -c);
            i += 1;
        }
    }

    /// The total of every tally.
    pub fn total(&self) -> (r: i64)
        requires
            self.well_formed(),
            counts_total(self.spec_entries()) <= i64::MAX,
        ensures
            r as int == counts_total(self.spec_entries()),
    {
        let mut acc: i64 = 0;
        let mut i: usize = 0;
        assert(self.counts@.take(0) =~= Seq::<(String, i64)>::empty());
        while i < self.counts.len()
            invariant
                i <= self.counts@.len(),
                self.well_formed(),
                counts_total(self.counts@) <= i64::MAX,
                acc as int == counts_total(self.counts@.take(i as int)),
            decreases self.counts@.len() - i,
        {
            proof {
                assert(self.counts@.take(i + 1).drop_last() =~= self.counts@.take(i as int));
                lemma_counts_total_bounds(self.counts@, i + 1);
            }
            acc = acc + self.counts[i].1;
            i += 1;
        }
        assert(self.counts@.take(self.counts@.len() as int) =~= self.counts@);
        acc
    }

    /// Remove every tally.
    pub fn clear(&mut self)
        ensures
            final(self)@ == Map::<Seq<char>, i64>::empty(),
            final(self).well_formed(),
    {
        self.counts.clear();
    }

    /// The counted keys, in first-counted order.
    pub fn keys(&self) -> (r: Vec<String>)
        ensures
            r@.map_values(|s: String| s@)
                == self.spec_entries().map_values(|kv: (String, i64)| kv.0@),
    {
        let mut out: Vec<String> = Vec::new();
        let mut i: usize = 0;
        while i < self.counts.len()
            invariant
                i <= self.counts@.len(),
                out@.len() == i,
                forall|t: int| 0 <= t < i ==> (#[trigger] out@[t])@ == self.counts@[t].0@,
            decreases self.counts@.len() - i,
        {
            out.push(self.counts[i].0.clone());
            i += 1;
        }
        proof {
            assert(out@.map_values(|s: String| s@)
                =~= self.counts@.map_values(|kv: (String, i64)| kv.0@));
        }
        out
    }

    /// The tallies, in the keys' order.
    pub fn values(&self) -> (r: Vec<i64>)
        ensures
            r@ == self.spec_entries().map_values(|kv: (String, i64)| kv.1),
    {
        let mut out: Vec<i64> = Vec::new();
        let mut i: usize = 0;
        while i < self.counts.len()
            invariant
                i <= self.counts@.len(),
                out@.len() == i,
                forall|t: int| 0 <= t < i ==> #[trigger] out@[t] == self.counts@[t].1,
            decreases self.counts@.len() - i,
        {
            out.push(self.counts[i].1);
            i += 1;
        }
        proof {
            assert(out@ =~= self.spec_entries().map_values(|kv: (String, i64)| kv.1));
        }
        out
    }

    /// The `(key, tally)` pairs, in the keys' order.
    pub fn items(&self) -> (r: Vec<(String, i64)>)
        ensures
            r@.map_values(|kv: (String, i64)| (kv.0@, kv.1))
                == self.spec_entries().map_values(|kv: (String, i64)| (kv.0@, kv.1)),
    {
        let mut out: Vec<(String, i64)> = Vec::new();
        let mut i: usize = 0;
        while i < self.counts.len()
            invariant
                i <= self.counts@.len(),
                out@.len() == i,
                forall|t: int| 0 <= t < i ==> (#[trigger] out@[t]).0@ == self.counts@[t].0@
                    && out@[t].1 == self.counts@[t].1,
            decreases self.counts@.len() - i,
        {
            out.push((self.counts[i].0.clone(), self.counts[i].1));
            i += 1;
        }
        proof {
            assert(out@.map_values(|kv: (String, i64)| (kv.0@, kv.1))
                =~= self.spec_entries().map_values(|kv: (String, i64)| (kv.0@, kv.1)));
        }
        out
    }

    /// Each key repeated its tally many times, keys in order.
    pub fn elements(&self) -> (r: Vec<String>)
        requires
            self.well_formed(),
        ensures
            r@.map_values(|s: String| s@) == elements_spec(self.spec_entries()),
    {
        let mut out: Vec<String> = Vec::new();
        let mut i: usize = 0;
        proof {
            assert(elements_upto(self.counts@, 0) =~= Seq::<Seq<char>>::empty());
        }
        while i < self.counts.len()
            invariant
                i <= self.counts@.len(),
                self.well_formed(),
                out@.map_values(|s: String| s@) == elements_upto(self.counts@, i as int),
            decreases self.counts@.len() - i,
        {
            let cnt = self.counts[i].1;
            assert(cnt > 0);
            let mut k: i64 = 0;
            let ghost out_before = out@.map_values(|s: String| s@);
            while k < cnt
                invariant
                    0 <= k <= cnt,
                    i < self.counts@.len(),
                    out@.map_values(|s: String| s@)
                        == out_before + key_repeats(self.counts@[i as int].0@, k as int),
                decreases cnt - k,
            {
                let ghost cur = out@.map_values(|s: String| s@);
                out.push(self.counts[i].0.clone());
                proof {
                    lemma_key_repeats_snoc(self.counts@[i as int].0@, k as int);
                    assert(out@.map_values(|s: String| s@) =~= cur.push(self.counts@[i as int].0@));
                    assert(out_before + key_repeats(self.counts@[i as int].0@, k + 1)
                        =~= cur.push(self.counts@[i as int].0@));
                }
                k += 1;
            }
            proof {
                assert(out@.map_values(|s: String| s@) =~= elements_upto(self.counts@, i + 1));
            }
            i += 1;
        }
        out
    }

    /// The sorted `(key, tally)` pairs, largest tallies first, ties by key
    /// order, cut to `n` entries when a limit is given.
    pub fn most_common(&self, n: Option<usize>) -> (r: Vec<(String, i64)>)
        ensures
            ({
                let pairs = r@.map_values(|kv: (String, i64)| (kv.0@, kv.1));
                &&& forall|a: int, b: int| 0 <= a < b < pairs.len()
                    ==> most_common_le(#[trigger] pairs[a], #[trigger] pairs[b])
                &&& match n {
                    Some(limit) => pairs.len()
                        == vstd::math::min(limit as int, self.spec_entries().len() as int),
                    None => pairs.len() == self.spec_entries().len(),
                }
                &&& forall|a: int| 0 <= a < pairs.len()
                    ==> pair_in(self.spec_entries(), #[trigger] pairs[a])
            }),
    {
        // selection sort into a fresh buffer, most-common first
        let mut work: Vec<(String, i64)> = Vec::new();
        let mut i: usize = 0;
        while i < self.counts.len()
            invariant
                i <= self.counts@.len(),
                work@.len() == i,
                forall|t: int| 0 <= t < i ==> ((#[trigger] work@[t]).0@, work@[t].1)
                    == (self.counts@[t].0@, self.counts@[t].1),
            decreases self.counts@.len() - i,
        {
            work.push((self.counts[i].0.clone(), self.counts[i].1));
            i += 1;
        }
        let ghost entries = self.counts@;
        proof {
            assert forall|a: int| 0 <= a < work@.len()
                implies pair_in(entries, ((#[trigger] work@[a]).0@, work@[a].1)) by {
                lemma_pair_in(entries, a);
                assert((entries[a].0@, entries[a].1) == (work@[a].0@, work@[a].1));
            }
        }
        let mut out: Vec<(String, i64)> = Vec::new();
        while work.len() > 0
            invariant
                forall|a: int, b: int| 0 <= a < b < out@.len()
                    ==> most_common_le(
                        ((#[trigger] out@[a]).0@, out@[a].1),
                        ((#[trigger] out@[b]).0@, out@[b].1),
                    ),
                forall|a: int, b: int| 0 <= a < out@.len() && 0 <= b < work@.len()
                    ==> most_common_le(
                        ((#[trigger] out@[a]).0@, out@[a].1),
                        ((#[trigger] work@[b]).0@, work@[b].1),
                    ),
                out@.len() + work@.len() == entries.len(),
                forall|a: int| 0 <= a < out@.len()
                    ==> pair_in(entries, ((#[trigger] out@[a]).0@, out@[a].1)),
                forall|a: int| 0 <= a < work@.len()
                    ==> pair_in(entries, ((#[trigger] work@[a]).0@, work@[a].1)),
            decreases work@.len(),
        {
            // pick the most-common remaining entry
            let mut best: usize = 0;
            let mut j: usize = 1;
            proof {
                lemma_most_common_refl((work@[0].0@, work@[0].1));
            }
            while j < work.len()
                invariant
                    work@.len() > 0,
                    best < work@.len(),
                    j <= work@.len(),
                    forall|t: int| 0 <= t < j
                        ==> most_common_le(
                            (work@[best as int].0@, work@[best as int].1),
                            ((#[trigger] work@[t]).0@, work@[t].1),
                        ),
                decreases work@.len() - j,
            {
                let ghost ob = (work@[best as int].0@, work@[best as int].1);
                let ghost nb = (work@[j as int].0@, work@[j as int].1);
                if !better_or_equal(&work[best], &work[j]) {
                    proof {
                        lemma_most_common_total(ob, nb);
                        assert(most_common_le(nb, ob));
                    }
                    best = j;
                    proof {
                        lemma_most_common_refl(nb);
                        assert forall|t: int| 0 <= t < j + 1
                            implies most_common_le(
                                nb,
                                ((#[trigger] work@[t]).0@, work@[t].1),
                            ) by {
                            if t < j {
                                lemma_most_common_trans(nb, ob, (work@[t].0@, work@[t].1));
                            }
                        }
                    }
                } else {
                    proof {
                        lemma_most_common_refl(ob);
                    }
                }
                j += 1;
            }
            let ghost wbefore = work@;
            let picked = work.remove(best);
            out.push(picked);
            proof {
                assert forall|a: int| 0 <= a < work@.len()
                    implies pair_in(entries, ((#[trigger] work@[a]).0@, work@[a].1)) by {
                    if a < best {
                        assert(work@[a] == wbefore[a]);
                    } else {
                        assert(work@[a] == wbefore[a + 1]);
                    }
                }
                assert(out@[out@.len() - 1] == wbefore[best as int]);
                assert forall|a: int, b: int| 0 <= a < out@.len() && 0 <= b < work@.len()
                    implies most_common_le(
                        ((#[trigger] out@[a]).0@, out@[a].1),
                        ((#[trigger] work@[b]).0@, work@[b].1),
                    ) by {
                    let b2 = if b < best { b } else { b + 1 };
                    assert(work@[b] == wbefore[b2]);
                    if a == out@.len() - 1 {
                        assert(out@[a] == wbefore[best as int]);
                    }
                }
            }
        }
        match n {
            Some(limit) => {
                let ghost full = out@;
                if limit < out.len() {
                    out.truncate(limit);
                }
                proof {
                    assert forall|a: int| 0 <= a < out@.len()
                        implies pair_in(entries, ((#[trigger] out@[a]).0@, out@[a].1)) by {
                        assert(out@[a] == full[a]);
                    }
                }
                out
            }
            None => out,
        }
    }
}

/// Whether some entry carries exactly this `(key, tally)` pair.
pub open spec fn pair_in(entries: Seq<(String, i64)>, p: (Seq<char>, i64)) -> bool {
    exists|b: int| 0 <= b < entries.len() && ((#[trigger] entries[b]).0@, entries[b].1) == p
}

proof fn lemma_pair_in(entries: Seq<(String, i64)>, b: int)
    requires
        0 <= b < entries.len(),
    ensures
        pair_in(entries, (entries[b].0@, entries[b].1)),
{
    assert((entries[b].0@, entries[b].1) == (entries[b].0@, entries[b].1));
}

/// The order `most_common` lists pairs in: larger tallies first, equal
/// tallies by key order.
pub open spec fn most_common_le(a: (Seq<char>, i64), b: (Seq<char>, i64)) -> bool {
    a.1 > b.1 || (a.1 == b.1 && crate::json::lex_le(a.0, b.0))
}

/// The order is reflexive.
pub proof fn lemma_most_common_refl(a: (Seq<char>, i64))
    ensures
        most_common_le(a, a),
{
    lemma_lex_refl(a.0);
}

/// Key order is reflexive.
pub proof fn lemma_lex_refl(a: Seq<char>)
    ensures
        crate::json::lex_le(a, a),
    decreases a.len(),
{
    if a.len() > 0 {
        lemma_lex_refl(a.skip(1));
    }
}

/// The order is total.
pub proof fn lemma_most_common_total(a: (Seq<char>, i64), b: (Seq<char>, i64))
    ensures
        most_common_le(a, b) || most_common_le(b, a),
{
    lemma_lex_total(a.0, b.0);
}

/// The order is transitive.
pub proof fn lemma_most_common_trans(a: (Seq<char>, i64), b: (Seq<char>, i64), c: (Seq<char>, i64))
    requires
        most_common_le(a, b),
        most_common_le(b, c),
    ensures
        most_common_le(a, c),
{
    if a.1 == b.1 && b.1 == c.1 {
        lemma_lex_trans(a.0, b.0, c.0);
    }
}

/// Key order is total.
pub proof fn lemma_lex_total(a: Seq<char>, b: Seq<char>)
    ensures
        crate::json::lex_le(a, b) || crate::json::lex_le(b, a),
    decreases a.len(),
{
    if a.len() > 0 && b.len() > 0 && a[0] == b[0] {
        lemma_lex_total(a.skip(1), b.skip(1));
    }
}

/// Key order is transitive.
pub proof fn lemma_lex_trans(a: Seq<char>, b: Seq<char>, c: Seq<char>)
    requires
        crate::json::lex_le(a, b),
        crate::json::lex_le(b, c),
    ensures
        crate::json::lex_le(a, c),
    decreases a.len(),
{
    if a.len() > 0 && b.len() > 0 && c.len() > 0 && a[0] == b[0] && b[0] == c[0] {
        lemma_lex_trans(a.skip(1), b.skip(1), c.skip(1));
    }
}

/// Exec test of the `most_common` order.
fn better_or_equal(a: &(String, i64), b: &(String, i64)) -> (r: bool)
    ensures
        r == most_common_le((a.0@, a.1), (b.0@, b.1)),
{
    if a.1 > b.1 {
        true
    } else if a.1 == b.1 {
        let ka = crate::strutil::str_to_chars(a.0.as_str());
        let kb = crate::strutil::str_to_chars(b.0.as_str());
        crate::json::lex_le_exec(&ka, &kb)
    } else {
        false
    }
}

/// One key repeated `n` times.
pub open spec fn key_repeats(k: Seq<char>, n: int) -> Seq<Seq<char>>
    decreases n,
{
    if n <= 0 {
        Seq::empty()
    } else {
        key_repeats(k, n - 1).push(k)
    }
}

proof fn lemma_key_repeats_snoc(k: Seq<char>, n: int)
    requires
        n >= 0,
    ensures
        key_repeats(k, n + 1) == key_repeats(k, n).push(k),
{
}

/// Every key of the first `i` entries, each repeated its tally many times.
pub open spec fn elements_upto(s: Seq<(String, i64)>, i: int) -> Seq<Seq<char>>
    decreases i,
{
    if i <= 0 {
        Seq::empty()
    } else {
        elements_upto(s, i - 1) + key_repeats(s[i - 1].0@, s[i - 1].1 as int)
    }
}

/// Every key, repeated its tally many times, keys in order.
pub open spec fn elements_spec(s: Seq<(String, i64)>) -> Seq<Seq<char>> {
    elements_upto(s, s.len() as int)
}

/// The counter after subtracting the first `i` entries of `other`.
pub open spec fn sub_entries_upto(
    m: Map<Seq<char>, i64>,
    other: Seq<(String, i64)>,
    i: int,
) -> Map<Seq<char>, i64>
    decreases i,
{
    if i <= 0 {
        m
    } else {
        ({
            let prev = sub_entries_upto(m, other, i - 1);
            let k = other[i - 1].0@;
            let newc = count_of(prev, k) - other[i - 1].1;
            if newc > 0 {
                prev.insert(k, newc as i64)
            } else {
                prev.remove(k)
            }
        })
    }
}

/// The counter after subtracting every entry of `other`.
pub open spec fn sub_entries(m: Map<Seq<char>, i64>, other: Seq<(String, i64)>) -> Map<
    Seq<char>,
    i64,
> {
    sub_entries_upto(m, other, other.len() as int)
}

/// A well-formed counter's tallies stay clear of the integer limits under
/// one subtraction step.
proof fn lemma_counter_wf_bounds(c: &Counter, k: Seq<char>)
    requires
        c.well_formed(),
    ensures
        c@.contains_key(k) ==> 0 < c@[k],
{
    lemma_assoc_contains(c.spec_entries(), k);
    if c@.contains_key(k) {
        let i = choose|i: int| 0 <= i < c.spec_entries().len()
            && c.spec_entries()[i].0@ == k;
        lemma_assoc_lookup(c.spec_entries(), i);
    }
}

/// The tallies of a well-formed counter are bounded by the total.
proof fn lemma_counts_total_bounds(s: Seq<(String, i64)>, i: int)
    requires
        0 <= i <= s.len(),
        forall|t: int| 0 <= t < s.len() ==> (#[trigger] s[t]).1 > 0,
    ensures
        counts_total(s.take(i)) <= counts_total(s),
        counts_total(s.take(i)) >= 0,
    decreases s.len() - i,
{
    assert(forall|t: int| 0 <= t < s.take(i).len() ==> (#[trigger] s.take(i)[t]).1 > 0);
    lemma_counts_total_nonneg(s.take(i));
    if i < s.len() {
        lemma_counts_total_bounds(s, i + 1);
        assert(s.take(i + 1).drop_last() =~= s.take(i));
    } else {
        assert(s.take(i) =~= s);
    }
}

proof fn lemma_counts_total_nonneg(s: Seq<(String, i64)>)
    requires
        forall|t: int| 0 <= t < s.len() ==> (#[trigger] s[t]).1 > 0,
    ensures
        counts_total(s) >= 0,
    decreases s.len(),
{
    if s.len() > 0 {
        assert(forall|t: int| 0 <= t < s.drop_last().len()
            ==> (#[trigger] s.drop_last()[t]).1 > 0);
        lemma_counts_total_nonneg(s.drop_last());
    }
}

/// Tallying one more item steps the prefix tally.
proof fn lemma_tally_take_step(m: Map<Seq<char>, i64>, items: Seq<String>, i: int)
    requires
        0 <= i < items.len(),
    ensures
        tally(m, items.take(i + 1), 0) == tally(
            tally(m, items.take(i), 0),
            items,
            i,
        ).union_prefer_right(Map::empty()) || tally(m, items.take(i + 1), 0) == tally_step(
            tally(m, items.take(i), 0),
            items[i],
        ),
        tally(m, items.take(i + 1), 0) == tally_step(tally(m, items.take(i), 0), items[i]),
    decreases i,
{
    lemma_tally_append(m, items.take(i), items[i]);
    assert(items.take(i + 1) =~= items.take(i).push(items[i]));
}

/// One tally step.
pub open spec fn tally_step(m: Map<Seq<char>, i64>, item: String) -> Map<Seq<char>, i64> {
    m.insert(item@, (count_of(m, item@) + 1) as i64)
}

proof fn lemma_tally_append(m: Map<Seq<char>, i64>, items: Seq<String>, x: String)
    ensures
        tally(m, items.push(x), 0) == tally_step(tally(m, items, 0), x),
    decreases items.len(),
{
    lemma_tally_append_from(m, items, x, 0);
}

proof fn lemma_tally_append_from(m: Map<Seq<char>, i64>, items: Seq<String>, x: String, i: int)
    requires
        0 <= i <= items.len(),
    ensures
        tally(m, items.push(x), i) == tally_step(tally(m, items, i), x),
    decreases items.len() - i,
{
    if i == items.len() {
        assert(items.push(x)[i] == x);
        let m2 = m.insert(x@, (count_of(m, x@) + 1) as i64);
        assert(tally(m2, items.push(x), i + 1) == m2);
        assert(tally(m, items, i) == m);
    } else {
        assert(items.push(x)[i] == items[i]);
        lemma_tally_append_from(
            m.insert(items[i]@, (count_of(m, items[i]@) + 1) as i64),
            items,
            x,
            i + 1,
        );
    }
}


/// A double-ended queue, optionally bounded: appends beyond the bound
/// discard elements from the far end.
#[derive(Debug, Clone)]
pub struct deque<T> {
    inner: VecDeque<T>,
    maxlen: Option<usize>,
}

impl<T> View for deque<T> {
    type V = Seq<T>;

    closed spec fn view(&self) -> Seq<T> {
        self.inner@
    }
}

impl<T> deque<T> {
    /// The bound the deque was created with.
    pub closed spec fn spec_maxlen(&self) -> Option<usize> {
        self.maxlen
    }

    /// Within the bound, when there is one.
    pub open spec fn well_formed(&self) -> bool {
        match self.spec_maxlen() {
            Some(m) => self@.len() <= m,
            None => true,
        }
    }

    /// An empty unbounded deque.
    pub fn new() -> (r: deque<T>)
        ensures
            r@ == Seq::<T>::empty(),
            r.spec_maxlen() is None,
            r.well_formed(),
    {
        deque { inner: VecDeque::new(), maxlen: None }
    }

    /// An empty deque with a bound.
    pub fn with_maxlen(maxlen: usize) -> (r: deque<T>)
        ensures
            r@ == Seq::<T>::empty(),
            r.spec_maxlen() == Some(maxlen),
            r.well_formed(),
    {
        deque { inner: VecDeque::new(), maxlen: Some(maxlen) }
    }

    /// A deque holding the buffer's elements, oldest elements discarded
    /// from the front when a bound is given.
    pub fn from_iter(iterable: Vec<T>, maxlen: Option<usize>) -> (r: deque<T>)
        ensures
            r.spec_maxlen() == maxlen,
            r.well_formed(),
            r@ == match maxlen {
                None => iterable@,
                Some(m) => if iterable@.len() <= m {
                    iterable@
                } else {
                    iterable@.skip(iterable@.len() - m)
                },
            },
    {
        let mut dq = deque { inner: VecDeque::new(), maxlen };
        let mut rest = iterable;
        let ghost orig = rest@;
        let _len_fact = rest.len();
        let mut i: usize = 0;
        while rest.len() > 0
            invariant
                orig.len() <= usize::MAX,
                i + rest@.len() == orig.len(),
                rest@ == orig.skip(i as int),
                dq.spec_maxlen() == maxlen,
                dq.well_formed(),
                dq@ == match maxlen {
                    None => orig.take(i as int),
                    Some(m) => if i <= m {
                        orig.take(i as int)
                    } else {
                        orig.take(i as int).skip(i - m)
                    },
                },
            decreases rest@.len(),
        {
            let ghost before = rest@;
            let x = rest.remove(0);
            proof {
                assert(before.subrange(1, before.len() as int) =~= orig.skip(i + 1));
            }
            dq.append(x);
            proof {
                match maxlen {
                    None => {
                        assert(dq@ =~= orig.take(i + 1));
                    }
                    Some(m) => {
                        if i + 1 <= m {
                            assert(dq@ =~= orig.take(i + 1));
                        } else if i <= m {
                            assert(dq@ =~= orig.take(i + 1).skip(i + 1 - m));
                        } else {
                            assert(dq@ =~= orig.take(i + 1).skip(i + 1 - m));
                        }
                    }
                }
            }
            i += 1;
        }
        proof {
            assert(orig.take(orig.len() as int) =~= orig);
            match maxlen {
                None => {}
                Some(m) => {
                    if orig.len() > m {
                        assert(orig.take(orig.len() as int).skip(orig.len() - m)
                            =~= orig.skip(orig.len() - m));
                    }
                }
            }
        }
        dq
    }

    /// Add at the right end; over the bound, the leftmost element leaves.
    pub fn append(&mut self, item: T)
        requires
            old(self).well_formed(),
        ensures
            final(self).spec_maxlen() == old(self).spec_maxlen(),
            final(self).well_formed(),
            final(self)@ == match old(self).spec_maxlen() {
                None => old(self)@.push(item),
                Some(m) => if old(self)@.len() < m {
                    old(self)@.push(item)
                } else if m > 0 {
                    old(self)@.push(item).skip(1)
                } else {
                    old(self)@
                },
            },
    {
        match self.maxlen {
            None => {
                self.inner.push_back(item);
            }
            Some(m) => {
                if self.inner.len() < m {
                    self.inner.push_back(item);
                } else if m > 0 {
                    let ghost before = self.inner@;
                    self.inner.push_back(item);
                    self.inner.pop_front();
                    proof {
                        assert(self.inner@ =~= before.push(item).skip(1));
                    }
                } else {
                }
            }
        }
    }

    /// Add at the left end; over the bound, the rightmost element leaves.
    pub fn appendleft(&mut self, item: T)
        requires
            old(self).well_formed(),
        ensures
            final(self).spec_maxlen() == old(self).spec_maxlen(),
            final(self).well_formed(),
            final(self)@ == match old(self).spec_maxlen() {
                None => seq![item] + old(self)@,
                Some(m) => if old(self)@.len() < m {
                    seq![item] + old(self)@
                } else if m > 0 {
                    (seq![item] + old(self)@).take(m as int)
                } else {
                    old(self)@
                },
            },
    {
        match self.maxlen {
            None => {
                self.inner.push_front(item);
                assert(final(self)@ =~= seq![item] + old(self)@);
            }
            Some(m) => {
                if self.inner.len() < m {
                    self.inner.push_front(item);
                    assert(final(self)@ =~= seq![item] + old(self)@);
                } else if m > 0 {
                    let ghost before = self.inner@;
                    self.inner.push_front(item);
                    self.inner.pop_back();
                    proof {
                        assert(self.inner@ =~= (seq![item] + before).take(m as int));
                    }
                } else {
                }
            }
        }
    }

    /// Remove and return the rightmost element.
    pub fn pop(&mut self) -> (r: Option<T>)
        ensures
            final(self).spec_maxlen() == old(self).spec_maxlen(),
            match r {
                Some(x) => old(self)@.len() > 0 && x == old(self)@.last()
                    && final(self)@ == old(self)@.drop_last(),
                None => old(self)@.len() == 0 && final(self)@ == old(self)@,
            },
    {
        let r = self.inner.pop_back();
        proof {
            if old(self)@.len() > 0 {
                assert(self.inner@ =~= old(self)@.drop_last());
            }
        }
        r
    }

    /// Remove and return the leftmost element.
    pub fn popleft(&mut self) -> (r: Option<T>)
        ensures
            final(self).spec_maxlen() == old(self).spec_maxlen(),
            match r {
                Some(x) => old(self)@.len() > 0 && x == old(self)@[0]
                    && final(self)@ == old(self)@.skip(1),
                None => old(self)@.len() == 0 && final(self)@ == old(self)@,
            },
    {
        let r = self.inner.pop_front();
        proof {
            if old(self)@.len() > 0 {
                assert(self.inner@ =~= old(self)@.skip(1));
            }
        }
        r
    }

    /// Append each element of the buffer at the right end, in order.
    pub fn extend(&mut self, iterable: Vec<T>)
        requires
            old(self).well_formed(),
        ensures
            final(self).spec_maxlen() == old(self).spec_maxlen(),
            final(self).well_formed(),
            old(self).spec_maxlen() is None
                ==> final(self)@ == old(self)@ + iterable@,
    {
        let mut rest = iterable;
        let ghost orig = rest@;
        let _len_fact = rest.len();
        let mut i: usize = 0;
        while rest.len() > 0
            invariant
                orig.len() <= usize::MAX,
                i + rest@.len() == orig.len(),
                rest@ == orig.skip(i as int),
                self.spec_maxlen() == old(self).spec_maxlen(),
                self.well_formed(),
                old(self).spec_maxlen() is None
                    ==> self@ == old(self)@ + orig.take(i as int),
            decreases rest@.len(),
        {
            let ghost before = rest@;
            let x = rest.remove(0);
            proof {
                assert(before.subrange(1, before.len() as int) =~= orig.skip(i + 1));
            }
            self.append(x);
            proof {
                if old(self).spec_maxlen() is None {
                    assert(self@ =~= old(self)@ + orig.take(i + 1));
                }
            }
            i += 1;
        }
        proof {
            if old(self).spec_maxlen() is None {
                assert(old(self)@ + orig.take(orig.len() as int) =~= old(self)@ + orig);
            }
        }
    }

    /// Append each element of the buffer at the left end, one by one (so
    /// their final order is reversed).
    pub fn extendleft(&mut self, iterable: Vec<T>)
        requires
            old(self).well_formed(),
        ensures
            final(self).spec_maxlen() == old(self).spec_maxlen(),
            final(self).well_formed(),
            old(self).spec_maxlen() is None
                ==> final(self)@ == iterable@.reverse() + old(self)@,
    {
        let mut rest = iterable;
        let ghost orig = rest@;
        let _len_fact = rest.len();
        let mut i: usize = 0;
        while rest.len() > 0
            invariant
                orig.len() <= usize::MAX,
                i + rest@.len() == orig.len(),
                rest@ == orig.skip(i as int),
                self.spec_maxlen() == old(self).spec_maxlen(),
                self.well_formed(),
                old(self).spec_maxlen() is None
                    ==> self@ == orig.take(i as int).reverse() + old(self)@,
            decreases rest@.len(),
        {
            let ghost before = rest@;
            let x = rest.remove(0);
            proof {
                assert(before.subrange(1, before.len() as int) =~= orig.skip(i + 1));
            }
            self.appendleft(x);
            proof {
                if old(self).spec_maxlen() is None {
                    assert(self@ =~= orig.take(i + 1).reverse() + old(self)@);
                }
            }
            i += 1;
        }
        proof {
            if old(self).spec_maxlen() is None {
                assert(orig.take(orig.len() as int).reverse() + old(self)@
                    =~= orig.reverse() + old(self)@);
            }
        }
    }

    /// Rotate `n` steps to the right (negative rotates left): each step
    /// moves the rightmost element to the front.
    pub fn rotate(&mut self, n: i32)
        requires
            old(self)@.len() <= i32::MAX,
        ensures
            final(self).spec_maxlen() == old(self).spec_maxlen(),
            final(self)@ == if old(self)@.len() == 0 {
                old(self)@
            } else {
                ({
                    let len = old(self)@.len() as int;
                    let steps = (n as int) % len;
                    old(self)@.skip(len - steps) + old(self)@.take(len - steps)
                })
            },
    {
        if self.inner.len() == 0 {
            proof {
                assert(final(self)@ =~= old(self)@);
            }
            return;
        }
        let len_u: u64 = self.inner.len() as u64;
        let ghost glen = old(self)@.len() as int;
        let ghost gsteps = (n as int) % glen;
        let steps: u64 = if n >= 0 {
            (n as u64) % len_u
        } else {
            let m: u64 = ((-(n as i64)) as u64) % len_u;
            if m == 0 {
                0
            } else {
                len_u - m
            }
        };
        proof {
            vstd::arithmetic::div_mod::lemma_mod_bound(n as int, glen);
            if n >= 0 {
                assert(steps as int == gsteps);
            } else {
                let a = -(n as int);
                let r0 = a % glen;
                let q = a / glen;
                vstd::arithmetic::div_mod::lemma_fundamental_div_mod(a, glen);
                vstd::arithmetic::div_mod::lemma_mod_bound(a, glen);
                assert(a == glen * q + r0);
                assert(glen * (-q - 1) == -(glen * q) - glen) by (nonlinear_arith);
                assert(n as int == glen * (-q - 1) + (glen - r0));
                vstd::arithmetic::div_mod::lemma_mod_multiples_vanish(-q - 1, glen - r0, glen);
                assert((n as int) % glen == (glen - r0) % glen);
                if r0 == 0 {
                    vstd::arithmetic::div_mod::lemma_mod_self_0(glen);
                    assert(gsteps == 0);
                } else {
                    vstd::arithmetic::div_mod::lemma_small_mod((glen - r0) as nat, glen as nat);
                    assert(gsteps == glen - r0);
                }
                assert(steps as int == gsteps);
            }
        }
        assert(steps as int == gsteps && 0 <= gsteps < glen);
        let mut done: u64 = 0;
        while done < steps
            invariant
                0 <= done <= steps,
                steps as int == gsteps,
                0 <= gsteps < glen,
                glen == old(self)@.len(),
                self.spec_maxlen() == old(self).spec_maxlen(),
                self@ == old(self)@.skip(glen - done) + old(self)@.take(glen - done),
            decreases steps - done,
        {
            let ghost before = self@;
            let x = self.inner.pop_back().unwrap();
            self.inner.push_front(x);
            proof {
                assert(self.inner@ =~= seq![before.last()] + before.drop_last());
                assert(self.inner@
                    =~= old(self)@.skip(glen - (done + 1)) + old(self)@.take(glen - (done + 1)));
            }
            done += 1;
        }
    }

    /// Reverse the elements in place.
    pub fn reverse(&mut self)
        ensures
            final(self).spec_maxlen() == old(self).spec_maxlen(),
            final(self)@ == old(self)@.reverse(),
    {
        let ghost orig = self.inner@;
        let mut rebuilt: VecDeque<T> = VecDeque::new();
        proof {
            assert(orig.take(orig.len() as int) =~= orig);
            assert(orig.skip(orig.len() as int).reverse() =~= Seq::<T>::empty());
        }
        while self.inner.len() > 0
            invariant
                self.spec_maxlen() == old(self).spec_maxlen(),
                self.inner@.len() <= orig.len(),
                rebuilt@ == orig.skip(self.inner@.len() as int).reverse(),
                self.inner@ == orig.take(self.inner@.len() as int),
            decreases self.inner@.len(),
        {
            let ghost before = self.inner@;
            let x = self.inner.pop_back().unwrap();
            rebuilt.push_back(x);
            proof {
                assert(before.drop_last() =~= orig.take(before.len() - 1));
                assert(rebuilt@ =~= orig.skip(before.len() - 1).reverse());
            }
        }
        proof {
            assert(orig.skip(0) =~= orig);
        }
        self.inner = rebuilt;
        proof {
            assert(final(self)@ =~= orig.reverse());
        }
    }

    /// Insert at `index`; past the end it lands at the right end.  The
    /// bound is deliberately not enforced on insertion.
    pub fn insert(&mut self, index: usize, item: T)
        ensures
            final(self).spec_maxlen() == old(self).spec_maxlen(),
            final(self)@ == if index >= old(self)@.len() {
                old(self)@.push(item)
            } else {
                old(self)@.insert(index as int, item)
            },
    {
        if index >= self.inner.len() {
            self.inner.push_back(item);
        } else {
            self.inner.insert(index, item);
        }
    }

    /// Remove every element.
    pub fn clear(&mut self)
        ensures
            final(self).spec_maxlen() == old(self).spec_maxlen(),
            final(self)@ == Seq::<T>::empty(),
    {
        self.inner.clear();
    }

    /// The bound, when there is one.
    pub fn maxlen(&self) -> (r: Option<usize>)
        ensures
            r == self.spec_maxlen(),
    {
        self.maxlen
    }

    /// The element at `index`, when present.
    pub fn get(&self, index: usize) -> (r: Option<&T>)
        ensures
            match r {
                Some(v) => index < self@.len() && *v == self@[index as int],
                None => index >= self@.len(),
            },
    {
        if index < self.inner.len() {
            Some(&self.inner[index])
        } else {
            None
        }
    }

}

impl<T: Copy> deque<T> {
    /// A copy of the deque, bound included.
    pub fn copy(&self) -> (r: deque<T>)
        ensures
            r@ == self@,
            r.spec_maxlen() == self.spec_maxlen(),
    {
        let mut inner: VecDeque<T> = VecDeque::new();
        let mut i: usize = 0;
        while i < self.inner.len()
            invariant
                i <= self.inner@.len(),
                inner@ == self.inner@.take(i as int),
            decreases self.inner@.len() - i,
        {
            inner.push_back(self.inner[i]);
            assert(inner@ =~= self.inner@.take(i + 1));
            i += 1;
        }
        assert(self.inner@.take(self.inner@.len() as int) =~= self.inner@);
        deque { inner, maxlen: self.maxlen }
    }
}

impl<T: PartialEq> deque<T> {
    /// Remove the first element equal to `value`; absent, a value error.
    pub fn remove(&mut self, value: &T) -> (r: Result<(), PyException>)
        ensures
            final(self).spec_maxlen() == old(self).spec_maxlen(),
            T::obeys_eq_spec() ==> match crate::pylist::find_first_eq(old(self)@, *value, 0) {
                Some(j) => r is Ok && final(self)@ == old(self)@.remove(j),
                None => r is Err && r.unwrap_err().exception_type@ == "ValueError"@
                    && final(self)@ == old(self)@,
            },
    {
        let mut i: usize = 0;
        while i < self.inner.len()
            invariant
                i <= self@.len(),
                self@ == old(self)@,
                self.spec_maxlen() == old(self).spec_maxlen(),
                T::obeys_eq_spec() ==> crate::pylist::find_first_eq(self@, *value, 0)
                    == crate::pylist::find_first_eq(self@, *value, i as int),
            decreases self@.len() - i,
        {
            if self.inner[i] == *value {
                self.inner.remove(i);
                return Ok(());
            }
            i += 1;
        }
        Err(value_error("deque.remove(x): x not in deque"))
    }

    /// How many elements equal `value`.
    pub fn count(&self, value: &T) -> (r: usize)
        ensures
            T::obeys_eq_spec() ==> r as int == crate::pylist::count_eq(self@, *value),
    {
        let mut cnt: usize = 0;
        let mut i: usize = 0;
        assert(self@.take(0) =~= Seq::<T>::empty());
        while i < self.inner.len()
            invariant
                i <= self@.len(),
                cnt <= i,
                T::obeys_eq_spec() ==> cnt as int
                    == crate::pylist::count_eq(self@.take(i as int), *value),
            decreases self@.len() - i,
        {
            proof {
                assert(self@.take(i + 1).drop_last() =~= self@.take(i as int));
            }
            if self.inner[i] == *value {
                cnt += 1;
            }
            i += 1;
        }
        assert(self@.take(self@.len() as int) =~= self@);
        cnt
    }

    /// Position of the first element equal to `value` inside the window
    /// `[start, stop)` (whole deque when omitted); absent, a value error.
    pub fn index(&self, value: &T, start: Option<usize>, stop: Option<usize>) -> (r: Result<
        usize,
        PyException,
    >)
        ensures
            T::obeys_eq_spec() ==> match r {
                Ok(j) => ({
                    let lo = if start is Some { start.unwrap() as int } else { 0 };
                    let hi = if stop is Some { vstd::math::min(stop.unwrap() as int, self@.len() as int) } else { self@.len() as int };
                    lo <= j < hi && self@[j as int].eq_spec(value)
                        && forall|t: int| lo <= t < j ==> !(#[trigger] self@[t]).eq_spec(value)
                }),
                Err(e) => e.exception_type@ == "ValueError"@,
            },
    {
        let lo: usize = match start {
            Some(s) => s,
            None => 0,
        };
        let hi: usize = match stop {
            Some(s) => if s < self.inner.len() {
                s
            } else {
                self.inner.len()
            },
            None => self.inner.len(),
        };
        let mut i: usize = lo;
        if lo > hi {
            return Err(value_error("deque.index(x): x not in deque"));
        }
        while i < hi
            invariant
                lo <= i <= hi <= self@.len(),
                lo as int == (if start is Some { start.unwrap() as int } else { 0 }),
                hi as int == (if stop is Some {
                    vstd::math::min(stop.unwrap() as int, self@.len() as int)
                } else {
                    self@.len() as int
                }),
                T::obeys_eq_spec() ==> forall|t: int| lo <= t < i
                    ==> !(#[trigger] self@[t]).eq_spec(value),
            decreases hi - i,
        {
            if self.inner[i] == *value {
                return Ok(i);
            }
            i += 1;
        }
        Err(value_error("deque.index(x): x not in deque"))
    }
}

impl<T> Len for deque<T> {
    open spec fn spec_len(&self) -> nat {
        self@.len()
    }

    fn len(&self) -> (r: usize) {
        self.inner.len()
    }
}

impl<T> Truthy for deque<T> {
    open spec fn spec_truthy(&self) -> bool {
        self@.len() != 0
    }

    fn is_truthy(&self) -> (r: bool) {
        self.inner.len() != 0
    }
}


/// A dictionary with string keys that can fill in a default value for a
/// missing key.  The default is a value cloned on demand rather than a
/// factory call, so element types are plain copyable values.
#[derive(Debug, Clone)]
pub struct defaultdict<V> {
    inner: Vec<(String, V)>,
    default_value: Option<V>,
}

impl<V> View for defaultdict<V> {
    type V = Map<Seq<char>, V>;

    closed spec fn view(&self) -> Map<Seq<char>, V> {
        assoc_map(self.inner@)
    }
}

impl<V> defaultdict<V> {
    /// One entry per key.
    pub closed spec fn well_formed(&self) -> bool {
        keys_distinct(self.inner@)
    }

    /// The default for missing keys, when one was given.
    pub closed spec fn spec_default(&self) -> Option<V> {
        self.default_value
    }

    /// The entry list behind the dictionary, in insertion order.
    pub closed spec fn spec_entries(&self) -> Seq<(String, V)> {
        self.inner@
    }

    /// An empty dictionary with a default for missing keys.
    pub fn new(default_value: V) -> (r: defaultdict<V>)
        ensures
            r@ == Map::<Seq<char>, V>::empty(),
            r.spec_default() == Some(default_value),
            r.well_formed(),
    {
        defaultdict { inner: Vec::new(), default_value: Some(default_value) }
    }

    /// An empty dictionary without a default: a missing key is an error.
    pub fn without_factory() -> (r: defaultdict<V>)
        ensures
            r@ == Map::<Seq<char>, V>::empty(),
            r.spec_default() is None,
            r.well_formed(),
    {
        defaultdict { inner: Vec::new(), default_value: None }
    }

    /// The value for a key, when present.
    pub fn get(&self, key: &String) -> (r: Option<&V>)
        requires
            self.well_formed(),
        ensures
            match r {
                Some(v) => self@.contains_key(key@) && *v == self@[key@],
                None => !self@.contains_key(key@),
            },
    {
        match assoc_find(&self.inner, key) {
            Some(i) => {
                proof {
                    lemma_assoc_lookup(self.inner@, i as int);
                }
                Some(&self.inner[i].1)
            }
            None => {
                proof {
                    lemma_assoc_not_contains_absent(self.inner@, key@);
                }
                None
            }
        }
    }

    /// Bind a key; an existing binding is replaced, and the old value is
    /// reported.
    pub fn insert(&mut self, key: String, value: V) -> (r: Option<V>)
        requires
            old(self).well_formed(),
        ensures
            final(self).well_formed(),
            final(self).spec_default() == old(self).spec_default(),
            final(self)@.dom() == old(self)@.dom().insert(key@),
            final(self)@[key@] == value,
            forall|k: Seq<char>| k != key@ && old(self)@.contains_key(k)
                ==> final(self)@.contains_key(k) && final(self)@[k] == old(self)@[k],
            match r {
                Some(v) => old(self)@.contains_key(key@) && v == old(self)@[key@],
                None => !old(self)@.contains_key(key@),
            },
    {
        let ghost before = self.inner@;
        let mut prev: Option<V> = None;
        match assoc_find(&self.inner, &key) {
            Some(i) => {
                proof {
                    lemma_assoc_lookup(before, i as int);
                    lemma_assoc_remove(before, i as int);
                }
                prev = Some(self.inner.remove(i).1);
                proof {
                    assert forall|t: int| 0 <= t < self.inner@.len()
                        implies (#[trigger] self.inner@[t]).0@ != key@ by {
                        if t < i {
                            assert(self.inner@[t] == before[t]);
                        } else {
                            assert(self.inner@[t] == before[t + 1]);
                        }
                    }
                }
            }
            None => {
                proof {
                    lemma_assoc_not_contains_absent(before, key@);
                }
            }
        }
        let ghost mid = self.inner@;
        assert(forall|t: int| 0 <= t < mid.len() ==> (#[trigger] mid[t]).0@ != key@);
        assert(assoc_map(mid) =~= old(self)@.remove(key@));
        let entry = (key, value);
        proof {
            lemma_assoc_push(mid, entry);
            assert forall|a: int, b: int| 0 <= a < b < mid.push(entry).len()
                implies mid.push(entry)[a].0@ != mid.push(entry)[b].0@ by {
                if b < mid.len() {
                    assert(mid.push(entry)[a] == mid[a]);
                    assert(mid.push(entry)[b] == mid[b]);
                } else {
                    assert(mid.push(entry)[a] == mid[a]);
                    assert(mid.push(entry)[b] == entry);
                }
            }
        }
        self.inner.push(entry);
        proof {
            assert(final(self)@.dom() =~= old(self)@.dom().insert(entry.0@));
        }
        prev
    }

    /// Unbind a key, reporting the value it had.
    pub fn remove(&mut self, key: &String) -> (r: Option<V>)
        requires
            old(self).well_formed(),
        ensures
            final(self).well_formed(),
            final(self).spec_default() == old(self).spec_default(),
            final(self)@ == old(self)@.remove(key@),
            match r {
                Some(v) => old(self)@.contains_key(key@) && v == old(self)@[key@],
                None => !old(self)@.contains_key(key@),
            },
    {
        let ghost before = self.inner@;
        match assoc_find(&self.inner, key) {
            Some(i) => {
                proof {
                    lemma_assoc_lookup(before, i as int);
                    lemma_assoc_remove(before, i as int);
                }
                Some(self.inner.remove(i).1)
            }
            None => {
                proof {
                    lemma_assoc_not_contains_absent(before, key@);
                    assert(final(self)@ =~= old(self)@.remove(key@));
                }
                None
            }
        }
    }

    /// Whether a key is bound.
    pub fn contains_key(&self, key: &String) -> (r: bool)
        ensures
            r == self@.contains_key(key@),
    {
        proof {
            lemma_assoc_contains(self.inner@, key@);
        }
        assoc_find(&self.inner, key).is_some()
    }

    /// The keys, in insertion order.
    pub fn keys(&self) -> (r: Vec<String>)
        requires
            self.well_formed(),
        ensures
            r@.map_values(|s: String| s@)
                == self.spec_entries().map_values(|kv: (String, V)| kv.0@),
            forall|t: int| 0 <= t < r@.len() ==> self@.contains_key(#[trigger] r@[t]@),
    {
        let mut out: Vec<String> = Vec::new();
        let mut i: usize = 0;
        while i < self.inner.len()
            invariant
                i <= self.inner@.len(),
                out@.len() == i,
                forall|t: int| 0 <= t < i ==> (#[trigger] out@[t])@ == self.inner@[t].0@,
            decreases self.inner@.len() - i,
        {
            out.push(self.inner[i].0.clone());
            i += 1;
        }
        proof {
            assert(out@.map_values(|s: String| s@)
                =~= self.inner@.map_values(|kv: (String, V)| kv.0@));
            assert forall|t: int| 0 <= t < out@.len()
                implies self@.contains_key(#[trigger] out@[t]@) by {
                lemma_assoc_lookup(self.inner@, t);
            }
        }
        out
    }

    /// Remove every binding.
    pub fn clear(&mut self)
        ensures
            final(self)@ == Map::<Seq<char>, V>::empty(),
            final(self).well_formed(),
            final(self).spec_default() == old(self).spec_default(),
    {
        self.inner.clear();
    }
}

impl<V: Copy> defaultdict<V> {
    /// The value for a key; a missing key is bound to the default and that
    /// default returned, and without a default it is a key error.
    pub fn get_or_default(&mut self, key: &String) -> (r: Result<V, PyException>)
        requires
            old(self).well_formed(),
        ensures
            final(self).well_formed(),
            final(self).spec_default() == old(self).spec_default(),
            match r {
                Ok(v) => (old(self)@.contains_key(key@) && v == old(self)@[key@]
                    && final(self)@ == old(self)@) || (!old(self)@.contains_key(key@)
                    && old(self).spec_default() == Some(v)
                    && final(self)@.dom() == old(self)@.dom().insert(key@)
                    && final(self)@[key@] == v
                    && forall|k: Seq<char>| k != key@ && old(self)@.contains_key(k)
                        ==> final(self)@.contains_key(k) && final(self)@[k] == old(self)@[k]),
                Err(e) => !old(self)@.contains_key(key@) && old(self).spec_default() is None
                    && e.exception_type@ == "KeyError"@ && final(self)@ == old(self)@,
            },
    {
        let ghost before = self.inner@;
        match assoc_find(&self.inner, key) {
            Some(i) => {
                proof {
                    lemma_assoc_lookup(before, i as int);
                }
                Ok(self.inner[i].1)
            }
            None => {
                proof {
                    lemma_assoc_not_contains_absent(before, key@);
                }
                match self.default_value {
                    Some(d) => {
                        let entry = (key.clone(), d);
                        proof {
                            lemma_assoc_push(before, entry);
                            assert forall|a: int, b: int| 0 <= a < b < before.push(entry).len()
                                implies before.push(entry)[a].0@ != before.push(entry)[b].0@ by {
                                if b < before.len() {
                                    assert(before.push(entry)[a] == before[a]);
                                    assert(before.push(entry)[b] == before[b]);
                                } else {
                                    assert(before.push(entry)[a] == before[a]);
                                    assert(before.push(entry)[b] == entry);
                                }
                            }
                        }
                        self.inner.push(entry);
                        proof {
                            assert(final(self)@.dom() =~= old(self)@.dom().insert(key@));
                        }
                        Ok(d)
                    }
                    None => Err(key_error("Key not found and no default factory")),
                }
            }
        }
    }

    /// The values, in insertion order.
    pub fn values(&self) -> (r: Vec<V>)
        ensures
            r@ == self.spec_entries().map_values(|kv: (String, V)| kv.1),
    {
        let mut out: Vec<V> = Vec::new();
        let mut i: usize = 0;
        while i < self.inner.len()
            invariant
                i <= self.inner@.len(),
                out@.len() == i,
                forall|t: int| 0 <= t < i ==> #[trigger] out@[t] == self.inner@[t].1,
            decreases self.inner@.len() - i,
        {
            out.push(self.inner[i].1);
            i += 1;
        }
        proof {
            assert(out@ =~= self.inner@.map_values(|kv: (String, V)| kv.1));
        }
        out
    }

    /// The `(key, value)` pairs, in insertion order.
    pub fn items(&self) -> (r: Vec<(String, V)>)
        ensures
            r@.map_values(|kv: (String, V)| (kv.0@, kv.1))
                == self.spec_entries().map_values(|kv: (String, V)| (kv.0@, kv.1)),
    {
        let mut out: Vec<(String, V)> = Vec::new();
        let mut i: usize = 0;
        while i < self.inner.len()
            invariant
                i <= self.inner@.len(),
                out@.len() == i,
                forall|t: int| 0 <= t < i ==> (#[trigger] out@[t]).0@ == self.inner@[t].0@
                    && out@[t].1 == self.inner@[t].1,
            decreases self.inner@.len() - i,
        {
            out.push((self.inner[i].0.clone(), self.inner[i].1));
            i += 1;
        }
        proof {
            assert(out@.map_values(|kv: (String, V)| (kv.0@, kv.1))
                =~= self.inner@.map_values(|kv: (String, V)| (kv.0@, kv.1)));
        }
        out
    }

    /// The default value handed to missing keys, when one was given.
    pub fn default_factory_fn(&self) -> (r: Option<V>)
        ensures
            r == self.spec_default(),
    {
        self.default_value
    }
}


/// The key views of an ordered entry list.
pub open spec fn od_keys<V>(s: Seq<(String, V)>) -> Seq<Seq<char>> {
    s.map_values(|kv: (String, V)| kv.0@)
}

/// A dictionary that remembers insertion order; re-binding a key keeps its
/// place.
#[derive(Debug, Clone)]
pub struct OrderedDict<V> {
    entries: Vec<(String, V)>,
}

impl<V> View for OrderedDict<V> {
    type V = Seq<(String, V)>;

    closed spec fn view(&self) -> Seq<(String, V)> {
        self.entries@
    }
}

impl<V> OrderedDict<V> {
    /// One entry per key.
    pub open spec fn well_formed(&self) -> bool {
        keys_distinct(self@)
    }

    /// An empty ordered dictionary.
    pub fn new() -> (r: OrderedDict<V>)
        ensures
            r@ == Seq::<(String, V)>::empty(),
            r.well_formed(),
    {
        OrderedDict { entries: Vec::new() }
    }

    /// Bind a key: a new key goes to the end, an existing one keeps its
    /// place; an old value is reported.
    pub fn insert(&mut self, key: String, value: V) -> (r: Option<V>)
        requires
            old(self).well_formed(),
        ensures
            final(self).well_formed(),
            forall|i: int| 0 <= i < old(self)@.len() && (#[trigger] old(self)@[i]).0@ == key@
                ==> r == Some(old(self)@[i].1)
                    && final(self)@ == old(self)@.update(i, (key, value)),
            (forall|i: int| 0 <= i < old(self)@.len() ==> (#[trigger] old(self)@[i]).0@ != key@)
                ==> r is None && final(self)@ == old(self)@.push((key, value)),
    {
        let ghost before = self.entries@;
        match assoc_find(&self.entries, &key) {
            Some(i) => {
                let old_entry = self.entries.remove(i);
                let ghost mid = self.entries@;
                self.entries.insert(i, (key, value));
                proof {
                    assert(final(self)@ =~= before.update(i as int, final(self)@[i as int]));
                    assert forall|a: int, b: int| 0 <= a < b < final(self)@.len()
                        implies (#[trigger] final(self)@[a]).0@
                            != (#[trigger] final(self)@[b]).0@ by {
                        if a != i && b != i {
                        } else if a == i {
                            assert(final(self)@[b] == before[b]);
                        } else {
                            assert(final(self)@[a] == before[a]);
                        }
                    }
                    assert forall|t: int| 0 <= t < before.len() && (#[trigger] before[t]).0@
                        == key@ implies t == i by {}
                }
                Some(old_entry.1)
            }
            None => {
                let entry = (key, value);
                proof {
                    assert forall|a: int, b: int| 0 <= a < b < before.push(entry).len()
                        implies (#[trigger] before.push(entry)[a]).0@
                            != (#[trigger] before.push(entry)[b]).0@ by {
                        if b < before.len() {
                        } else {
                            assert(before.push(entry)[b] == entry);
                            assert(before.push(entry)[a] == before[a]);
                        }
                    }
                }
                self.entries.push(entry);
                None
            }
        }
    }

    /// The value for a key, when present.
    pub fn get(&self, key: &String) -> (r: Option<&V>)
        requires
            self.well_formed(),
        ensures
            match r {
                Some(v) => exists|i: int| 0 <= i < self@.len()
                    && (#[trigger] self@[i]).0@ == key@ && *v == self@[i].1,
                None => forall|i: int| 0 <= i < self@.len()
                    ==> (#[trigger] self@[i]).0@ != key@,
            },
    {
        match assoc_find(&self.entries, key) {
            Some(i) => Some(&self.entries[i].1),
            None => None,
        }
    }

    /// Unbind a key, reporting the value it had; order of the rest keeps.
    pub fn remove(&mut self, key: &String) -> (r: Option<V>)
        requires
            old(self).well_formed(),
        ensures
            final(self).well_formed(),
            forall|i: int| 0 <= i < old(self)@.len() && (#[trigger] old(self)@[i]).0@ == key@
                ==> r == Some(old(self)@[i].1) && final(self)@ == old(self)@.remove(i),
            (forall|i: int| 0 <= i < old(self)@.len() ==> (#[trigger] old(self)@[i]).0@ != key@)
                ==> r is None && final(self)@ == old(self)@,
    {
        let ghost before = self.entries@;
        match assoc_find(&self.entries, key) {
            Some(i) => {
                let old_entry = self.entries.remove(i);
                proof {
                    assert forall|a: int, b: int| 0 <= a < b < final(self)@.len()
                        implies (#[trigger] final(self)@[a]).0@
                            != (#[trigger] final(self)@[b]).0@ by {
                        let a2 = if a < i { a } else { a + 1 };
                        let b2 = if b < i { b } else { b + 1 };
                        assert(final(self)@[a] == before[a2] && final(self)@[b] == before[b2]);
                    }
                }
                Some(old_entry.1)
            }
            None => None,
        }
    }

    /// Take out the last bound entry, or the first when `last` is false;
    /// empty, a key error.
    pub fn popitem(&mut self, last: bool) -> (r: Result<(String, V), PyException>)
        requires
            old(self).well_formed(),
        ensures
            final(self).well_formed(),
            old(self)@.len() == 0 ==> r is Err
                && (r->Err_0).exception_type@ == "KeyError"@ && final(self)@ == old(self)@,
            old(self)@.len() > 0 && last ==> r is Ok
                && r->Ok_0 == old(self)@.last() && final(self)@ == old(self)@.drop_last(),
            old(self)@.len() > 0 && !last ==> r is Ok
                && r->Ok_0 == old(self)@[0] && final(self)@ == old(self)@.skip(1),
    {
        if self.entries.len() == 0 {
            return Err(key_error("dictionary is empty"));
        }
        let ghost before = self.entries@;
        let entry = if last {
            let e = self.entries.pop().unwrap();
            e
        } else {
            let e = self.entries.remove(0);
            proof {
                assert(final(self)@ =~= before.skip(1));
            }
            e
        };
        proof {
            assert forall|a: int, b: int| 0 <= a < b < final(self)@.len()
                implies (#[trigger] final(self)@[a]).0@
                    != (#[trigger] final(self)@[b]).0@ by {
                if last {
                } else {
                    assert(final(self)@[a] == before[a + 1]
                        && final(self)@[b] == before[b + 1]);
                }
            }
        }
        Ok(entry)
    }

    /// Move a key's entry to the end (or the front); an absent key is a
    /// key error.
    pub fn move_to_end(&mut self, key: &String, last: bool) -> (r: Result<(), PyException>)
        requires
            old(self).well_formed(),
        ensures
            final(self).well_formed(),
            forall|i: int| 0 <= i < old(self)@.len() && (#[trigger] old(self)@[i]).0@ == key@
                ==> r is Ok && final(self)@ == if last {
                    old(self)@.remove(i).push(old(self)@[i])
                } else {
                    seq![old(self)@[i]] + old(self)@.remove(i)
                },
            (forall|i: int| 0 <= i < old(self)@.len() ==> (#[trigger] old(self)@[i]).0@ != key@)
                ==> r is Err && r.unwrap_err().exception_type@ == "KeyError"@
                    && final(self)@ == old(self)@,
    {
        let ghost before = self.entries@;
        match assoc_find(&self.entries, key) {
            Some(i) => {
                let entry = self.entries.remove(i);
                let ghost mid = self.entries@;
                proof {
                    assert forall|a: int, b: int| 0 <= a < b < mid.len()
                        implies (#[trigger] mid[a]).0@ != (#[trigger] mid[b]).0@ by {
                        let a2 = if a < i { a } else { a + 1 };
                        let b2 = if b < i { b } else { b + 1 };
                        assert(mid[a] == before[a2] && mid[b] == before[b2]);
                    }
                }
                if last {
                    self.entries.push(entry);
                    proof {
                        assert forall|a: int, b: int| 0 <= a < b < final(self)@.len()
                            implies (#[trigger] final(self)@[a]).0@
                                != (#[trigger] final(self)@[b]).0@ by {
                            if b < mid.len() {
                                assert(final(self)@[a] == mid[a]
                                    && final(self)@[b] == mid[b]);
                            } else {
                                assert(final(self)@[b] == before[i as int]);
                                assert(final(self)@[a] == mid[a]);
                                let a2 = if a < i { a } else { a + 1 };
                                assert(mid[a] == before[a2]);
                            }
                        }
                    }
                } else {
                    self.entries.insert(0, entry);
                    proof {
                        assert(final(self)@ =~= seq![before[i as int]] + mid);
                        assert forall|a: int, b: int| 0 <= a < b < final(self)@.len()
                            implies (#[trigger] final(self)@[a]).0@
                                != (#[trigger] final(self)@[b]).0@ by {
                            if a == 0 {
                                assert(final(self)@[a] == before[i as int]);
                                assert(final(self)@[b] == mid[b - 1]);
                                let b2 = if b - 1 < i { b - 1 } else { b };
                                assert(mid[b - 1] == before[b2]);
                            } else {
                                assert(final(self)@[a] == mid[a - 1]
                                    && final(self)@[b] == mid[b - 1]);
                            }
                        }
                    }
                }
                Ok(())
            }
            None => Err(key_error("Key not found")),
        }
    }

    /// Whether a key is bound.
    pub fn contains_key(&self, key: &String) -> (r: bool)
        ensures
            r == exists|i: int| 0 <= i < self@.len() && (#[trigger] self@[i]).0@ == key@,
    {
        match assoc_find(&self.entries, key) {
            Some(i) => {
                proof {
                    assert(self@[i as int].0@ == key@);
                }
                true
            }
            None => false,
        }
    }

    /// The keys, in order.
    pub fn keys(&self) -> (r: Vec<String>)
        ensures
            r@.map_values(|s: String| s@) == od_keys(self@),
    {
        let mut out: Vec<String> = Vec::new();
        let mut i: usize = 0;
        while i < self.entries.len()
            invariant
                i <= self.entries@.len(),
                out@.len() == i,
                forall|t: int| 0 <= t < i ==> (#[trigger] out@[t])@ == self.entries@[t].0@,
            decreases self.entries@.len() - i,
        {
            out.push(self.entries[i].0.clone());
            i += 1;
        }
        proof {
            assert(out@.map_values(|s: String| s@) =~= od_keys(self@));
        }
        out
    }

    /// Remove every binding.
    pub fn clear(&mut self)
        ensures
            final(self)@ == Seq::<(String, V)>::empty(),
            final(self).well_formed(),
    {
        self.entries.clear();
    }
}

impl<V: Copy> OrderedDict<V> {
    /// The values, in the keys' order.
    pub fn values(&self) -> (r: Vec<V>)
        ensures
            r@ == self@.map_values(|kv: (String, V)| kv.1),
    {
        let mut out: Vec<V> = Vec::new();
        let mut i: usize = 0;
        while i < self.entries.len()
            invariant
                i <= self.entries@.len(),
                out@.len() == i,
                forall|t: int| 0 <= t < i ==> #[trigger] out@[t] == self.entries@[t].1,
            decreases self.entries@.len() - i,
        {
            out.push(self.entries[i].1);
            i += 1;
        }
        proof {
            assert(out@ =~= self@.map_values(|kv: (String, V)| kv.1));
        }
        out
    }

    /// The `(key, value)` pairs, in order.
    pub fn items(&self) -> (r: Vec<(String, V)>)
        ensures
            r@.map_values(|kv: (String, V)| (kv.0@, kv.1))
                == self@.map_values(|kv: (String, V)| (kv.0@, kv.1)),
    {
        let mut out: Vec<(String, V)> = Vec::new();
        let mut i: usize = 0;
        while i < self.entries.len()
            invariant
                i <= self.entries@.len(),
                out@.len() == i,
                forall|t: int| 0 <= t < i ==> (#[trigger] out@[t]).0@ == self.entries@[t].0@
                    && out@[t].1 == self.entries@[t].1,
            decreases self.entries@.len() - i,
        {
            out.push((self.entries[i].0.clone(), self.entries[i].1));
            i += 1;
        }
        proof {
            assert(out@.map_values(|kv: (String, V)| (kv.0@, kv.1))
                =~= self@.map_values(|kv: (String, V)| (kv.0@, kv.1)));
        }
        out
    }
}

impl<V> Default for OrderedDict<V> {
    /// An empty ordered dictionary.
    fn default() -> (r: OrderedDict<V>)
        ensures
            r@ == Seq::<(String, V)>::empty(),
            r.well_formed(),
    {
        OrderedDict::new()
    }
}

impl<V> Len for OrderedDict<V> {
    open spec fn spec_len(&self) -> nat {
        self@.len()
    }

    fn len(&self) -> (r: usize) {
        self.entries.len()
    }
}

impl<V> Truthy for OrderedDict<V> {
    open spec fn spec_truthy(&self) -> bool {
        self@.len() != 0
    }

    fn is_truthy(&self) -> (r: bool) {
        self.entries.len() != 0
    }
}

impl Len for Counter {
    open spec fn spec_len(&self) -> nat {
        self.spec_entries().len()
    }

    fn len(&self) -> (r: usize) {
        self.counts.len()
    }
}

impl Truthy for Counter {
    open spec fn spec_truthy(&self) -> bool {
        self.spec_entries().len() != 0
    }

    fn is_truthy(&self) -> (r: bool) {
        self.counts.len() != 0
    }
}

impl Default for Counter {
    /// An empty counter.
    fn default() -> (r: Counter)
        ensures
            r@ == Map::<Seq<char>, i64>::empty(),
            r.well_formed(),
    {
        Counter::new()
    }
}

impl<T> Default for deque<T> {
    /// An empty unbounded deque.
    fn default() -> (r: deque<T>)
        ensures
            r@ == Seq::<T>::empty(),
            r.spec_maxlen() is None,
            r.well_formed(),
    {
        deque::new()
    }
}

impl<V> Len for defaultdict<V> {
    open spec fn spec_len(&self) -> nat {
        self.spec_entries().len()
    }

    fn len(&self) -> (r: usize) {
        self.inner.len()
    }
}

impl<V> Truthy for defaultdict<V> {
    open spec fn spec_truthy(&self) -> bool {
        self.spec_entries().len() != 0
    }

    fn is_truthy(&self) -> (r: bool) {
        self.inner.len() != 0
    }
}

/// A view over a stack of maps: lookups try each layer in order, writes go
/// to the first layer.
#[derive(Debug, Clone)]
pub struct ChainMap<V> {
    maps: Vec<Vec<(String, V)>>,
}

/// The first layer from `i` on that binds the key, with its value.
pub open spec fn chain_find<V>(layers: Seq<Seq<(String, V)>>, k: Seq<char>, i: int) -> Option<V>
    decreases layers.len() - i,
{
    if i < 0 || i >= layers.len() {
        None
    } else if assoc_map(layers[i]).contains_key(k) {
        Some(assoc_map(layers[i])[k])
    } else {
        chain_find(layers, k, i + 1)
    }
}

impl<V> View for ChainMap<V> {
    type V = Seq<Seq<(String, V)>>;

    closed spec fn view(&self) -> Seq<Seq<(String, V)>> {
        self.maps@.map_values(|m: Vec<(String, V)>| m@)
    }
}

impl<V> ChainMap<V> {
    /// Every layer binds each of its keys once: kept by every method.
    /// The layers handed to `new` must already satisfy it, as maps do.
    pub open spec fn well_formed(&self) -> bool {
        forall|t: int| 0 <= t < self@.len() ==> keys_distinct(#[trigger] self@[t])
    }

    /// A chain over the given layers, first searched first.
    pub fn new(maps: Vec<Vec<(String, V)>>) -> (r: ChainMap<V>)
        requires
            forall|t: int| 0 <= t < maps@.len() ==> keys_distinct(#[trigger] maps@[t]@),
        ensures
            r@ == maps@.map_values(|m: Vec<(String, V)>| m@),
            r.well_formed(),
    {
        let r = ChainMap { maps };
        proof {
            assert forall|t: int| 0 <= t < r@.len()
                implies keys_distinct(#[trigger] r@[t]) by {}
        }
        r
    }

    /// A chain holding one empty layer.
    pub fn empty() -> (r: ChainMap<V>)
        ensures
            r@.len() == 1,
            r@[0] == Seq::<(String, V)>::empty(),
            r.well_formed(),
    {
        let mut maps: Vec<Vec<(String, V)>> = Vec::new();
        maps.push(Vec::new());
        ChainMap { maps }
    }

    /// The value of the first layer binding the key, when any does.
    pub fn get(&self, key: &String) -> (r: Option<&V>)
        requires
            self.well_formed(),
        ensures
            match r {
                Some(v) => chain_find(self@, key@, 0) == Some(*v),
                None => chain_find(self@, key@, 0) is None,
            },
    {
        let mut i: usize = 0;
        while i < self.maps.len()
            invariant
                i <= self.maps@.len(),
                self.well_formed(),
                chain_find(self@, key@, 0) == chain_find(self@, key@, i as int),
            decreases self.maps@.len() - i,
        {
            match assoc_find(&self.maps[i], key) {
                Some(j) => {
                    proof {
                        lemma_find_value(self.maps@[i as int]@, key@, j as int);
                    }
                    return Some(&self.maps[i][j].1);
                }
                None => {
                    proof {
                        lemma_assoc_not_contains_absent(self.maps@[i as int]@, key@);
                    }
                }
            }
            i += 1;
        }
        None
    }

    /// Bind a key in the first layer; a chain with no layers first gains
    /// an empty one.
    pub fn insert(&mut self, key: String, value: V)
        requires
            old(self).well_formed(),
        ensures
            final(self).well_formed(),
            final(self)@.len() == vstd::math::max(old(self)@.len() as int, 1),
            assoc_map(final(self)@[0]) == assoc_map(
                if old(self)@.len() == 0 {
                    Seq::<(String, V)>::empty()
                } else {
                    old(self)@[0]
                },
            ).insert(key@, value),
            forall|t: int| 1 <= t < final(self)@.len()
                ==> #[trigger] final(self)@[t] == old(self)@[t],
    {
        if self.maps.len() == 0 {
            let ghost pre = self@;
            self.maps.push(Vec::new());
            proof {
                assert forall|t: int| 0 <= t < self@.len()
                    implies keys_distinct(#[trigger] self@[t]) by {
                    if t < pre.len() {
                        assert(self@[t] == pre[t]);
                    } else {
                        assert(self@[t] =~= Seq::<(String, V)>::empty());
                    }
                }
            }
        }
        let ghost base = self@;
        assert(self.well_formed());
        let mut first = self.maps.remove(0);
        let ghost fbefore = first@;
        proof {
            assert(fbefore == base[0]);
            assert(keys_distinct(fbefore));
        }
        // drop any earlier binding of the key, then append the new one
        match assoc_find(&first, &key) {
            Some(i) => {
                proof {
                    lemma_assoc_remove(fbefore, i as int);
                }
                first.remove(i);
                proof {
                    assert forall|w: int| 0 <= w < first@.len()
                        implies (#[trigger] first@[w]).0@ != key@ by {
                        if w < i {
                            assert(first@[w] == fbefore[w]);
                        } else {
                            assert(first@[w] == fbefore[w + 1]);
                        }
                    }
                }
            }
            None => {
                proof {
                    lemma_assoc_not_contains_absent(fbefore, key@);
                }
            }
        }
        let ghost mid = first@;
        assert(keys_distinct(mid));
        assert(forall|w: int| 0 <= w < mid.len() ==> (#[trigger] mid[w]).0@ != key@);
        assert(assoc_map(mid) =~= assoc_map(fbefore).remove(key@));
        let entry = (key, value);
        proof {
            lemma_assoc_push(mid, entry);
            assert forall|a: int, b: int| 0 <= a < b < mid.push(entry).len()
                implies (#[trigger] mid.push(entry)[a]).0@
                    != (#[trigger] mid.push(entry)[b]).0@ by {
                if b < mid.len() {
                } else {
                    assert(mid.push(entry)[b] == entry);
                    assert(mid.push(entry)[a] == mid[a]);
                }
            }
        }
        first.push(entry);
        let ghost ffinal = first@;
        self.maps.insert(0, first);
        proof {
            assert(final(self)@ =~= seq![ffinal] + base.skip(1));
            assert(assoc_map(final(self)@[0])
                =~= assoc_map(fbefore).insert(key@, entry.1));
            assert forall|t: int| 1 <= t < final(self)@.len()
                implies #[trigger] final(self)@[t] == old(self)@[t] by {
                assert(final(self)@[t] == base.skip(1)[t - 1]);
            }
            assert forall|t: int| 0 <= t < final(self)@.len()
                implies keys_distinct(#[trigger] final(self)@[t]) by {
                if t > 0 {
                    assert(final(self)@[t] == base[t]);
                }
            }
        }
    }

    /// Unbind a key in the first layer, reporting its value there.
    pub fn remove(&mut self, key: &String) -> (r: Option<V>)
        requires
            old(self).well_formed(),
        ensures
            final(self).well_formed(),
            old(self)@.len() == 0 ==> r is None && final(self)@ == old(self)@,
            old(self)@.len() > 0 ==> final(self)@.len() == old(self)@.len()
                && assoc_map(final(self)@[0]) == assoc_map(old(self)@[0]).remove(key@)
                && (forall|t: int| 1 <= t < final(self)@.len()
                    ==> #[trigger] final(self)@[t] == old(self)@[t])
                && (match r {
                    Some(v) => assoc_map(old(self)@[0]).contains_key(key@)
                        && v == assoc_map(old(self)@[0])[key@],
                    None => !assoc_map(old(self)@[0]).contains_key(key@),
                }),
    {
        if self.maps.len() == 0 {
            return None;
        }
        let ghost base = self@;
        let mut first = self.maps.remove(0);
        let ghost fbefore = first@;
        proof {
            assert(fbefore == base[0]);
            assert(keys_distinct(fbefore));
        }
        let r = match assoc_find(&first, key) {
            Some(i) => {
                proof {
                    lemma_assoc_lookup(fbefore, i as int);
                    lemma_assoc_remove(fbefore, i as int);
                }
                Some(first.remove(i).1)
            }
            None => {
                proof {
                    lemma_assoc_not_contains_absent(fbefore, key@);
                    assert(assoc_map(fbefore).remove(key@) =~= assoc_map(fbefore));
                }
                None
            }
        };
        let ghost ffinal = first@;
        self.maps.insert(0, first);
        proof {
            assert(final(self)@ =~= seq![ffinal] + base.skip(1));
            assert forall|t: int| 1 <= t < final(self)@.len()
                implies #[trigger] final(self)@[t] == old(self)@[t] by {
                assert(final(self)@[t] == base.skip(1)[t - 1]);
            }
            assert forall|t: int| 0 <= t < final(self)@.len()
                implies keys_distinct(#[trigger] final(self)@[t]) by {
                if t > 0 {
                    assert(final(self)@[t] == base[t]);
                }
            }
        }
        r
    }

    /// Whether any layer binds the key.
    pub fn contains_key(&self, key: &String) -> (r: bool)
        ensures
            r == (chain_find(self@, key@, 0) is Some),
    {
        let mut i: usize = 0;
        while i < self.maps.len()
            invariant
                i <= self.maps@.len(),
                chain_find(self@, key@, 0) == chain_find(self@, key@, i as int),
            decreases self.maps@.len() - i,
        {
            match assoc_find(&self.maps[i], key) {
                Some(j) => {
                    proof {
                        lemma_assoc_contains(self.maps@[i as int]@, key@);
                    }
                    return true;
                }
                None => {
                    proof {
                        lemma_assoc_not_contains_absent(self.maps@[i as int]@, key@);
                    }
                }
            }
            i += 1;
        }
        false
    }

    /// Stack one more layer in front.
    pub fn new_child(&mut self, map: Vec<(String, V)>)
        requires
            old(self).well_formed(),
            keys_distinct(map@),
        ensures
            final(self).well_formed(),
            final(self)@ == seq![map@] + old(self)@,
    {
        self.maps.insert(0, map);
        proof {
            assert(final(self)@ =~= seq![map@] + old(self)@);
            assert forall|t: int| 0 <= t < final(self)@.len()
                implies keys_distinct(#[trigger] final(self)@[t]) by {
                if t > 0 {
                    assert(final(self)@[t] == old(self)@[t - 1]);
                }
            }
        }
    }

    /// How many layers the chain holds.
    pub fn num_maps(&self) -> (r: usize)
        ensures
            r == self@.len(),
    {
        self.maps.len()
    }

    /// Every key bound by some layer, first appearance first, each once.
    pub fn keys(&self) -> (r: Vec<String>)
        ensures
            forall|t: int| 0 <= t < r@.len()
                ==> chain_find(self@, (#[trigger] r@[t])@, 0) is Some,
            forall|a: int, b: int| 0 <= a < b < r@.len() ==> r@[a]@ != r@[b]@,
    {
        let mut out: Vec<String> = Vec::new();
        let mut i: usize = 0;
        while i < self.maps.len()
            invariant
                i <= self.maps@.len(),
                forall|t: int| 0 <= t < out@.len()
                    ==> chain_find(self@, (#[trigger] out@[t])@, 0) is Some,
                forall|a: int, b: int| 0 <= a < b < out@.len() ==> out@[a]@ != out@[b]@,
            decreases self.maps@.len() - i,
        {
            let layer_len = self.maps[i].len();
            let mut j: usize = 0;
            while j < layer_len
                invariant
                    i < self.maps@.len(),
                    layer_len == self.maps@[i as int]@.len(),
                    j <= layer_len,
                    forall|t: int| 0 <= t < out@.len()
                        ==> chain_find(self@, (#[trigger] out@[t])@, 0) is Some,
                    forall|a: int, b: int| 0 <= a < b < out@.len() ==> out@[a]@ != out@[b]@,
                decreases layer_len - j,
            {
                let candidate = self.maps[i][j].0.clone();
                if !self.seen(&out, &candidate) {
                    proof {
                        lemma_chain_find_layer(self@, i as int, j as int);
                    }
                    out.push(candidate);
                }
                j += 1;
            }
            i += 1;
        }
        out
    }

    /// Whether an earlier layer binds the key.
    fn bound_before(&self, key: &String, upto: usize) -> (r: bool)
        requires
            upto <= self@.len(),
        ensures
            r == exists|t: int| 0 <= t < upto
                && assoc_map(#[trigger] self@[t]).contains_key(key@),
    {
        let mut t: usize = 0;
        while t < upto
            invariant
                t <= upto <= self@.len(),
                forall|w: int| 0 <= w < t
                    ==> !assoc_map(#[trigger] self@[w]).contains_key(key@),
            decreases upto - t,
        {
            match assoc_find(&self.maps[t], key) {
                Some(j) => {
                    proof {
                        lemma_assoc_contains(self.maps@[t as int]@, key@);
                        assert(assoc_map(self@[t as int]).contains_key(key@));
                    }
                    return true;
                }
                None => {
                    proof {
                        lemma_assoc_not_contains_absent(self.maps@[t as int]@, key@);
                    }
                }
            }
            t += 1;
        }
        false
    }

    /// Whether a key was already gathered.
    fn seen(&self, seen: &Vec<String>, key: &String) -> (r: bool)
        ensures
            r == exists|t: int| 0 <= t < seen@.len() && (#[trigger] seen@[t])@ == key@,
    {
        let mut t: usize = 0;
        while t < seen.len()
            invariant
                t <= seen@.len(),
                forall|w: int| 0 <= w < t ==> (#[trigger] seen@[w])@ != key@,
            decreases seen@.len() - t,
        {
            if seen[t] == *key {
                return true;
            }
            t += 1;
        }
        false
    }
}

impl<V: Copy> ChainMap<V> {
    /// The values of every bound key, first appearance first.
    pub fn values(&self) -> (r: Vec<V>)
        requires
            self.well_formed(),
        ensures
            forall|t: int| 0 <= t < r@.len() ==> value_found(self@, #[trigger] r@[t]),
    {
        let mut seen_keys: Vec<String> = Vec::new();
        let mut out: Vec<V> = Vec::new();
        let mut i: usize = 0;
        while i < self.maps.len()
            invariant
                i <= self.maps@.len(),
                self.well_formed(),
                forall|t: int| 0 <= t < out@.len() ==> value_found(self@, #[trigger] out@[t]),
            decreases self.maps@.len() - i,
        {
            let layer_len = self.maps[i].len();
            let mut j: usize = 0;
            while j < layer_len
                invariant
                    i < self.maps@.len(),
                    self.well_formed(),
                    layer_len == self.maps@[i as int]@.len(),
                    j <= layer_len,
                    forall|t: int| 0 <= t < out@.len()
                        ==> value_found(self@, #[trigger] out@[t]),
                decreases layer_len - j,
            {
                let candidate = self.maps[i][j].0.clone();
                if !self.seen(&seen_keys, &candidate) && !self.bound_before(&candidate, i) {
                    proof {
                        lemma_chain_find_value(self@, i as int, j as int);
                    }
                    let ghost key_view = self.maps@[i as int]@[j as int].0@;
                    out.push(self.maps[i][j].1);
                    proof {
                        assert forall|t: int| 0 <= t < out@.len()
                            implies value_found(self@, #[trigger] out@[t]) by {
                            if t == out@.len() - 1 {
                                assert(chain_find(self@, key_view, 0) == Some(out@[t]));
                                lemma_value_found(self@, key_view, out@[t]);
                            }
                        }
                    }
                    seen_keys.push(candidate);
                }
                j += 1;
            }
            i += 1;
        }
        out
    }

}

impl<V> Len for ChainMap<V> {
    open spec fn spec_len(&self) -> nat {
        self@.len()
    }

    fn len(&self) -> (r: usize) {
        self.maps.len()
    }
}

/// A value bound somewhere in a layer is what the layer's map gives.
proof fn lemma_find_value<V>(s: Seq<(String, V)>, k: Seq<char>, j: int)
    requires
        0 <= j < s.len(),
        s[j].0@ == k,
        keys_distinct(s),
    ensures
        assoc_map(s).contains_key(k),
        assoc_map(s)[k] == s[j].1,
{
    lemma_assoc_lookup(s, j);
}

/// Whether the chain finds some key bound to this value.
pub open spec fn value_found<V>(layers: Seq<Seq<(String, V)>>, v: V) -> bool {
    exists|k: Seq<char>| #[trigger] chain_find(layers, k, 0) == Some(v)
}

proof fn lemma_value_found<V>(layers: Seq<Seq<(String, V)>>, k: Seq<char>, v: V)
    requires
        chain_find(layers, k, 0) == Some(v),
    ensures
        value_found(layers, v),
{
}

/// A key first bound at layer `i` is what the chain finds, with that
/// layer's value.
proof fn lemma_chain_find_value<V>(layers: Seq<Seq<(String, V)>>, i: int, j: int)
    requires
        0 <= i < layers.len(),
        0 <= j < layers[i].len(),
        forall|t: int| 0 <= t < layers.len() ==> keys_distinct(#[trigger] layers[t]),
        forall|t: int| 0 <= t < i
            ==> !assoc_map(#[trigger] layers[t]).contains_key(layers[i][j].0@),
    ensures
        chain_find(layers, layers[i][j].0@, 0) == Some(layers[i][j].1),
{
    lemma_assoc_lookup(layers[i], j);
    lemma_chain_find_value_from(layers, layers[i][j].0@, 0, i);
}

/// With the key absent from layers before `i` and bound there, the search
/// from any earlier point lands on layer `i`'s value.
proof fn lemma_chain_find_value_from<V>(
    layers: Seq<Seq<(String, V)>>,
    k: Seq<char>,
    from: int,
    i: int,
)
    requires
        0 <= from <= i < layers.len(),
        assoc_map(layers[i]).contains_key(k),
        forall|t: int| from <= t < i ==> !assoc_map(#[trigger] layers[t]).contains_key(k),
    ensures
        chain_find(layers, k, from) == Some(assoc_map(layers[i])[k]),
    decreases i - from,
{
    if from < i {
        lemma_chain_find_value_from(layers, k, from + 1, i);
    }
}

/// A key sitting in some layer is found by the chain.
proof fn lemma_chain_find_layer<V>(layers: Seq<Seq<(String, V)>>, i: int, j: int)
    requires
        0 <= i < layers.len(),
        0 <= j < layers[i].len(),
    ensures
        chain_find(layers, layers[i][j].0@, 0) is Some,
    decreases i,
{
    lemma_assoc_contains(layers[i], layers[i][j].0@);
    if i == 0 {
        assert((exists|b: int| 0 <= b < layers[0].len() && layers[0][b].0@
            == layers[0][j].0@));
    } else {
        lemma_chain_find_from(layers, layers[i][j].0@, 0, i);
    }
}

/// A key bound at layer `i` is found searching from any earlier point.
proof fn lemma_chain_find_from<V>(layers: Seq<Seq<(String, V)>>, k: Seq<char>, from: int, i: int)
    requires
        0 <= from <= i < layers.len(),
        assoc_map(layers[i]).contains_key(k),
    ensures
        chain_find(layers, k, from) is Some,
    decreases i - from,
{
    if from < i && !assoc_map(layers[from]).contains_key(k) {
        lemma_chain_find_from(layers, k, from + 1, i);
    }
}


/// Build a counter from string items.
pub fn counter(iterable: Vec<String>) -> (r: Counter)
    requires
        iterable@.len() < i64::MAX,
    ensures
        r@ == tally(Map::<Seq<char>, i64>::empty(), iterable@, 0),
        r.well_formed(),
{
    Counter::from_iter(iterable)
}

/// Concrete-typed companion of `counter` for generated callers: a pure
/// delegating call with the same contract.
pub fn counter_wrapper(iterable: Vec<String>) -> (r: Counter)
    requires
        iterable@.len() < i64::MAX,
    ensures
        r@ == tally(Map::<Seq<char>, i64>::empty(), iterable@, 0),
        r.well_formed(),
{
    counter(iterable)
}

/// Concrete-typed companion of `counter` for the foreign embedding
/// boundary: a pure delegating call with the same contract.
pub fn counter_py(iterable: Vec<String>) -> (r: Counter)
    requires
        iterable@.len() < i64::MAX,
    ensures
        r@ == tally(Map::<Seq<char>, i64>::empty(), iterable@, 0),
        r.well_formed(),
{
    counter(iterable)
}

/// Build a deque of strings, optionally bounded.
pub fn create_deque(iterable: Vec<String>, maxlen: Option<usize>) -> (r: deque<String>)
    ensures
        r.spec_maxlen() == maxlen,
        r.well_formed(),
        r@ == match maxlen {
            None => iterable@,
            Some(m) => if iterable@.len() <= m {
                iterable@
            } else {
                iterable@.skip(iterable@.len() - m)
            },
        },
{
    deque::from_iter(iterable, maxlen)
}

/// Concrete-typed companion of `create_deque` for generated callers: a
/// pure delegating call with the same contract.
pub fn create_deque_wrapper(iterable: Vec<String>, maxlen: Option<usize>) -> (r: deque<String>)
    ensures
        r.spec_maxlen() == maxlen,
        r.well_formed(),
        r@ == match maxlen {
            None => iterable@,
            Some(m) => if iterable@.len() <= m {
                iterable@
            } else {
                iterable@.skip(iterable@.len() - m)
            },
        },
{
    create_deque(iterable, maxlen)
}

/// Concrete-typed companion of `create_deque` for the foreign embedding
/// boundary: a pure delegating call with the same contract.
pub fn create_deque_py(iterable: Vec<String>, maxlen: Option<usize>) -> (r: deque<String>)
    ensures
        r.spec_maxlen() == maxlen,
        r.well_formed(),
        r@ == match maxlen {
            None => iterable@,
            Some(m) => if iterable@.len() <= m {
                iterable@
            } else {
                iterable@.skip(iterable@.len() - m)
            },
        },
{
    create_deque(iterable, maxlen)
}

/// A dictionary of integers whose missing keys read as zero.
pub fn defaultdict_int() -> (r: defaultdict<i64>)
    ensures
        r@ == Map::<Seq<char>, i64>::empty(),
        r.spec_default() == Some(0i64),
        r.well_formed(),
{
    defaultdict::new(0)
}

/// Concrete-typed companion of `defaultdict_int` for generated callers: a
/// pure delegating call with the same contract.
pub fn defaultdict_int_wrapper() -> (r: defaultdict<i64>)
    ensures
        r@ == Map::<Seq<char>, i64>::empty(),
        r.spec_default() == Some(0i64),
        r.well_formed(),
{
    defaultdict_int()
}

/// Concrete-typed companion of `defaultdict_int` for the foreign embedding
/// boundary: a pure delegating call with the same contract.
pub fn defaultdict_int_py() -> (r: defaultdict<i64>)
    ensures
        r@ == Map::<Seq<char>, i64>::empty(),
        r.spec_default() == Some(0i64),
        r.well_formed(),
{
    defaultdict_int()
}

/// A dictionary of string lists whose missing keys would read as an empty
/// list.
pub fn defaultdict_list() -> (r: defaultdict<Vec<String>>)
    ensures
        r@ == Map::<Seq<char>, Vec<String>>::empty(),
        r.spec_default() is Some,
        r.spec_default().unwrap()@ == Seq::<String>::empty(),
        r.well_formed(),
{
    defaultdict::new(Vec::new())
}

/// Concrete-typed companion of `defaultdict_list` for generated callers: a
/// pure delegating call with the same contract.
pub fn defaultdict_list_wrapper() -> (r: defaultdict<Vec<String>>)
    ensures
        r@ == Map::<Seq<char>, Vec<String>>::empty(),
        r.spec_default() is Some,
        r.spec_default().unwrap()@ == Seq::<String>::empty(),
        r.well_formed(),
{
    defaultdict_list()
}

/// Concrete-typed companion of `defaultdict_list` for the foreign
/// embedding boundary: a pure delegating call with the same contract.
pub fn defaultdict_list_py() -> (r: defaultdict<Vec<String>>)
    ensures
        r@ == Map::<Seq<char>, Vec<String>>::empty(),
        r.spec_default() is Some,
        r.spec_default().unwrap()@ == Seq::<String>::empty(),
        r.well_formed(),
{
    defaultdict_list()
}

} // verus!
