//! Iteration helpers: counting, cycling, repeating, chaining, slicing,
//! predicate-driven selection, and the combinatoric generators.
//!
//! The stateful helpers own their buffers and hand values out by `next` or
//! all at once by `take`/`collect`; the combinatoric generators are
//! recursive functions proved against recursive definitions.

use vstd::prelude::*;

verus! {

/// An arithmetic counter: yields `start`, `start + step`, ….
#[derive(Debug, Clone)]
pub struct Count {
    current: i64,
    step: i64,
}

impl Count {
    /// The value the next call yields.
    pub closed spec fn spec_current(&self) -> int {
        self.current as int
    }

    /// The increment between yielded values.
    pub closed spec fn spec_step(&self) -> int {
        self.step as int
    }

    /// A counter from `start` by `step`.
    pub fn new(start: i64, step: i64) -> (r: Count)
        ensures
            r.spec_current() == start as int,
            r.spec_step() == step as int,
    {
        Count { current: start, step }
    }

    /// The next value; the counter advances by its step.
    pub fn next(&mut self) -> (r: i64)
        requires
            i64::MIN <= old(self).spec_current() + old(self).spec_step() <= i64::MAX,
        ensures
            r as int == old(self).spec_current(),
            final(self).spec_current() == old(self).spec_current() + old(self).spec_step(),
            final(self).spec_step() == old(self).spec_step(),
    {
        let result = self.current;
        self.current = self.current + self.step;
        result
    }

    /// The next `n` values.
    pub fn take(&mut self, n: usize) -> (r: Vec<i64>)
        requires
            forall|k: int| 0 <= k <= n
                ==> i64::MIN <= old(self).spec_current() + #[trigger] (k * old(self).spec_step())
                    <= i64::MAX,
        ensures
            r@.len() == n,
            forall|k: int| 0 <= k < n
                ==> (#[trigger] r@[k]) as int
                    == old(self).spec_current() + k * old(self).spec_step(),
            final(self).spec_current() == old(self).spec_current() + n * old(self).spec_step(),
            final(self).spec_step() == old(self).spec_step(),
    {
        let mut result: Vec<i64> = Vec::new();
        let mut i: usize = 0;
        proof {
            let c0 = old(self).spec_current();
            let s0 = old(self).spec_step();
            assert(c0 + 0 * s0 == c0) by (nonlinear_arith);
        }
        while i < n
            invariant
                i <= n,
                self.spec_step() == old(self).spec_step(),
                self.spec_current() == old(self).spec_current() + i * old(self).spec_step(),
                forall|k: int| 0 <= k <= n
                    ==> i64::MIN <= old(self).spec_current()
                        + #[trigger] (k * old(self).spec_step()) <= i64::MAX,
                result@.len() == i,
                forall|k: int| 0 <= k < i
                    ==> (#[trigger] result@[k]) as int
                        == old(self).spec_current() + k * old(self).spec_step(),
            decreases n - i,
        {
            proof {
                let s0 = old(self).spec_step();
                let ii = i as int;
                assert((ii + 1) * s0 == ii * s0 + s0) by (nonlinear_arith);
            }
            let v = self.next();
            result.push(v);
            i += 1;
        }
        result
    }
}

/// A counter from `start` by `step`.
pub fn count(start: i64, step: i64) -> (r: Count)
    ensures
        r.spec_current() == start as int,
        r.spec_step() == step as int,
{
    Count::new(start, step)
}

/// Cycles through a buffer forever; empty, it yields nothing.
#[derive(Debug, Clone)]
pub struct Cycle<T> {
    items: Vec<T>,
    index: usize,
}

impl<T: Copy> Cycle<T> {
    /// The elements cycled through.
    pub closed spec fn spec_items(&self) -> Seq<T> {
        self.items@
    }

    /// The position the next call reads.
    pub closed spec fn spec_index(&self) -> int {
        self.index as int
    }

    /// Within bounds whenever there are elements.
    pub open spec fn well_formed(&self) -> bool {
        self.spec_items().len() == 0 || self.spec_index() < self.spec_items().len()
    }

    /// A cycle over the buffer.
    pub fn new(iterable: Vec<T>) -> (r: Cycle<T>)
        ensures
            r.spec_items() == iterable@,
            r.spec_index() == 0,
            r.well_formed(),
    {
        Cycle { items: iterable, index: 0 }
    }

    /// The next value, wrapping at the end; nothing when empty.
    pub fn next(&mut self) -> (r: Option<T>)
        requires
            old(self).well_formed(),
        ensures
            final(self).well_formed(),
            final(self).spec_items() == old(self).spec_items(),
            match r {
                Some(x) => old(self).spec_items().len() > 0
                    && x == old(self).spec_items()[old(self).spec_index()]
                    && final(self).spec_index()
                        == (old(self).spec_index() + 1) % old(self).spec_items().len() as int,
                None => old(self).spec_items().len() == 0
                    && final(self).spec_index() == old(self).spec_index(),
            },
    {
        if self.items.len() == 0 {
            return None;
        }
        let result = self.items[self.index];
        self.index = (self.index + 1) % self.items.len();
        Some(result)
    }

    /// The next `n` values.
    pub fn take(&mut self, n: usize) -> (r: Vec<T>)
        requires
            old(self).well_formed(),
        ensures
            final(self).well_formed(),
            final(self).spec_items() == old(self).spec_items(),
            old(self).spec_items().len() == 0 ==> r@.len() == 0,
            old(self).spec_items().len() > 0 ==> r@.len() == n
                && (forall|k: int| 0 <= k < n
                    ==> #[trigger] r@[k] == old(self).spec_items()[
                        (old(self).spec_index() + k) % old(self).spec_items().len() as int
                    ]),
    {
        let mut result: Vec<T> = Vec::new();
        let mut i: usize = 0;
        proof {
            if old(self).spec_items().len() > 0 {
                vstd::arithmetic::div_mod::lemma_small_mod(
                    old(self).spec_index() as nat,
                    old(self).spec_items().len() as nat,
                );
            }
        }
        while i < n
            invariant
                i <= n,
                self.well_formed(),
                self.spec_items() == old(self).spec_items(),
                old(self).spec_items().len() == 0 ==> result@.len() == 0
                    && self.spec_index() == old(self).spec_index(),
                old(self).spec_items().len() > 0 ==> result@.len() == i
                    && self.spec_index()
                        == (old(self).spec_index() + i) % old(self).spec_items().len() as int
                    && (forall|k: int| 0 <= k < i
                        ==> #[trigger] result@[k] == old(self).spec_items()[
                            (old(self).spec_index() + k) % old(self).spec_items().len() as int
                        ]),
            decreases n - i,
        {
            match self.next() {
                Some(x) => {
                    proof {
                        let m = old(self).spec_items().len() as int;
                        let a = old(self).spec_index();
                        vstd::arithmetic::div_mod::lemma_add_mod_noop(a + i, 1, m);
                        vstd::arithmetic::div_mod::lemma_mod_bound(a + i + 1, m);
                        if m > 1 {
                            vstd::arithmetic::div_mod::lemma_small_mod(1nat, m as nat);
                            assert((a + i) % m + 1int % m == (a + i) % m + 1);
                        } else {
                            vstd::arithmetic::div_mod::lemma_mod_bound(a + i, m);
                        }
                    }
                    result.push(x);
                }
                None => {
                }
            }
            i += 1;
        }
        result
    }
}

/// A cycle over the buffer.
pub fn cycle<T: Copy>(iterable: Vec<T>) -> (r: Cycle<T>)
    ensures
        r.spec_items() == iterable@,
        r.spec_index() == 0,
        r.well_formed(),
{
    Cycle::new(iterable)
}

/// Yields one value over and over, forever or a set number of times.
#[derive(Debug, Clone)]
pub struct Repeat<T> {
    item: T,
    times: Option<usize>,
    count: usize,
}

impl<T: Copy> Repeat<T> {
    /// The repeated value.
    pub closed spec fn spec_item(&self) -> T {
        self.item
    }

    /// The limit, when there is one.
    pub closed spec fn spec_times(&self) -> Option<usize> {
        self.times
    }

    /// How many values were already yielded.
    pub closed spec fn spec_count(&self) -> int {
        self.count as int
    }

    /// Repeat forever.
    pub fn infinite(item: T) -> (r: Repeat<T>)
        ensures
            r.spec_item() == item,
            r.spec_times() is None,
            r.spec_count() == 0,
    {
        Repeat { item, times: None, count: 0 }
    }

    /// Repeat a set number of times.
    pub fn times(item: T, times: usize) -> (r: Repeat<T>)
        ensures
            r.spec_item() == item,
            r.spec_times() == Some(times),
            r.spec_count() == 0,
    {
        Repeat { item, times: Some(times), count: 0 }
    }

    /// The next value, or nothing once the limit is spent.
    pub fn next(&mut self) -> (r: Option<T>)
        requires
            old(self).spec_count() < usize::MAX,
        ensures
            final(self).spec_item() == old(self).spec_item(),
            final(self).spec_times() == old(self).spec_times(),
            match r {
                Some(x) => x == old(self).spec_item()
                    && final(self).spec_count() == old(self).spec_count() + 1
                    && (old(self).spec_times() is Some
                        ==> old(self).spec_count() < old(self).spec_times().unwrap()),
                None => old(self).spec_times() is Some
                    && old(self).spec_count() >= old(self).spec_times().unwrap()
                    && final(self).spec_count() == old(self).spec_count(),
            },
    {
        match self.times {
            Some(limit) => {
                if self.count >= limit {
                    return None;
                }
            }
            None => {}
        }
        self.count = self.count + 1;
        Some(self.item)
    }

    /// Up to `n` more values: `n`, or however many of the limit remain.
    pub fn take(&mut self, n: usize) -> (r: Vec<T>)
        requires
            old(self).spec_count() + n <= usize::MAX,
        ensures
            final(self).spec_item() == old(self).spec_item(),
            final(self).spec_times() == old(self).spec_times(),
            r@.len() == match old(self).spec_times() {
                None => n as int,
                Some(limit) => vstd::math::min(
                    n as int,
                    vstd::math::max(limit - old(self).spec_count(), 0),
                ),
            },
            forall|k: int| 0 <= k < r@.len() ==> #[trigger] r@[k] == old(self).spec_item(),
    {
        let mut result: Vec<T> = Vec::new();
        let mut i: usize = 0;
        while i < n
            invariant
                i <= n,
                self.spec_item() == old(self).spec_item(),
                self.spec_times() == old(self).spec_times(),
                old(self).spec_count() + n <= usize::MAX,
                result@.len() <= i,
                match old(self).spec_times() {
                    None => self.spec_count() == old(self).spec_count() + i
                        && result@.len() == i,
                    Some(limit) => result@.len() == vstd::math::min(
                        i as int,
                        vstd::math::max(limit - old(self).spec_count(), 0),
                    ) && self.spec_count() == old(self).spec_count() + result@.len(),
                },
                forall|k: int| 0 <= k < result@.len()
                    ==> #[trigger] result@[k] == old(self).spec_item(),
            decreases n - i,
        {
            match self.next() {
                Some(x) => {
                    result.push(x);
                }
                None => {
                }
            }
            i += 1;
        }
        result
    }
}

/// Repeat forever.
pub fn repeat<T: Copy>(item: T) -> (r: Repeat<T>)
    ensures
        r.spec_item() == item,
        r.spec_times() is None,
        r.spec_count() == 0,
{
    Repeat::infinite(item)
}

/// Repeat a set number of times.
pub fn repeat_times<T: Copy>(item: T, times: usize) -> (r: Repeat<T>)
    ensures
        r.spec_item() == item,
        r.spec_times() == Some(times),
        r.spec_count() == 0,
{
    Repeat::times(item, times)
}

/// Hands out the elements of several buffers, one buffer after another.
#[derive(Debug, Clone)]
pub struct Chain<T> {
    items: Vec<T>,
    pos: usize,
}

impl<T: Copy> Chain<T> {
    /// The values not yet handed out, in order.
    pub closed spec fn remaining(&self) -> Seq<T> {
        self.items@.skip(self.pos as int)
    }

    /// The cursor never passes the end.
    pub closed spec fn well_formed(&self) -> bool {
        self.pos <= self.items@.len()
    }

    /// An empty chain.
    pub fn new() -> (r: Chain<T>)
        ensures
            r.remaining() == Seq::<T>::empty(),
            r.well_formed(),
    {
        let c = Chain { items: Vec::new(), pos: 0 };
        proof {
            assert(c.remaining() =~= Seq::<T>::empty());
        }
        c
    }

    /// Append one more buffer's elements to the chain.
    pub fn add(&mut self, iterable: Vec<T>)
        requires
            old(self).well_formed(),
        ensures
            final(self).well_formed(),
            final(self).remaining() == old(self).remaining() + iterable@,
    {
        let mut i: usize = 0;
        let ghost added = iterable@;
        while i < iterable.len()
            invariant
                i <= iterable@.len(),
                self.well_formed(),
                old(self).pos <= old(self).items@.len(),
                self.pos == old(self).pos,
                self.items@ == old(self).items@ + iterable@.take(i as int),
                self.remaining() == old(self).remaining() + iterable@.take(i as int),
            decreases iterable@.len() - i,
        {
            self.items.push(iterable[i]);
            proof {
                assert(self.items@ =~= old(self).items@ + iterable@.take(i + 1));
                assert(self.remaining() =~= old(self).remaining() + iterable@.take(i + 1));
            }
            i += 1;
        }
        proof {
            assert(old(self).remaining() + iterable@.take(iterable@.len() as int)
                =~= old(self).remaining() + iterable@);
        }
    }

    /// The next value of the chain.
    pub fn next(&mut self) -> (r: Option<T>)
        requires
            old(self).well_formed(),
        ensures
            final(self).well_formed(),
            match r {
                Some(x) => old(self).remaining().len() > 0 && x == old(self).remaining()[0]
                    && final(self).remaining() == old(self).remaining().skip(1),
                None => old(self).remaining().len() == 0
                    && final(self).remaining() == old(self).remaining(),
            },
    {
        if self.pos < self.items.len() {
            let x = self.items[self.pos];
            self.pos = self.pos + 1;
            proof {
                assert(final(self).remaining() =~= old(self).remaining().skip(1));
            }
            Some(x)
        } else {
            None
        }
    }

    /// Every value not yet handed out.
    pub fn collect(self) -> (r: Vec<T>)
        requires
            self.well_formed(),
        ensures
            r@ == self.remaining(),
    {
        let mut out: Vec<T> = Vec::new();
        let mut i: usize = self.pos;
        while i < self.items.len()
            invariant
                self.pos <= i <= self.items@.len(),
                out@ == self.items@.subrange(self.pos as int, i as int),
            decreases self.items@.len() - i,
        {
            out.push(self.items[i]);
            assert(out@ =~= self.items@.subrange(self.pos as int, i + 1));
            i += 1;
        }
        proof {
            assert(out@ =~= self.remaining());
        }
        out
    }
}

impl<T: Copy> Default for Chain<T> {
    /// An empty chain.
    fn default() -> (r: Chain<T>)
        ensures
            r.remaining() == Seq::<T>::empty(),
            r.well_formed(),
    {
        Chain::new()
    }
}

/// The concatenation of several buffers.
pub fn chain_from_iterable<T: Copy>(iterables: Vec<Vec<T>>) -> (r: Vec<T>)
    ensures
        r@ == iterables@.map_values(|v: Vec<T>| v@).flatten(),
{
    let ghost gviews = iterables@.map_values(|v: Vec<T>| v@);
    let mut result: Vec<T> = Vec::new();
    let mut i: usize = 0;
    proof {
        assert(gviews.take(0) =~= Seq::<Seq<T>>::empty());
        assert(Seq::<Seq<T>>::empty().flatten() =~= Seq::<T>::empty());
    }
    while i < iterables.len()
        invariant
            i <= iterables@.len(),
            gviews == iterables@.map_values(|v: Vec<T>| v@),
            result@ == gviews.take(i as int).flatten(),
        decreases iterables@.len() - i,
    {
        let mut k: usize = 0;
        let ghost before = result@;
        while k < iterables[i].len()
            invariant
                i < iterables@.len(),
                k <= iterables@[i as int]@.len(),
                gviews == iterables@.map_values(|v: Vec<T>| v@),
                result@ == before + iterables@[i as int]@.take(k as int),
            decreases iterables@[i as int]@.len() - k,
        {
            result.push(iterables[i][k]);
            proof {
                assert(result@ =~= before + iterables@[i as int]@.take(k + 1));
            }
            k += 1;
        }
        proof {
            assert(before + iterables@[i as int]@.take(iterables@[i as int]@.len() as int)
                =~= before + gviews[i as int]);
            assert(gviews.take(i + 1).drop_last() =~= gviews.take(i as int));
            gviews.take(i as int).lemma_flatten_push(gviews[i as int]);
            assert(gviews.take(i as int).push(gviews[i as int]) =~= gviews.take(i + 1));
        }
        i += 1;
    }
    assert(gviews.take(gviews.len() as int) =~= gviews);
    result
}

/// What slicing from `cur` by `step` under an optional stop gathers.
pub open spec fn islice_seq<T>(items: Seq<T>, cur: int, stop: Option<usize>, step: int) -> Seq<T>
    decreases crate::glob::clamp0(items.len() - cur) + 1,
{
    if cur < 0 || cur >= items.len() || (stop is Some && cur >= stop.unwrap()) || step < 1 {
        Seq::empty()
    } else {
        seq![items[cur]] + islice_seq(items, cur + step, stop, step)
    }
}

/// Walks a buffer from `start` by `step`, stopping at `stop` or the end.
#[derive(Debug, Clone)]
pub struct ISlice<T> {
    items: Vec<T>,
    stop: Option<usize>,
    step: usize,
    current: usize,
}

impl<T: Copy> ISlice<T> {
    /// The values the walk will still visit.
    pub closed spec fn remaining(&self) -> Seq<T> {
        islice_seq(self.items@, self.current as int, self.stop, self.step as int)
    }

    /// The step is at least one.
    pub closed spec fn well_formed(&self) -> bool {
        self.step >= 1
    }

    /// A walk from `start` by `step` (a zero step walks by one), stopping
    /// before `stop` when given.
    pub fn new(iterable: Vec<T>, start: usize, stop: Option<usize>, step: usize) -> (r: ISlice<T>)
        ensures
            r.well_formed(),
            r.remaining() == islice_seq(
                iterable@,
                start as int,
                stop,
                vstd::math::max(step as int, 1),
            ),
    {
        let actual_step: usize = if step >= 1 {
            step
        } else {
            1
        };
        ISlice { items: iterable, stop, step: actual_step, current: start }
    }

    /// The next visited value.
    pub fn next(&mut self) -> (r: Option<T>)
        requires
            old(self).well_formed(),
        ensures
            final(self).well_formed(),
            match r {
                Some(x) => old(self).remaining().len() > 0 && x == old(self).remaining()[0]
                    && final(self).remaining() == old(self).remaining().skip(1),
                None => old(self).remaining().len() == 0
                    && final(self).remaining() == old(self).remaining(),
            },
    {
        if self.current >= self.items.len() {
            return None;
        }
        match self.stop {
            Some(stop) => {
                if self.current >= stop {
                    return None;
                }
            }
            None => {}
        }
        let x = self.items[self.current];
        let next_pos = if self.current <= usize::MAX - self.step {
            self.current + self.step
        } else {
            usize::MAX
        };
        proof {
            if old(self).current + old(self).step > usize::MAX {
                assert(islice_seq(
                    self.items@,
                    old(self).current + old(self).step,
                    self.stop,
                    self.step as int,
                ) =~= Seq::<T>::empty());
                assert(islice_seq(self.items@, usize::MAX as int, self.stop, self.step as int)
                    =~= Seq::<T>::empty());
            }
        }
        self.current = next_pos;
        proof {
            assert(final(self).remaining() =~= old(self).remaining().skip(1));
        }
        Some(x)
    }

    /// Every value the walk still visits.
    pub fn collect(self) -> (r: Vec<T>)
        requires
            self.well_formed(),
        ensures
            r@ == self.remaining(),
    {
        let mut cur = self;
        let mut out: Vec<T> = Vec::new();
        let ghost whole = cur.remaining();
        proof {
            assert(Seq::<T>::empty() + whole =~= whole);
        }
        loop
            invariant
                cur.well_formed(),
                whole == self.remaining(),
                whole == out@ + cur.remaining(),
            decreases cur.remaining().len(),
        {
            match cur.next() {
                Some(x) => {
                    out.push(x);
                    proof {
                        assert(whole =~= out@ + cur.remaining());
                    }
                }
                None => {
                    proof {
                        assert(out@ + cur.remaining() =~= out@);
                    }
                    return out;
                }
            }
        }
    }
}

/// Values of the walk from `start` by `step` (a zero step walks by one),
/// stopping before `stop` when given.
pub fn islice<T: Copy>(iterable: Vec<T>, start: usize, stop: Option<usize>, step: usize) -> (r:
    Vec<T>)
    ensures
        r@ == islice_seq(iterable@, start as int, stop, vstd::math::max(step as int, 1)),
{
    ISlice::new(iterable, start, stop, step).collect()
}

/// The longest prefix whose elements all satisfy the predicate.
pub fn takewhile<T: Copy, F: Fn(&T) -> bool>(iterable: Vec<T>, predicate: F) -> (r: Vec<T>)
    requires
        forall|i: int| 0 <= i < iterable@.len() ==> call_requires(predicate, (&iterable@[i],)),
    ensures
        r@.len() <= iterable@.len(),
        r@ == iterable@.take(r@.len() as int),
        forall|i: int| 0 <= i < r@.len()
            ==> call_ensures(predicate, (&iterable@[i],), true),
        r@.len() < iterable@.len()
            ==> call_ensures(predicate, (&iterable@[r@.len() as int],), false),
{
    let mut out: Vec<T> = Vec::new();
    let mut i: usize = 0;
    while i < iterable.len()
        invariant
            i <= iterable@.len(),
            out@ == iterable@.take(i as int),
            forall|k: int| 0 <= k < iterable@.len()
                ==> call_requires(predicate, (&iterable@[k],)),
            forall|k: int| 0 <= k < i ==> call_ensures(predicate, (&iterable@[k],), true),
        decreases iterable@.len() - i,
    {
        let keep = predicate(&iterable[i]);
        if !keep {
            return out;
        }
        out.push(iterable[i]);
        assert(out@ =~= iterable@.take(i + 1));
        i += 1;
    }
    out
}

/// The suffix after the longest prefix whose elements all satisfy the
/// predicate.
pub fn dropwhile<T: Copy, F: Fn(&T) -> bool>(iterable: Vec<T>, predicate: F) -> (r: Vec<T>)
    requires
        forall|i: int| 0 <= i < iterable@.len() ==> call_requires(predicate, (&iterable@[i],)),
    ensures
        r@.len() <= iterable@.len(),
        r@ == iterable@.skip(iterable@.len() - r@.len()),
        forall|i: int| 0 <= i < iterable@.len() - r@.len()
            ==> call_ensures(predicate, (&iterable@[i],), true),
        r@.len() > 0 ==> call_ensures(
            predicate,
            (&iterable@[iterable@.len() - r@.len()],),
            false,
        ),
{
    let mut i: usize = 0;
    let mut stopped = false;
    while i < iterable.len() && !stopped
        invariant
            i <= iterable@.len(),
            forall|k: int| 0 <= k < iterable@.len()
                ==> call_requires(predicate, (&iterable@[k],)),
            forall|k: int| 0 <= k < i ==> call_ensures(predicate, (&iterable@[k],), true),
            stopped ==> i < iterable@.len()
                && call_ensures(predicate, (&iterable@[i as int],), false),
        decreases iterable@.len() - i + (if stopped { 0int } else { 1int }),
    {
        let keep = predicate(&iterable[i]);
        if !keep {
            stopped = true;
        } else {
            i += 1;
        }
    }
    let mut out: Vec<T> = Vec::new();
    let drop_to = i;
    let mut k: usize = drop_to;
    while k < iterable.len()
        invariant
            drop_to <= k <= iterable@.len(),
            out@ == iterable@.subrange(drop_to as int, k as int),
        decreases iterable@.len() - k,
    {
        out.push(iterable[k]);
        assert(out@ =~= iterable@.subrange(drop_to as int, k + 1));
        k += 1;
    }
    proof {
        assert(out@ =~= iterable@.skip(drop_to as int));
    }
    out
}

/// The elements on which the predicate is false, in order.
pub fn filterfalse<T: Copy, F: Fn(&T) -> bool>(iterable: Vec<T>, predicate: F) -> (r: Vec<T>)
    requires
        forall|i: int| 0 <= i < iterable@.len() ==> call_requires(predicate, (&iterable@[i],)),
    ensures
        forall|i: int| 0 <= i < r@.len() ==> call_ensures(predicate, (&r@[i],), false),
        r@.len() <= iterable@.len(),
{
    let mut out: Vec<T> = Vec::new();
    let mut i: usize = 0;
    while i < iterable.len()
        invariant
            i <= iterable@.len(),
            out@.len() <= i,
            forall|k: int| 0 <= k < iterable@.len()
                ==> call_requires(predicate, (&iterable@[k],)),
            forall|k: int| 0 <= k < out@.len()
                ==> call_ensures(predicate, (&out@[k],), false),
        decreases iterable@.len() - i,
    {
        let keep = predicate(&iterable[i]);
        if !keep {
            out.push(iterable[i]);
        }
        i += 1;
    }
    out
}

/// The data elements whose selector is true, position by position; the
/// longer input's tail is ignored.
pub open spec fn compress_spec<T>(data: Seq<T>, selectors: Seq<bool>, i: int) -> Seq<T>
    decreases data.len() - i + 1,
{
    if i < 0 || i >= data.len() || i >= selectors.len() {
        Seq::empty()
    } else if selectors[i] {
        seq![data[i]] + compress_spec(data, selectors, i + 1)
    } else {
        compress_spec(data, selectors, i + 1)
    }
}

/// Select by a parallel run of booleans.
#[derive(Debug, Clone)]
pub struct Compress<T> {
    data: Vec<T>,
    selectors: Vec<bool>,
    index: usize,
}

impl<T: Copy> Compress<T> {
    /// The selected values not yet handed out.
    pub closed spec fn remaining(&self) -> Seq<T> {
        compress_spec(self.data@, self.selectors@, self.index as int)
    }

    /// A selection of `data` by `selectors`.
    pub fn new(data: Vec<T>, selectors: Vec<bool>) -> (r: Compress<T>)
        ensures
            r.remaining() == compress_spec(data@, selectors@, 0),
    {
        Compress { data, selectors, index: 0 }
    }

    /// The next selected value.
    pub fn next(&mut self) -> (r: Option<T>)
        ensures
            match r {
                Some(x) => old(self).remaining().len() > 0 && x == old(self).remaining()[0]
                    && final(self).remaining() == old(self).remaining().skip(1),
                None => old(self).remaining().len() == 0
                    && final(self).remaining() == old(self).remaining(),
            },
    {
        loop
            invariant
                self.data@ == old(self).data@,
                self.selectors@ == old(self).selectors@,
                old(self).remaining() == self.remaining(),
            decreases self.data@.len() + 1 - self.index,
        {
            if self.index >= self.data.len() || self.index >= self.selectors.len() {
                return None;
            }
            let i = self.index;
            self.index = i + 1;
            if self.selectors[i] {
                proof {
                    assert(final(self).remaining() =~= old(self).remaining().skip(1));
                }
                return Some(self.data[i]);
            }
        }
    }

    /// Every selected value not yet handed out.
    pub fn collect(self) -> (r: Vec<T>)
        ensures
            r@ == self.remaining(),
    {
        let mut cur = self;
        let mut out: Vec<T> = Vec::new();
        let ghost whole = cur.remaining();
        proof {
            assert(Seq::<T>::empty() + whole =~= whole);
        }
        loop
            invariant
                whole == self.remaining(),
                whole == out@ + cur.remaining(),
            decreases cur.remaining().len(),
        {
            match cur.next() {
                Some(x) => {
                    out.push(x);
                    proof {
                        assert(whole =~= out@ + cur.remaining());
                    }
                }
                None => {
                    proof {
                        assert(out@ + cur.remaining() =~= out@);
                    }
                    return out;
                }
            }
        }
    }
}

/// The data elements whose parallel selector is true.
pub fn compress<T: Copy>(data: Vec<T>, selectors: Vec<bool>) -> (r: Vec<T>)
    ensures
        r@ == compress_spec(data@, selectors@, 0),
{
    Compress::new(data, selectors).collect()
}

/// Each sequence of `r` elements drawn from `s` in order, positions
/// strictly increasing, in the order that fixes earlier positions first.
pub open spec fn combinations_spec<T>(s: Seq<T>, r: nat) -> Seq<Seq<T>>
    decreases s.len(), r,
{
    if r == 0 {
        seq![Seq::<T>::empty()]
    } else if s.len() < r {
        Seq::empty()
    } else {
        combinations_spec(s.skip(1), (r - 1) as nat).map_values(|q: Seq<T>| seq![s[0]] + q)
            + combinations_spec(s.skip(1), r)
    }
}

/// The combinations of length `r`.
pub fn combinations<T: Copy>(iterable: &[T], r: usize) -> (out: Vec<Vec<T>>)
    ensures
        out@.map_values(|q: Vec<T>| q@) == combinations_spec(iterable@, r as nat),
{
    let out = comb_from(iterable, 0, r);
    proof {
        assert(iterable@.skip(0) =~= iterable@);
    }
    out
}

/// The combinations of length `r` drawn from positions `start` on.
fn comb_from<T: Copy>(items: &[T], start: usize, r: usize) -> (out: Vec<Vec<T>>)
    requires
        start <= items@.len(),
    ensures
        out@.map_values(|q: Vec<T>| q@) == combinations_spec(items@.skip(start as int), r as nat),
    decreases items@.len() - start, r,
{
    let ghost rest = items@.skip(start as int);
    let mut out: Vec<Vec<T>> = Vec::new();
    if r == 0 {
        out.push(Vec::new());
        proof {
            assert(out@.map_values(|q: Vec<T>| q@) =~= seq![Seq::<T>::empty()]);
        }
        return out;
    }
    if items.len() - start < r {
        proof {
            assert(out@.map_values(|q: Vec<T>| q@) =~= Seq::<Seq<T>>::empty());
        }
        return out;
    }
    proof {
        assert(rest.skip(1) =~= items@.skip(start + 1));
    }
    let with_first = comb_from(items, start + 1, r - 1);
    let mut i: usize = 0;
    let ghost sub = combinations_spec(items@.skip(start + 1), (r - 1) as nat);
    while i < with_first.len()
        invariant
            i <= with_first@.len(),
            start < items@.len(),
            sub == combinations_spec(items@.skip(start + 1), (r - 1) as nat),
            with_first@.map_values(|q: Vec<T>| q@) == sub,
            out@.len() == i,
            forall|k: int| 0 <= k < i
                ==> (#[trigger] out@[k])@ == seq![items@[start as int]] + sub[k],
        decreases with_first@.len() - i,
    {
        let mut q: Vec<T> = Vec::new();
        q.push(items[start]);
        let mut t: usize = 0;
        while t < with_first[i].len()
            invariant
                i < with_first@.len(),
                t <= with_first@[i as int]@.len(),
                start < items@.len(),
                q@ == seq![items@[start as int]] + with_first@[i as int]@.take(t as int),
            decreases with_first@[i as int]@.len() - t,
        {
            q.push(with_first[i][t]);
            proof {
                assert(q@ =~= seq![items@[start as int]]
                    + with_first@[i as int]@.take(t + 1));
            }
            t += 1;
        }
        proof {
            assert(with_first@[i as int]@.take(with_first@[i as int]@.len() as int)
                =~= with_first@[i as int]@);
            assert(with_first@[i as int]@ == sub[i as int]);
        }
        out.push(q);
        i += 1;
    }
    let without = comb_from(items, start + 1, r);
    let ghost mid = out@;
    let mut j: usize = 0;
    while j < without.len()
        invariant
            j <= without@.len(),
            out@.len() == mid.len() + j,
            forall|k: int| 0 <= k < mid.len() ==> #[trigger] out@[k] == mid[k],
            forall|k: int| 0 <= k < j ==> (#[trigger] out@[mid.len() + k])@ == without@[k]@,
        decreases without@.len() - j,
    {
        let mut q: Vec<T> = Vec::new();
        let mut t: usize = 0;
        while t < without[j].len()
            invariant
                j < without@.len(),
                t <= without@[j as int]@.len(),
                q@ == without@[j as int]@.take(t as int),
            decreases without@[j as int]@.len() - t,
        {
            q.push(without[j][t]);
            assert(q@ =~= without@[j as int]@.take(t + 1));
            t += 1;
        }
        proof {
            assert(q@ =~= without@[j as int]@);
        }
        out.push(q);
        j += 1;
    }
    proof {
        let lhs = out@.map_values(|q: Vec<T>| q@);
        let sub2 = combinations_spec(rest.skip(1), (r - 1) as nat);
        assert(rest.skip(1) =~= items@.skip(start + 1));
        let part1 = sub2.map_values(|q: Seq<T>| seq![rest[0]] + q);
        let part2 = combinations_spec(rest.skip(1), r as nat);
        let rhs = combinations_spec(rest, r as nat);
        assert(rhs == part1 + part2);
        assert(rest[0] == items@[start as int]);
        assert forall|k: int| 0 <= k < lhs.len() implies lhs[k] == rhs[k] by {
            if k < mid.len() {
                assert(out@[k]@ == seq![items@[start as int]] + sub[k]);
                assert(part1[k] == seq![rest[0]] + sub2[k]);
            } else {
                assert(out@[mid.len() + (k - mid.len())]@ == without@[k - mid.len()]@);
                assert(out@[k]@ == without@[k - mid.len()]@);
                assert(without@.map_values(|q: Vec<T>| q@)[k - mid.len()]
                    == part2[k - mid.len()]);
            }
        }
        assert(lhs =~= rhs);
    }
    out
}


/// Every sequence with each element prefixed by `x`.
pub open spec fn prepend_all<T>(x: T, ss: Seq<Seq<T>>) -> Seq<Seq<T>> {
    ss.map_values(|q: Seq<T>| seq![x] + q)
}

/// The length-`r` arrangements of `s`: each position `i` leads the
/// arrangements of the rest, in position order.
pub open spec fn permutations_spec<T>(s: Seq<T>, r: nat) -> Seq<Seq<T>>
    decreases r, s.len() + 1,
{
    if r == 0 {
        seq![Seq::<T>::empty()]
    } else if s.len() < r {
        Seq::empty()
    } else {
        perm_alts(s, r, 0)
    }
}

/// The arrangements led by positions `i` on.
pub open spec fn perm_alts<T>(s: Seq<T>, r: nat, i: int) -> Seq<Seq<T>>
    decreases r, s.len() - i,
{
    if i < 0 || i >= s.len() || r == 0 {
        Seq::empty()
    } else {
        prepend_all(s[i], permutations_spec(s.remove(i), (r - 1) as nat))
            + perm_alts(s, r, i + 1)
    }
}

/// The arrangements of length `r` (the whole buffer's length when no `r`
/// is given).
pub fn permutations<T: Copy>(iterable: &[T], r: Option<usize>) -> (out: Vec<Vec<T>>)
    ensures
        out@.map_values(|q: Vec<T>| q@) == permutations_spec(
            iterable@,
            (if r is Some {
                r.unwrap()
            } else {
                iterable@.len() as usize
            }) as nat,
        ),
{
    let rr: usize = match r {
        Some(v) => v,
        None => iterable.len(),
    };
    let items: Vec<T> = vstd::slice::slice_to_vec(iterable);
    perms_of(&items, rr)
}

/// The arrangements of length `r` of the buffer.
fn perms_of<T: Copy>(items: &Vec<T>, r: usize) -> (out: Vec<Vec<T>>)
    ensures
        out@.map_values(|q: Vec<T>| q@) == permutations_spec(items@, r as nat),
    decreases r,
{
    let mut out: Vec<Vec<T>> = Vec::new();
    if r == 0 {
        out.push(Vec::new());
        proof {
            assert(out@.map_values(|q: Vec<T>| q@) =~= seq![Seq::<T>::empty()]);
        }
        return out;
    }
    if items.len() < r {
        proof {
            assert(out@.map_values(|q: Vec<T>| q@) =~= Seq::<Seq<T>>::empty());
        }
        return out;
    }
    let mut i: usize = 0;
    proof {
        assert(Seq::<Seq<T>>::empty() + perm_alts(items@, r as nat, 0)
            =~= perm_alts(items@, r as nat, 0));
    }
    while i < items.len()
        invariant
            i <= items@.len(),
            r >= 1,
            items@.len() >= r,
            out@.map_values(|q: Vec<T>| q@) + perm_alts(items@, r as nat, i as int)
                == perm_alts(items@, r as nat, 0),
        decreases items@.len() - i,
    {
        // the buffer with position i removed
        let mut rest: Vec<T> = Vec::new();
        let mut k: usize = 0;
        while k < items.len()
            invariant
                i < items@.len(),
                k <= items@.len(),
                rest@ == if k <= i {
                    items@.take(k as int)
                } else {
                    items@.remove(i as int).take(k - 1)
                },
            decreases items@.len() - k,
        {
            if k != i {
                rest.push(items[k]);
            }
            proof {
                if k + 1 <= i {
                    assert(rest@ =~= items@.take(k + 1));
                } else if k < i {
                    assert(rest@ =~= items@.take(k + 1));
                } else if k == i {
                    assert(rest@ =~= items@.remove(i as int).take(k as int));
                } else {
                    assert(rest@ =~= items@.remove(i as int).take(k as int));
                }
            }
            k += 1;
        }
        proof {
            assert(rest@ =~= items@.remove(i as int));
        }
        let subs = perms_of(&rest, r - 1);
        let ghost sub_spec = permutations_spec(items@.remove(i as int), (r - 1) as nat);
        let ghost out_before = out@.map_values(|q: Vec<T>| q@);
        let mut j: usize = 0;
        while j < subs.len()
            invariant
                j <= subs@.len(),
                i < items@.len(),
                sub_spec == permutations_spec(items@.remove(i as int), (r - 1) as nat),
                subs@.map_values(|q: Vec<T>| q@) == sub_spec,
                out_before.len() <= out@.len(),
                out@.map_values(|q: Vec<T>| q@).len() == out_before.len() + j,
                forall|w: int| 0 <= w < out_before.len()
                    ==> (#[trigger] out@[w])@ == out_before[w],
                forall|w: int| 0 <= w < j
                    ==> (#[trigger] out@[out_before.len() + w])@
                        == seq![items@[i as int]] + sub_spec[w],
            decreases subs@.len() - j,
        {
            let mut q: Vec<T> = Vec::new();
            q.push(items[i]);
            let mut t: usize = 0;
            while t < subs[j].len()
                invariant
                    j < subs@.len(),
                    t <= subs@[j as int]@.len(),
                    i < items@.len(),
                    q@ == seq![items@[i as int]] + subs@[j as int]@.take(t as int),
                decreases subs@[j as int]@.len() - t,
            {
                q.push(subs[j][t]);
                proof {
                    assert(q@ =~= seq![items@[i as int]] + subs@[j as int]@.take(t + 1));
                }
                t += 1;
            }
            proof {
                assert(subs@[j as int]@.take(subs@[j as int]@.len() as int)
                    =~= subs@[j as int]@);
                assert(subs@[j as int]@ == sub_spec[j as int]);
            }
            out.push(q);
            j += 1;
        }
        proof {
            let lhs = out@.map_values(|q: Vec<T>| q@);
            let alt = prepend_all(items@[i as int], sub_spec);
            assert forall|w: int| 0 <= w < lhs.len() implies lhs[w] == (out_before + alt)[w] by {
                if w < out_before.len() {
                } else {
                    assert(out@[out_before.len() + (w - out_before.len())]@
                        == seq![items@[i as int]] + sub_spec[w - out_before.len()]);
                    assert(alt[w - out_before.len()]
                        == seq![items@[i as int]] + sub_spec[w - out_before.len()]);
                }
            }
            assert(lhs =~= out_before + alt);
            assert(lhs + perm_alts(items@, r as nat, i + 1)
                =~= out_before + (alt + perm_alts(items@, r as nat, i + 1)));
            assert(alt + perm_alts(items@, r as nat, i + 1)
                == perm_alts(items@, r as nat, i as int));
        }
        i += 1;
    }
    proof {
        assert(perm_alts(items@, r as nat, items@.len() as int) =~= Seq::<Seq<T>>::empty());
        assert(out@.map_values(|q: Vec<T>| q@) + Seq::<Seq<T>>::empty()
            =~= out@.map_values(|q: Vec<T>| q@));
        assert(out@.map_values(|q: Vec<T>| q@) =~= permutations_spec(items@, r as nat));
    }
    out
}

/// Each partial product extended by every element of `items`, in order.
pub open spec fn cross<T>(acc: Seq<Seq<T>>, items: Seq<T>) -> Seq<Seq<T>>
    decreases acc.len(),
{
    if acc.len() == 0 {
        Seq::empty()
    } else {
        items.map_values(|x: T| acc[0].push(x)) + cross(acc.skip(1), items)
    }
}

/// The product of the first `i` buffers.
pub open spec fn product_upto<T>(ss: Seq<Seq<T>>, i: int) -> Seq<Seq<T>>
    decreases i,
{
    if i <= 0 {
        seq![Seq::<T>::empty()]
    } else {
        cross(product_upto(ss, i - 1), ss[i - 1])
    }
}

/// Every way of picking one element from each buffer, earliest buffer
/// varying slowest.
pub fn product<T: Copy>(iterables: &[Vec<T>]) -> (out: Vec<Vec<T>>)
    ensures
        out@.map_values(|q: Vec<T>| q@) == product_upto(
            iterables@.map_values(|v: Vec<T>| v@),
            iterables@.len() as int,
        ),
{
    let ghost gviews = iterables@.map_values(|v: Vec<T>| v@);
    let mut result: Vec<Vec<T>> = Vec::new();
    result.push(Vec::new());
    proof {
        assert(result@.map_values(|q: Vec<T>| q@) =~= product_upto(gviews, 0));
    }
    let mut i: usize = 0;
    while i < iterables.len()
        invariant
            i <= iterables@.len(),
            gviews == iterables@.map_values(|v: Vec<T>| v@),
            result@.map_values(|q: Vec<T>| q@) == product_upto(gviews, i as int),
        decreases iterables@.len() - i,
    {
        let mut next: Vec<Vec<T>> = Vec::new();
        let ghost acc = result@.map_values(|q: Vec<T>| q@);
        let mut e: usize = 0;
        proof {
            assert(Seq::<Seq<T>>::empty() + cross(acc, gviews[i as int])
                =~= cross(acc, gviews[i as int]));
            assert(acc.skip(0) =~= acc);
        }
        while e < result.len()
            invariant
                e <= result@.len(),
                i < iterables@.len(),
                gviews == iterables@.map_values(|v: Vec<T>| v@),
                acc == result@.map_values(|q: Vec<T>| q@),
                next@.map_values(|q: Vec<T>| q@) + cross(acc.skip(e as int), gviews[i as int])
                    == cross(acc, gviews[i as int]),
            decreases result@.len() - e,
        {
            let ghost rest = acc.skip(e as int);
            let mut x: usize = 0;
            let ghost next_before = next@.map_values(|q: Vec<T>| q@);
            while x < iterables[i].len()
                invariant
                    x <= iterables@[i as int]@.len(),
                    e < result@.len(),
                    i < iterables@.len(),
                    gviews == iterables@.map_values(|v: Vec<T>| v@),
                    acc == result@.map_values(|q: Vec<T>| q@),
                    next@.map_values(|q: Vec<T>| q@).len() == next_before.len() + x,
                    forall|w: int| 0 <= w < next_before.len()
                        ==> (#[trigger] next@[w])@ == next_before[w],
                    forall|w: int| 0 <= w < x
                        ==> (#[trigger] next@[next_before.len() + w])@
                            == acc[e as int].push(gviews[i as int][w]),
                decreases iterables@[i as int]@.len() - x,
            {
                let mut combo: Vec<T> = Vec::new();
                let src = &result[e];
                let mut t: usize = 0;
                while t < src.len()
                    invariant
                        t <= src@.len(),
                        combo@ == src@.take(t as int),
                    decreases src@.len() - t,
                {
                    combo.push(src[t]);
                    assert(combo@ =~= src@.take(t + 1));
                    t += 1;
                }
                assert(src@.take(src@.len() as int) =~= src@);
                combo.push(iterables[i][x]);
                proof {
                    assert(combo@ =~= acc[e as int].push(gviews[i as int][x as int]));
                }
                next.push(combo);
                x += 1;
            }
            proof {
                let lhs = next@.map_values(|q: Vec<T>| q@);
                let added = gviews[i as int].map_values(|y: T| rest[0].push(y));
                assert(rest[0] == acc[e as int]);
                assert forall|w: int| 0 <= w < lhs.len()
                    implies lhs[w] == (next_before + added)[w] by {
                    if w >= next_before.len() {
                        assert(next@[next_before.len() + (w - next_before.len())]@
                            == acc[e as int].push(gviews[i as int][w - next_before.len()]));
                        assert(added[w - next_before.len()]
                            == acc[e as int].push(gviews[i as int][w - next_before.len()]));
                    }
                }
                assert(lhs =~= next_before + added);
                assert(rest.skip(1) =~= acc.skip(e + 1));
                assert(cross(rest, gviews[i as int])
                    == added + cross(acc.skip(e + 1), gviews[i as int]));
                assert(lhs + cross(acc.skip(e + 1), gviews[i as int])
                    =~= cross(acc, gviews[i as int]));
            }
            e += 1;
        }
        proof {
            assert(acc.skip(acc.len() as int) =~= Seq::<Seq<T>>::empty());
            assert(cross(Seq::<Seq<T>>::empty(), gviews[i as int]) =~= Seq::<Seq<T>>::empty());
            assert(next@.map_values(|q: Vec<T>| q@) + Seq::<Seq<T>>::empty()
                =~= next@.map_values(|q: Vec<T>| q@));
            assert(next@.map_values(|q: Vec<T>| q@) =~= product_upto(gviews, i + 1));
        }
        result = next;
        i += 1;
    }
    result
}

/// Running totals: each output is the previous total plus the next input,
/// or the combining function's result when one is given.
pub fn accumulate<F: Fn(&i64, &i64) -> i64>(iterable: &[i64], func: Option<F>) -> (r: Vec<i64>)
    requires
        func is None ==> crate::caps::i64_prefix_sums_ok(iterable@),
        func is Some ==> forall|a: i64, b: i64| call_requires(func.unwrap(), (&a, &b)),
    ensures
        r@.len() == iterable@.len(),
        iterable@.len() > 0 ==> r@[0] == iterable@[0],
        func is None ==> forall|k: int| 0 <= k < r@.len()
            ==> (#[trigger] r@[k]) as int == crate::caps::seq_sum_i64(iterable@.take(k + 1)),
        func is Some ==> forall|k: int| 1 <= k < r@.len()
            ==> call_ensures(func.unwrap(), (&r@[k - 1], &iterable@[k]), #[trigger] r@[k]),
{
    let mut out: Vec<i64> = Vec::new();
    if iterable.len() == 0 {
        return out;
    }
    proof {
        assert(iterable@.take(1).drop_last() =~= Seq::<i64>::empty());
        assert(iterable@.take(1).last() == iterable@[0]);
        assert(crate::caps::seq_sum_i64(Seq::<i64>::empty()) == 0);
        assert(crate::caps::seq_sum_i64(iterable@.take(1)) == iterable@[0] as int);
    }
    out.push(iterable[0]);
    let mut i: usize = 1;
    while i < iterable.len()
        invariant
            1 <= i <= iterable@.len(),
            out@.len() == i,
            out@[0] == iterable@[0],
            func is None ==> crate::caps::i64_prefix_sums_ok(iterable@),
            func is Some ==> forall|a: i64, b: i64| call_requires(func.unwrap(), (&a, &b)),
            func is None ==> forall|k: int| 0 <= k < i
                ==> (#[trigger] out@[k]) as int
                    == crate::caps::seq_sum_i64(iterable@.take(k + 1)),
            func is Some ==> forall|k: int| 1 <= k < i
                ==> call_ensures(func.unwrap(), (&out@[k - 1], &iterable@[k]), #[trigger] out@[k]),
        decreases iterable@.len() - i,
    {
        let prev = out[i - 1];
        let next_val: i64 = match &func {
            Some(f) => f(&prev, &iterable[i]),
            None => {
                proof {
                    assert(iterable@.take(i + 1).drop_last() =~= iterable@.take(i as int));
                    assert((out@[i - 1]) as int
                        == crate::caps::seq_sum_i64(iterable@.take(i as int)));
                    assert(crate::caps::seq_sum_i64(iterable@.take(i + 1))
                        == prev as int + iterable@[i as int]);
                    assert(i64::MIN <= crate::caps::seq_sum_i64(iterable@.take(i + 1))
                        <= i64::MAX);
                }
                prev + iterable[i]
            }
        };
        out.push(next_val);
        i += 1;
    }
    out
}

} // verus!
