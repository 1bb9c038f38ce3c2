//! The built-in functions: generic operations written once against the
//! capability traits, usable with any conforming argument type.

use vstd::prelude::*;
use vstd::std_specs::cmp::PartialEqSpec;
use crate::caps::AsStrLike;
use crate::caps::Len;
use crate::caps::PyAbs;
use crate::caps::PyBool;
use crate::caps::PyInt;
use crate::caps::PySum;
use crate::caps::PyToString;
use crate::caps::Truthy;
use crate::exceptions::PyException;
use crate::pylist::PyList;
use crate::pystr::format_from;
use crate::pytuple::PyTuple;
use crate::strutil;
use crate::strutil::find_from;
use crate::strutil::join_spec;
use crate::strutil::occurs_at;
use crate::strutil::repeat_spec;
use crate::strutil::repeat_chars;
use crate::strutil::str_to_chars;
use crate::strutil::chars_to_string;

verus! {

/// The length of any measurable object.
pub fn len<T: Len>(obj: &T) -> (r: usize)
    ensures
        r as nat == obj.spec_len(),
{
    obj.len()
}

/// Absolute value of any numeric with the capability.
pub fn abs<T: PyAbs>(x: T) -> (r: T::Output)
    requires
        x.abs_ok(),
    ensures
        r == x.spec_abs(),
{
    x.py_abs()
}

/// Least element of the slice, or nothing when it is empty.
pub fn min(iterable: &[i64]) -> (r: Option<i64>)
    ensures
        match r {
            Some(m) => iterable@.contains(m)
                && forall|k: int| 0 <= k < iterable@.len() ==> m <= #[trigger] iterable@[k],
            None => iterable@.len() == 0,
        },
{
    if iterable.len() == 0 {
        return None;
    }
    let mut best = iterable[0];
    let mut i: usize = 1;
    while i < iterable.len()
        invariant
            1 <= i <= iterable@.len(),
            iterable@.contains(best),
            forall|k: int| 0 <= k < i ==> best <= #[trigger] iterable@[k],
        decreases iterable@.len() - i,
    {
        if iterable[i] < best {
            best = iterable[i];
        }
        i += 1;
    }
    Some(best)
}

/// Greatest element of the slice, or nothing when it is empty.
pub fn max(iterable: &[i64]) -> (r: Option<i64>)
    ensures
        match r {
            Some(m) => iterable@.contains(m)
                && forall|k: int| 0 <= k < iterable@.len() ==> m >= #[trigger] iterable@[k],
            None => iterable@.len() == 0,
        },
{
    if iterable.len() == 0 {
        return None;
    }
    let mut best = iterable[0];
    let mut i: usize = 1;
    while i < iterable.len()
        invariant
            1 <= i <= iterable@.len(),
            iterable@.contains(best),
            forall|k: int| 0 <= k < i ==> best >= #[trigger] iterable@[k],
        decreases iterable@.len() - i,
    {
        if iterable[i] > best {
            best = iterable[i];
        }
        i += 1;
    }
    Some(best)
}

/// Collapse a summable sequence into its aggregate.
pub fn sum<I: PySum<T>, T>(iterable: I) -> (r: T)
    requires
        iterable.sum_ok(),
    ensures
        r == iterable.spec_sum(),
{
    iterable.py_sum()
}

/// Whether every element is truthy.
pub fn all<T: Truthy>(iterable: &[T]) -> (r: bool)
    ensures
        r == forall|k: int| 0 <= k < iterable@.len() ==> #[trigger] iterable@[k].spec_truthy(),
{
    let mut i: usize = 0;
    while i < iterable.len()
        invariant
            i <= iterable@.len(),
            forall|k: int| 0 <= k < i ==> #[trigger] iterable@[k].spec_truthy(),
        decreases iterable@.len() - i,
    {
        if !iterable[i].is_truthy() {
            return false;
        }
        i += 1;
    }
    true
}

/// Whether some element is truthy.
pub fn any<T: Truthy>(iterable: &[T]) -> (r: bool)
    ensures
        r == exists|k: int| 0 <= k < iterable@.len() && #[trigger] iterable@[k].spec_truthy(),
{
    let mut i: usize = 0;
    while i < iterable.len()
        invariant
            i <= iterable@.len(),
            forall|k: int| 0 <= k < i ==> !#[trigger] iterable@[k].spec_truthy(),
        decreases iterable@.len() - i,
    {
        if iterable[i].is_truthy() {
            return true;
        }
        i += 1;
    }
    false
}

/// Pair each element with its position.
pub fn enumerate<T>(iterable: Vec<T>) -> (r: Vec<(usize, T)>)
    ensures
        r@.len() == iterable@.len(),
        forall|k: int| 0 <= k < r@.len()
            ==> #[trigger] r@[k].0 == k && r@[k].1 == iterable@[k],
{
    let ghost orig = iterable@;
    let mut rest = iterable;
    let _len_fact = rest.len();
    let mut out: Vec<(usize, T)> = Vec::new();
    let mut i: usize = 0;
    while rest.len() > 0
        invariant
            orig.len() <= usize::MAX,
            i + rest@.len() == orig.len(),
            rest@ == orig.skip(i as int),
            out@.len() == i,
            forall|k: int| 0 <= k < i
                ==> #[trigger] out@[k].0 == k && out@[k].1 == orig[k],
        decreases rest@.len(),
    {
        let ghost before = rest@;
        let x = rest.remove(0);
        proof {
            assert(before.subrange(1, before.len() as int) =~= orig.skip(i + 1));
        }
        out.push((i, x));
        i += 1;
    }
    out
}

/// Pair each element of a borrowed slice with its position.
pub fn enumerate_slice<T>(iterable: &[T]) -> (r: Vec<(usize, &T)>)
    ensures
        r@.len() == iterable@.len(),
        forall|k: int| 0 <= k < r@.len()
            ==> #[trigger] r@[k].0 == k && *r@[k].1 == iterable@[k],
{
    let mut out: Vec<(usize, &T)> = Vec::new();
    let mut i: usize = 0;
    while i < iterable.len()
        invariant
            i <= iterable@.len(),
            out@.len() == i,
            forall|k: int| 0 <= k < i
                ==> #[trigger] out@[k].0 == k && *out@[k].1 == iterable@[k],
        decreases iterable@.len() - i,
    {
        out.push((i, &iterable[i]));
        i += 1;
    }
    out
}

/// Pair elements of two owned sequences position by position; the longer
/// tail is dropped.
pub fn zip<T, U>(iter1: Vec<T>, iter2: Vec<U>) -> (r: Vec<(T, U)>)
    ensures
        r@.len() == vstd::math::min(iter1@.len() as int, iter2@.len() as int),
        forall|k: int| 0 <= k < r@.len()
            ==> #[trigger] r@[k].0 == iter1@[k] && r@[k].1 == iter2@[k],
{
    let ghost o1 = iter1@;
    let ghost o2 = iter2@;
    let mut a = iter1;
    let mut b = iter2;
    let _len_a = a.len();
    let _len_b = b.len();
    let mut out: Vec<(T, U)> = Vec::new();
    let mut i: usize = 0;
    while a.len() > 0 && b.len() > 0
        invariant
            o1.len() <= usize::MAX,
            o2.len() <= usize::MAX,
            a@ == o1.skip(i as int),
            b@ == o2.skip(i as int),
            i <= o1.len() && i <= o2.len(),
            out@.len() == i,
            forall|k: int| 0 <= k < i
                ==> #[trigger] out@[k].0 == o1[k] && out@[k].1 == o2[k],
        decreases a@.len(),
    {
        let ghost abefore = a@;
        let ghost bbefore = b@;
        let x = a.remove(0);
        let y = b.remove(0);
        proof {
            assert(abefore.subrange(1, abefore.len() as int) =~= o1.skip(i + 1));
            assert(bbefore.subrange(1, bbefore.len() as int) =~= o2.skip(i + 1));
        }
        out.push((x, y));
        i += 1;
    }
    out
}

/// Pair elements of two borrowed slices position by position.
pub fn zip_slices<'a, T, U>(iterable1: &'a [T], iterable2: &'a [U]) -> (r: Vec<(&'a T, &'a U)>)
    ensures
        r@.len() == vstd::math::min(iterable1@.len() as int, iterable2@.len() as int),
        forall|k: int| 0 <= k < r@.len()
            ==> *#[trigger] r@[k].0 == iterable1@[k] && *r@[k].1 == iterable2@[k],
{
    let mut out: Vec<(&T, &U)> = Vec::new();
    let mut i: usize = 0;
    while i < iterable1.len() && i < iterable2.len()
        invariant
            i <= iterable1@.len(),
            i <= iterable2@.len(),
            out@.len() == i,
            forall|k: int| 0 <= k < i
                ==> *#[trigger] out@[k].0 == iterable1@[k] && *out@[k].1 == iterable2@[k],
        decreases iterable1@.len() - i,
    {
        out.push((&iterable1[i], &iterable2[i]));
        i += 1;
    }
    out
}

/// The arithmetic progression from `start` towards `stop` by `step`:
/// emitted while strictly below `stop` for a positive step, while strictly
/// above it for a negative one; empty when the direction disagrees.
pub open spec fn range_seq(start: int, stop: int, step: int) -> Seq<i64>
    decreases (if step > 0 { stop - start + step } else { start - stop - step }),
{
    if step > 0 {
        if start < stop {
            seq![start as i64] + range_seq(start + step, stop, step)
        } else {
            Seq::empty()
        }
    } else if step < 0 {
        if start > stop {
            seq![start as i64] + range_seq(start + step, stop, step)
        } else {
            Seq::empty()
        }
    } else {
        Seq::empty()
    }
}

/// Count from zero up to (excluding) `stop`.
pub fn range(stop: i64) -> (r: Vec<i64>)
    ensures
        r@ == range_seq(0, stop as int, 1),
{
    range_start_stop_step(0, stop, 1)
}

/// Count from `start` up to (excluding) `stop`.
pub fn range_start_stop(start: i64, stop: i64) -> (r: Vec<i64>)
    ensures
        r@ == range_seq(start as int, stop as int, 1),
{
    range_start_stop_step(start, stop, 1)
}

/// The progression with an explicit step.  A zero step is a usage error the
/// caller must rule out.
pub fn range_start_stop_step(start: i64, stop: i64, step: i64) -> (r: Vec<i64>)
    requires
        step != 0,
    ensures
        r@ == range_seq(start as int, stop as int, step as int),
{
    let mut result: Vec<i64> = Vec::new();
    let mut current = start;
    if step > 0 {
        while current < stop
            invariant
                step > 0,
                range_seq(start as int, stop as int, step as int)
                    == result@ + range_seq(current as int, stop as int, step as int),
            decreases stop - current + step,
        {
            result.push(current);
            match current.checked_add(step) {
                Some(n) => {
                    current = n;
                }
                None => {
                    proof {
                        assert(range_seq(current as int + step, stop as int, step as int)
                            =~= Seq::<i64>::empty());
                        assert(result@ + Seq::<i64>::empty() =~= result@);
                    }
                    return result;
                }
            }
        }
        proof {
            assert(result@ + Seq::<i64>::empty() =~= result@);
        }
    } else {
        while current > stop
            invariant
                step < 0,
                range_seq(start as int, stop as int, step as int)
                    == result@ + range_seq(current as int, stop as int, step as int),
            decreases current - stop - step,
        {
            result.push(current);
            match current.checked_add(step) {
                Some(n) => {
                    current = n;
                }
                None => {
                    proof {
                        assert(range_seq(current as int + step, stop as int, step as int)
                            =~= Seq::<i64>::empty());
                        assert(result@ + Seq::<i64>::empty() =~= result@);
                    }
                    return result;
                }
            }
        }
        proof {
            assert(result@ + Seq::<i64>::empty() =~= result@);
        }
    }
    result
}

/// `range` with optional arguments: one argument counts from zero; a step
/// without a stop is a usage error the caller must rule out, as is a zero
/// step.
pub fn range_flexible(start: i64, stop: Option<i64>, step: Option<i64>) -> (r: Vec<i64>)
    requires
        !(stop is None && step is Some),
        step is Some ==> step != Some(0i64),
    ensures
        r@ == match (stop, step) {
            (None, None) => range_seq(0, start as int, 1),
            (Some(e), None) => range_seq(start as int, e as int, 1),
            (Some(e), Some(st)) => range_seq(start as int, e as int, st as int),
            (None, Some(_)) => Seq::<i64>::empty(),
        },
{
    match (stop, step) {
        (None, None) => range_start_stop_step(0, start, 1),
        (Some(e), None) => range_start_stop_step(start, e, 1),
        (Some(e), Some(st)) => range_start_stop_step(start, e, st),
        (None, Some(_)) => {
            proof {
                assert(false);
            }
            Vec::new()
        }
    }
}

/// What slicing gathers, walking from `cur` by `step`: for a positive step,
/// elements while `cur` is below both `stop` and the length; for a negative
/// one, elements at valid positions while `cur` is above `stop`.
pub open spec fn slice_collect<T>(items: Seq<T>, cur: int, stop: int, step: int) -> Seq<T>
    decreases (if step > 0 { stop - cur + step } else { cur - stop - step }),
{
    if step > 0 {
        if cur < stop && cur < items.len() {
            (if cur >= 0 {
                seq![items[cur]]
            } else {
                Seq::empty()
            }) + slice_collect(items, cur + step, stop, step)
        } else {
            Seq::empty()
        }
    } else if step < 0 {
        if cur > stop && cur >= 0 {
            (if cur < items.len() {
                seq![items[cur]]
            } else {
                Seq::empty()
            }) + slice_collect(items, cur + step, stop, step)
        } else {
            Seq::empty()
        }
    } else {
        Seq::empty()
    }
}

/// The effective bounds of a slice: missing ends default to the whole
/// range, and given ends are clamped into `[0, len]` (no wrap-around for
/// negative positions).
pub open spec fn slice_bounds(len: int, start: Option<i64>, stop: Option<i64>) -> (int, int) {
    match (start, stop) {
        (None, None) => (0, len),
        (Some(s), None) => (if s > 0 { s as int } else { 0 }, len),
        (None, Some(e)) => (0, if e < len { e as int } else { len }),
        (Some(s), Some(e)) => (
            if s > 0 { s as int } else { 0 },
            if e < len { e as int } else { len },
        ),
    }
}

/// Take every `step`-th element: from the clamped start strictly below
/// the clamped stop for a positive step, and from the clamped start down
/// while strictly above the clamped stop for a negative one.  A zero step
/// is a usage error the caller must rule out.
pub fn slice<T: Copy>(items: &[T], start: Option<i64>, stop: Option<i64>, step: Option<i64>) -> (r:
    Vec<T>)
    requires
        items@.len() <= i64::MAX,
        step is Some ==> step != Some(0i64),
    ensures
        ({
            let st = if step is Some { step.unwrap() as int } else { 1 };
            r@ == slice_collect(
                items@,
                slice_bounds(items@.len() as int, start, stop).0,
                slice_bounds(items@.len() as int, start, stop).1,
                st,
            )
        }),
{
    let len: i64 = items.len() as i64;
    let step_v: i64 = match step {
        Some(v) => v,
        None => 1,
    };
    let lo: i64 = match start {
        Some(s) => if s > 0 { s } else { 0 },
        None => 0,
    };
    let hi: i64 = match stop {
        Some(e) => if e < len { e } else { len },
        None => len,
    };
    let mut result: Vec<T> = Vec::new();
    let ghost begin: int = lo as int;
    let ghost fin: int = hi as int;
    let mut current: i64 = lo;
    if step_v > 0 {
        while current < hi && current < len
            invariant
                step_v > 0,
                len == items@.len(),
                current >= 0,
                step_v as int == (if step is Some { step.unwrap() as int } else { 1 }),
                lo as int == slice_bounds(items@.len() as int, start, stop).0,
                hi as int == slice_bounds(items@.len() as int, start, stop).1,
                begin == lo as int,
                fin == hi as int,
                slice_collect(items@, begin, fin, step_v as int)
                    == result@ + slice_collect(items@, current as int, fin as int, step_v as int),
            decreases hi - current + step_v,
        {
            result.push(items[current as usize]);
            match current.checked_add(step_v) {
                Some(n) => {
                    current = n;
                }
                None => {
                    proof {
                        assert(slice_collect(items@, current as int + step_v, fin, step_v as int)
                            =~= Seq::<T>::empty());
                        assert(result@ + Seq::<T>::empty() =~= result@);
                    }
                    return result;
                }
            }
        }
        proof {
            assert(slice_collect(items@, current as int, fin, step_v as int)
                =~= Seq::<T>::empty());
            assert(result@ + Seq::<T>::empty() =~= result@);
        }
    } else {
        while current > hi && current >= 0
            invariant
                step_v < 0,
                len == items@.len(),
                step_v as int == (if step is Some { step.unwrap() as int } else { 1 }),
                lo as int == slice_bounds(items@.len() as int, start, stop).0,
                hi as int == slice_bounds(items@.len() as int, start, stop).1,
                begin == lo as int,
                fin == hi as int,
                slice_collect(items@, begin, fin, step_v as int)
                    == result@ + slice_collect(items@, current as int, fin as int, step_v as int),
            decreases current - hi - step_v,
        {
            if current < len {
                result.push(items[current as usize]);
            }
            match current.checked_add(step_v) {
                Some(n) => {
                    current = n;
                }
                None => {
                    proof {
                        assert(slice_collect(items@, current as int + step_v, fin, step_v as int)
                            =~= Seq::<T>::empty());
                        assert(result@ + Seq::<T>::empty() =~= result@);
                    }
                    return result;
                }
            }
        }
        proof {
            assert(slice_collect(items@, current as int, fin, step_v as int)
                =~= Seq::<T>::empty());
            assert(result@ + Seq::<T>::empty() =~= result@);
        }
    }
    result
}

/// A sequence repeated a number of times; empty for a non-positive count.
pub open spec fn repeat_elems<T>(s: Seq<T>, n: int) -> Seq<T>
    decreases n,
{
    if n <= 0 {
        Seq::empty()
    } else {
        s + repeat_elems(s, n - 1)
    }
}

proof fn lemma_repeat_elems_snoc<T>(s: Seq<T>, n: int)
    requires
        n >= 0,
    ensures
        repeat_elems(s, n + 1) == repeat_elems(s, n) + s,
    decreases n,
{
    if n == 0 {
        assert(repeat_elems(s, 1) == s + repeat_elems(s, 0));
        assert(s + Seq::<T>::empty() =~= s);
        assert(Seq::<T>::empty() + s =~= s);
    } else {
        lemma_repeat_elems_snoc(s, n - 1);
        assert(s + (repeat_elems(s, n - 1) + s) =~= (s + repeat_elems(s, n - 1)) + s);
    }
}

/// The string repeated `count` times; empty for a non-positive count.
pub fn multiply_string<S: AsStrLike>(s: S, count: i64) -> (r: String)
    ensures
        r@ == repeat_spec(s.str_view(), count as int),
{
    let chars = str_to_chars(s.as_str_like());
    let mut out: Vec<char> = Vec::new();
    let mut rep: i64 = 0;
    while rep < count
        invariant
            0 <= rep,
            rep <= count || count <= 0,
            count <= 0 ==> rep == 0,
            out@ == repeat_spec(chars@, rep as int),
        decreases count - rep,
    {
        strutil::push_all(&mut out, &chars);
        proof {
            strutil::lemma_repeat_snoc(chars@, rep as int);
        }
        rep += 1;
    }
    chars_to_string(&out)
}

/// The list repeated `count` times; empty for a non-positive count.
pub fn multiply_list<T: Copy>(items: &[T], count: i64) -> (r: Vec<T>)
    ensures
        r@ == repeat_elems(items@, count as int),
{
    let mut out: Vec<T> = Vec::new();
    let mut rep: i64 = 0;
    while rep < count
        invariant
            0 <= rep,
            rep <= count || count <= 0,
            count <= 0 ==> rep == 0,
            out@ == repeat_elems(items@, rep as int),
        decreases count - rep,
    {
        let mut k: usize = 0;
        let ghost out_before = out@;
        while k < items.len()
            invariant
                k <= items@.len(),
                out@ == out_before + items@.take(k as int),
            decreases items@.len() - k,
        {
            out.push(items[k]);
            assert(out@ =~= out_before + items@.take(k + 1));
            k += 1;
        }
        proof {
            assert(out_before + items@.take(items@.len() as int) =~= out_before + items@);
            lemma_repeat_elems_snoc(items@, rep as int);
        }
        rep += 1;
    }
    out
}

/// Whether `sub` occurs somewhere in `s`.
pub open spec fn contains_sub(s: Seq<char>, sub: Seq<char>) -> bool {
    exists|i: int| occurs_at(s, sub, i)
}

/// Whether the needle occurs in the haystack.
pub fn string_contains<H: AsStrLike, N: AsStrLike>(haystack: H, needle: N) -> (r: bool)
    ensures
        r == contains_sub(haystack.str_view(), needle.str_view()),
{
    let h = str_to_chars(haystack.as_str_like());
    let n = str_to_chars(needle.as_str_like());
    let found = strutil::find_sub(&h, &n, 0);
    proof {
        strutil::lemma_find_from_props(h@, n@, 0);
        if find_from(h@, n@, 0) is Some {
            assert(occurs_at(h@, n@, find_from(h@, n@, 0).unwrap()));
        } else {
            assert forall|i: int| !occurs_at(h@, n@, i) by {
                if i >= 0 {
                    assert(!occurs_at(h@, n@, i));
                }
            }
        }
    }
    found.is_some()
}

/// Whether some element of the slice equals `item`, under the element
/// type's equality spec.
pub fn list_contains<T: PartialEq>(items: &[T], item: &T) -> (r: bool)
    ensures
        T::obeys_eq_spec()
            ==> r == exists|k: int| 0 <= k < items@.len() && #[trigger] items@[k].eq_spec(item),
{
    let mut i: usize = 0;
    while i < items.len()
        invariant
            i <= items@.len(),
            T::obeys_eq_spec() ==> forall|k: int| 0 <= k < i ==> !#[trigger] items@[k].eq_spec(item),
        decreases items@.len() - i,
    {
        if &items[i] == item {
            return true;
        }
        i += 1;
    }
    false
}

/// Substitute `{0}`, `{1}`, … in the template with the rendered arguments.
pub fn format_string<T: AsStrLike>(template: T, args: &Vec<String>) -> (r: String)
    ensures
        r@ == format_from(template.str_view(), args@.map_values(|a: String| a@), 0),
{
    let ghost argviews = args@.map_values(|a: String| a@);
    let tmpl = crate::pystr::PyStr::new(template.as_str_like());
    let mut refs: Vec<&str> = Vec::new();
    let mut i: usize = 0;
    while i < args.len()
        invariant
            i <= args@.len(),
            refs@.len() == i,
            forall|k: int| 0 <= k < i ==> #[trigger] refs@[k]@ == args@[k]@,
        decreases args@.len() - i,
    {
        refs.push(args[i].as_str());
        i += 1;
    }
    proof {
        assert(refs@.map_values(|a: &str| a@) =~= argviews);
    }
    let formatted = tmpl.format(refs.as_slice());
    formatted.as_str()
}

/// Render one value as its string form, as the capability defines it.
pub fn print_to_string<T: PyToString>(object: T) -> (r: String)
    ensures
        r@ == object.spec_str(),
{
    object.py_str()
}

/// Render several values, `sep` between consecutive ones and `end` after
/// the last.
pub fn print_args_to_string<T: PyToString + Copy, S: AsStrLike, E: AsStrLike>(
    objects: &[T],
    sep: S,
    end: E,
) -> (r: String)
    ensures
        r@ == join_spec(
            objects@.map_values(|o: T| o.spec_str()),
            sep.str_view(),
        ) + end.str_view(),
{
    let mut parts: Vec<Vec<char>> = Vec::new();
    let mut i: usize = 0;
    while i < objects.len()
        invariant
            i <= objects@.len(),
            parts@.len() == i,
            forall|k: int| 0 <= k < i ==> #[trigger] parts@[k]@ == objects@[k].spec_str(),
        decreases objects@.len() - i,
    {
        let rendered = objects[i].py_str();
        parts.push(str_to_chars(rendered.as_str()));
        i += 1;
    }
    let sep_chars = str_to_chars(sep.as_str_like());
    let joined = strutil::join_chars(&parts, &sep_chars);
    proof {
        assert(parts@.map_values(|p: Vec<char>| p@)
            =~= objects@.map_values(|o: T| o.spec_str()));
    }
    let mut out = chars_to_string(&joined);
    out.append(end.as_str_like());
    out
}

/// Wrap a buffer as a list.
pub fn py_list<T>(items: Vec<T>) -> (r: PyList<T>)
    ensures
        r@ == items@,
{
    PyList::from_vec(items)
}

/// Wrap a buffer as a tuple.
pub fn py_tuple<T>(items: Vec<T>) -> (r: PyTuple<T>)
    ensures
        r@ == items@,
{
    PyTuple::new(items)
}

/// Convert to a boolean by truthiness.
pub fn bool<T: PyBool>(x: T) -> (r: bool)
    ensures
        r == x.spec_bool(),
{
    x.py_bool()
}

/// Convert to a 64-bit integer; a bad literal is a value error whose
/// message carries the offending text.
pub fn to_int<T: PyInt>(x: T) -> (r: Result<i64, PyException>)
    ensures
        match r {
            Ok(v) => x.spec_int() == Some(v),
            Err(e) => x.spec_int() is None && e.exception_type@ == "ValueError"@
                && e.message@ == x.spec_int_err_msg(),
        },
{
    x.py_int()
}

/// Convert to a string rendering.
pub fn str<T: PyToString>(x: T) -> (r: String)
    ensures
        r@ == x.spec_str(),
{
    x.py_str()
}

/// Report where a scratch virtual environment of the given kind would live
/// and which interpreter name to use.
pub fn ensure_venv_ready<K: AsStrLike>(kind: K) -> (r: (String, String))
    ensures
        r.0@ == "/tmp/venv_"@ + kind.str_view(),
        r.1@ == "python"@,
{
    let mut root = String::new();
    root.append("/tmp/venv_");
    root.append(kind.as_str_like());
    let interp: String = "python".to_owned();
    proof {
        assert(Seq::<char>::empty() + "/tmp/venv_"@ =~= "/tmp/venv_"@);
    }
    (root, interp)
}

} // verus!
