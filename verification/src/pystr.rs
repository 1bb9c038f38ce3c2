//! A Python-flavoured string value type.
//!
//! A `PyStr` owns one buffer of characters; its view is the character
//! sequence, and every method's contract is stated over the shared
//! character-sequence specs of `strutil`.

use vstd::prelude::*;
use crate::caps::AsStrLike;
use crate::caps::Len;
use crate::caps::PyBool;
use crate::caps::Truthy;
use crate::strutil;
use crate::strutil::chars_eq;
use crate::strutil::chars_to_string;
use crate::strutil::count_occ_spec;
use crate::strutil::count_occ_chars;
use crate::strutil::find_from;
use crate::strutil::find_sub;
use crate::strutil::join_spec;
use crate::strutil::join_chars;
use crate::strutil::lower_spec;
use crate::strutil::lower_chars;
use crate::strutil::occurs_at;
use crate::strutil::occurs_at_exec;
use crate::strutil::replace_spec;
use crate::strutil::replace_chars;
use crate::strutil::split_spec;
use crate::strutil::split_chars;
use crate::strutil::split_ws_spec;
use crate::strutil::split_ws_chars;
use crate::strutil::str_to_chars;
use crate::strutil::strip_spec;
use crate::strutil::strip_chars;
use crate::strutil::upper_spec;
use crate::strutil::upper_chars;
use crate::numstr::dec_digits;
use crate::numstr::u64_to_chars;

verus! {

/// An owned string with Python's method surface.
#[derive(Debug, Clone)]
pub struct PyStr {
    chars: Vec<char>,
}

impl View for PyStr {
    type V = Seq<char>;

    closed spec fn view(&self) -> Seq<char> {
        self.chars@
    }
}

impl PartialEq for PyStr {
    fn eq(&self, other: &PyStr) -> (r: bool) {
        chars_eq(&self.chars, &other.chars)
    }
}

impl vstd::std_specs::cmp::PartialEqSpecImpl for PyStr {
    open spec fn obeys_eq_spec() -> bool {
        true
    }

    open spec fn eq_spec(&self, other: &PyStr) -> bool {
        self@ == other@
    }
}

/// The `"{i}"` placeholder that positional formatting substitutes.
pub open spec fn placeholder(i: nat) -> Seq<char> {
    seq!['{'] + dec_digits(i) + seq!['}']
}

/// `s` with the placeholders `{0}..{n-1}` replaced by the arguments from
/// position `i` on, earlier positions first.
pub open spec fn format_from(s: Seq<char>, args: Seq<Seq<char>>, i: int) -> Seq<char>
    decreases args.len() - i,
{
    if i < 0 || i >= args.len() {
        s
    } else {
        format_from(replace_spec(s, placeholder(i as nat), args[i]), args, i + 1)
    }
}

impl PyStr {
    /// Build from anything string-like.
    pub fn new<S: AsStrLike>(s: S) -> (r: PyStr)
        ensures
            r@ == s.str_view(),
    {
        PyStr { chars: str_to_chars(s.as_str_like()) }
    }

    /// Split on a separator (pieces between occurrences, empties kept), or
    /// on whitespace runs (empties dropped) when no separator is given.
    pub fn split(&self, sep: Option<&str>) -> (r: Vec<PyStr>)
        ensures
            match sep {
                Some(sp) => r@.map_values(|p: PyStr| p@) == split_spec(self@, sp@),
                None => r@.map_values(|p: PyStr| p@) == split_ws_spec(self@),
            },
    {
        let pieces: Vec<Vec<char>> = match sep {
            Some(sp) => {
                let sep_chars = str_to_chars(sp);
                split_chars(&self.chars, &sep_chars)
            }
            None => split_ws_chars(&self.chars),
        };
        let ghost pview = pieces@.map_values(|p: Vec<char>| p@);
        let mut out: Vec<PyStr> = Vec::new();
        let mut i: usize = 0;
        while i < pieces.len()
            invariant
                i <= pieces@.len(),
                pview == pieces@.map_values(|p: Vec<char>| p@),
                out@.len() == i,
                forall|k: int| 0 <= k < i ==> #[trigger] out@[k]@ == pview[k],
            decreases pieces@.len() - i,
        {
            let mut piece: Vec<char> = Vec::new();
            let src = &pieces[i];
            let mut k: usize = 0;
            while k < src.len()
                invariant
                    k <= src@.len(),
                    piece@ == src@.take(k as int),
                decreases src@.len() - k,
            {
                piece.push(src[k]);
                assert(piece@ =~= src@.take(k + 1));
                k += 1;
            }
            assert(src@.take(src@.len() as int) =~= src@);
            out.push(PyStr { chars: piece });
            i += 1;
        }
        proof {
            assert(out@.map_values(|p: PyStr| p@) =~= pview);
        }
        out
    }

    /// Concatenate the given strings with `self` between consecutive ones.
    pub fn join(&self, iterable: &[PyStr]) -> (r: PyStr)
        ensures
            r@ == join_spec(iterable@.map_values(|p: PyStr| p@), self@),
    {
        let mut parts: Vec<Vec<char>> = Vec::new();
        let mut i: usize = 0;
        while i < iterable.len()
            invariant
                i <= iterable@.len(),
                parts@.len() == i,
                forall|k: int| 0 <= k < i ==> #[trigger] parts@[k]@ == iterable@[k]@,
            decreases iterable@.len() - i,
        {
            let src = &iterable[i];
            let mut piece: Vec<char> = Vec::new();
            let mut k: usize = 0;
            while k < src.chars.len()
                invariant
                    k <= src.chars@.len(),
                    piece@ == src.chars@.take(k as int),
                decreases src.chars@.len() - k,
            {
                piece.push(src.chars[k]);
                assert(piece@ =~= src.chars@.take(k + 1));
                k += 1;
            }
            assert(src.chars@.take(src.chars@.len() as int) =~= src.chars@);
            parts.push(piece);
            i += 1;
        }
        proof {
            assert(parts@.map_values(|p: Vec<char>| p@)
                =~= iterable@.map_values(|p: PyStr| p@));
        }
        let joined = join_chars(&parts, &self.chars);
        PyStr { chars: joined }
    }

    /// Remove leading and trailing whitespace.
    pub fn strip(&self) -> (r: PyStr)
        ensures
            r@ == strip_spec(self@),
    {
        PyStr { chars: strip_chars(&self.chars) }
    }

    /// Lower-case every ASCII letter.
    pub fn lower(&self) -> (r: PyStr)
        ensures
            r@ == lower_spec(self@),
    {
        PyStr { chars: lower_chars(&self.chars) }
    }

    /// Upper-case every ASCII letter.
    pub fn upper(&self) -> (r: PyStr)
        ensures
            r@ == upper_spec(self@),
    {
        PyStr { chars: upper_chars(&self.chars) }
    }

    /// Replace every non-overlapping occurrence of `old`, left to right.
    pub fn replace<O: AsStrLike, N: AsStrLike>(&self, old: O, new: N) -> (r: PyStr)
        ensures
            r@ == replace_spec(self@, old.str_view(), new.str_view()),
    {
        let old_chars = str_to_chars(old.as_str_like());
        let new_chars = str_to_chars(new.as_str_like());
        PyStr { chars: replace_chars(&self.chars, &old_chars, &new_chars) }
    }

    /// Whether `self` begins with `prefix`.
    pub fn startswith<P: AsStrLike>(&self, prefix: P) -> (r: bool)
        ensures
            r == occurs_at(self@, prefix.str_view(), 0),
    {
        let p = str_to_chars(prefix.as_str_like());
        occurs_at_exec(&self.chars, &p, 0)
    }

    /// Whether `self` ends with `suffix`.
    pub fn endswith<S: AsStrLike>(&self, suffix: S) -> (r: bool)
        ensures
            r == occurs_at(self@, suffix.str_view(), self@.len() - suffix.str_view().len()),
    {
        let p = str_to_chars(suffix.as_str_like());
        if p.len() > self.chars.len() {
            proof {
                assert(self@.len() - p@.len() < 0);
            }
            return false;
        }
        occurs_at_exec(&self.chars, &p, self.chars.len() - p.len())
    }

    /// Index of the first occurrence of `sub`, or `-1` when absent.
    pub fn find<S: AsStrLike>(&self, sub: S) -> (r: i64)
        requires
            self@.len() <= i64::MAX,
        ensures
            match find_from(self@, sub.str_view(), 0) {
                Some(j) => r == j,
                None => r == -1,
            },
    {
        let p = str_to_chars(sub.as_str_like());
        match find_sub(&self.chars, &p, 0) {
            Some(j) => {
                proof {
                    strutil::lemma_find_from_props(self@, p@, 0);
                }
                j as i64
            }
            None => -1,
        }
    }

    /// Number of non-overlapping occurrences of `sub`.
    pub fn count<S: AsStrLike>(&self, sub: S) -> (r: usize)
        requires
            self@.len() < usize::MAX,
        ensures
            r as int == count_occ_spec(self@, sub.str_view()),
    {
        let p = str_to_chars(sub.as_str_like());
        count_occ_chars(&self.chars, &p)
    }

    /// Substitute the positional placeholders `{0}`, `{1}`, … with the
    /// given arguments, earlier positions first.
    pub fn format(&self, args: &[&str]) -> (r: PyStr)
        ensures
            r@ == format_from(self@, args@.map_values(|a: &str| a@), 0),
    {
        let ghost argviews = args@.map_values(|a: &str| a@);
        let mut cur: Vec<char> = Vec::new();
        let mut t: usize = 0;
        while t < self.chars.len()
            invariant
                t <= self.chars@.len(),
                cur@ == self.chars@.take(t as int),
            decreases self.chars@.len() - t,
        {
            cur.push(self.chars[t]);
            assert(cur@ =~= self.chars@.take(t + 1));
            t += 1;
        }
        assert(self.chars@.take(self.chars@.len() as int) =~= self.chars@);
        let mut i: usize = 0;
        while i < args.len()
            invariant
                i <= args@.len(),
                argviews == args@.map_values(|a: &str| a@),
                format_from(self@, argviews, 0) == format_from(cur@, argviews, i as int),
            decreases args@.len() - i,
        {
            let mut ph: Vec<char> = Vec::new();
            ph.push('{');
            let digits = u64_to_chars(i as u64);
            strutil::push_all(&mut ph, &digits);
            ph.push('}');
            proof {
                assert(ph@ =~= placeholder(i as nat));
            }
            let arg_chars = str_to_chars(args[i]);
            let replaced = replace_chars(&cur, &ph, &arg_chars);
            proof {
                assert(arg_chars@ == argviews[i as int]);
                assert(replaced@ == replace_spec(cur@, placeholder(i as nat), argviews[i as int]));
            }
            cur = replaced;
            i += 1;
        }
        PyStr { chars: cur }
    }

    /// The contents as an owned plain string.
    pub fn as_str(&self) -> (r: String)
        ensures
            r@ == self@,
    {
        chars_to_string(&self.chars)
    }
}

impl Len for PyStr {
    open spec fn spec_len(&self) -> nat {
        self@.len()
    }

    fn len(&self) -> (r: usize) {
        self.chars.len()
    }
}

impl Truthy for PyStr {
    open spec fn spec_truthy(&self) -> bool {
        self@.len() != 0
    }

    fn is_truthy(&self) -> (r: bool) {
        self.chars.len() != 0
    }
}

impl PyBool for &PyStr {
    open spec fn spec_bool(self) -> bool {
        self@.len() != 0
    }

    fn py_bool(self) -> (r: bool) {
        self.chars.len() != 0
    }
}

} // verus!
