//! Capability traits: minimal single-operation interfaces that let one
//! generic function accept any conforming type.
//!
//! Each trait pairs its operation with a spec function, so that a generic
//! function written against the trait gets a full contract for every
//! conforming type.

use vstd::prelude::*;
use crate::exceptions::PyException;
use crate::exceptions::value_error;
use crate::numstr::int_dec_str;
use crate::numstr::parse_i64_spec;
use crate::numstr::parse_i64_chars;
use crate::numstr::i64_to_chars;
use crate::strutil::str_to_chars;
use crate::strutil::chars_to_string;

verus! {

/// Objects that report an element count.
pub trait Len {
    /// The mathematical length of the object.
    spec fn spec_len(&self) -> nat;

    fn len(&self) -> (r: usize)
        ensures
            r as nat == self.spec_len(),
    ;
}

/// Objects with a truth value: numeric zero and empty collections are false.
pub trait Truthy {
    /// The truth value of the object.
    spec fn spec_truthy(&self) -> bool;

    fn is_truthy(&self) -> (r: bool)
        ensures
            r == self.spec_truthy(),
    ;
}

/// Types usable as string-like parameters: anything exposing a borrowed
/// character-sequence view.
pub trait AsStrLike {
    /// The characters the value stands for.
    spec fn str_view(&self) -> Seq<char>;

    fn as_str_like(&self) -> (r: &str)
        ensures
            r@ == self.str_view(),
    ;
}

impl AsStrLike for str {
    open spec fn str_view(&self) -> Seq<char> {
        self@
    }

    fn as_str_like(&self) -> (r: &str) {
        self
    }
}

impl AsStrLike for String {
    open spec fn str_view(&self) -> Seq<char> {
        self@
    }

    fn as_str_like(&self) -> (r: &str) {
        self.as_str()
    }
}

impl AsStrLike for &str {
    open spec fn str_view(&self) -> Seq<char> {
        self@
    }

    fn as_str_like(&self) -> (r: &str) {
        *self
    }
}

impl AsStrLike for &String {
    open spec fn str_view(&self) -> Seq<char> {
        self@
    }

    fn as_str_like(&self) -> (r: &str) {
        self.as_str()
    }
}

/// Types that can give up an owned string.
pub trait IntoOwnedString: Sized {
    /// The characters of the resulting owned string.
    spec fn owned_view(&self) -> Seq<char>;

    fn into_owned_string(self) -> (r: String)
        ensures
            r@ == self.owned_view(),
    ;
}

impl IntoOwnedString for &str {
    open spec fn owned_view(&self) -> Seq<char> {
        self@
    }

    fn into_owned_string(self) -> (r: String) {
        self.to_owned()
    }
}

impl IntoOwnedString for String {
    open spec fn owned_view(&self) -> Seq<char> {
        self@
    }

    fn into_owned_string(self) -> (r: String) {
        self
    }
}

/// Types usable as path-like parameters.  The contract is that of
/// `AsStrLike`; the distinct trait only documents intent at the call site,
/// so anything string-like is path-like.
pub trait AsPathLike {
    /// The characters of the path.
    spec fn path_view(&self) -> Seq<char>;

    fn as_path_like(&self) -> (r: &str)
        ensures
            r@ == self.path_view(),
    ;
}

impl<T: AsStrLike> AsPathLike for T {
    open spec fn path_view(&self) -> Seq<char> {
        self.str_view()
    }

    fn as_path_like(&self) -> (r: &str) {
        self.as_str_like()
    }
}

/// Collections usable as argument lists: their elements expose borrowed
/// string views, in order.
pub trait AsArgList<T> {
    /// The character sequences of the arguments, in order.
    spec fn args_view(&self) -> Seq<Seq<char>>;

    fn as_arg_list(&self) -> (r: Vec<&str>)
        ensures
            r@.map_values(|s: &str| s@) == self.args_view(),
    ;
}

impl<T: AsStrLike> AsArgList<T> for Vec<T> {
    open spec fn args_view(&self) -> Seq<Seq<char>> {
        self@.map_values(|x: T| x.str_view())
    }

    fn as_arg_list(&self) -> (r: Vec<&str>) {
        let mut out: Vec<&str> = Vec::new();
        let mut i: usize = 0;
        while i < self.len()
            invariant
                i <= self@.len(),
                out@.len() == i,
                forall|k: int| 0 <= k < i ==> #[trigger] out@[k]@ == self@[k].str_view(),
            decreases self@.len() - i,
        {
            let piece: &str = self[i].as_str_like();
            out.push(piece);
            i += 1;
        }
        proof {
            assert(out@.map_values(|s: &str| s@) =~= self@.map_values(|x: T| x.str_view()));
        }
        out
    }
}

/// Numeric types with an absolute value.  Implemented per concrete numeric
/// primitive, since the semantics differ per width and signedness.
pub trait PyAbs: Sized {
    type Output;

    /// Whether the absolute value is representable in the output type.
    spec fn abs_ok(self) -> bool;

    /// The absolute value.
    spec fn spec_abs(self) -> Self::Output;

    fn py_abs(self) -> (r: Self::Output)
        requires
            self.abs_ok(),
        ensures
            r == self.spec_abs(),
    ;
}

impl PyAbs for i64 {
    type Output = i64;

    open spec fn abs_ok(self) -> bool {
        self != i64::MIN
    }

    open spec fn spec_abs(self) -> i64 {
        if self < 0 {
            (0 - self as int) as i64
        } else {
            self
        }
    }

    fn py_abs(self) -> (r: i64) {
        if self < 0 {
            -self
        } else {
            self
        }
    }
}

impl PyAbs for i32 {
    type Output = i32;

    open spec fn abs_ok(self) -> bool {
        self != i32::MIN
    }

    open spec fn spec_abs(self) -> i32 {
        if self < 0 {
            (0 - self as int) as i32
        } else {
            self
        }
    }

    fn py_abs(self) -> (r: i32) {
        if self < 0 {
            -self
        } else {
            self
        }
    }
}

/// Sum of a sequence of 64-bit integers, last element peeled off first.
pub open spec fn seq_sum_i64(s: Seq<i64>) -> int
    decreases s.len(),
{
    if s.len() == 0 {
        0
    } else {
        seq_sum_i64(s.drop_last()) + s.last()
    }
}

/// Whether every running prefix sum stays within the i64 range.
pub open spec fn i64_prefix_sums_ok(s: Seq<i64>) -> bool {
    forall|i: int| 0 <= i <= s.len() ==> i64::MIN <= #[trigger] seq_sum_i64(s.take(i)) <= i64::MAX
}

/// Sum of a sequence of 32-bit integers, last element peeled off first.
pub open spec fn seq_sum_i32(s: Seq<i32>) -> int
    decreases s.len(),
{
    if s.len() == 0 {
        0
    } else {
        seq_sum_i32(s.drop_last()) + s.last()
    }
}

/// Whether every running prefix sum stays within the i32 range.
pub open spec fn i32_prefix_sums_ok(s: Seq<i32>) -> bool {
    forall|i: int| 0 <= i <= s.len() ==> i32::MIN <= #[trigger] seq_sum_i32(s.take(i)) <= i32::MAX
}

/// Sequences that collapse to one aggregate value by addition.
pub trait PySum<T>: Sized {
    /// Whether the accumulation stays representable throughout.
    spec fn sum_ok(self) -> bool;

    /// The aggregate value.
    spec fn spec_sum(self) -> T;

    fn py_sum(self) -> (r: T)
        requires
            self.sum_ok(),
        ensures
            r == self.spec_sum(),
    ;
}

impl PySum<i64> for &[i64] {
    open spec fn sum_ok(self) -> bool {
        i64_prefix_sums_ok(self@)
    }

    open spec fn spec_sum(self) -> i64 {
        seq_sum_i64(self@) as i64
    }

    fn py_sum(self) -> (r: i64) {
        let n = self.len();
        let mut acc: i64 = 0;
        let mut i: usize = 0;
        assert(self@.take(0) =~= Seq::<i64>::empty());
        while i < n
            invariant
                n == self@.len(),
                i <= n,
                i64_prefix_sums_ok(self@),
                acc as int == seq_sum_i64(self@.take(i as int)),
            decreases n - i,
        {
            proof {
                assert(self@.take(i + 1).drop_last() =~= self@.take(i as int));
                assert(seq_sum_i64(self@.take(i + 1)) == acc as int + self@[i as int]);
            }
            acc = acc + self[i];
            i += 1;
        }
        assert(self@.take(n as int) =~= self@);
        acc
    }
}

impl PySum<i32> for &[i32] {
    open spec fn sum_ok(self) -> bool {
        i32_prefix_sums_ok(self@)
    }

    open spec fn spec_sum(self) -> i32 {
        seq_sum_i32(self@) as i32
    }

    fn py_sum(self) -> (r: i32) {
        let n = self.len();
        let mut acc: i32 = 0;
        let mut i: usize = 0;
        assert(self@.take(0) =~= Seq::<i32>::empty());
        while i < n
            invariant
                n == self@.len(),
                i <= n,
                i32_prefix_sums_ok(self@),
                acc as int == seq_sum_i32(self@.take(i as int)),
            decreases n - i,
        {
            proof {
                assert(self@.take(i + 1).drop_last() =~= self@.take(i as int));
                assert(seq_sum_i32(self@.take(i + 1)) == acc as int + self@[i as int]);
            }
            acc = acc + self[i];
            i += 1;
        }
        assert(self@.take(n as int) =~= self@);
        acc
    }
}

/// Conversion to a boolean following the truthiness rule; never fails.
pub trait PyBool: Sized {
    /// The truth value of the input.
    spec fn spec_bool(self) -> bool;

    fn py_bool(self) -> (r: bool)
        ensures
            r == self.spec_bool(),
    ;
}

impl PyBool for i64 {
    open spec fn spec_bool(self) -> bool {
        self != 0
    }

    fn py_bool(self) -> (r: bool) {
        self != 0
    }
}

impl PyBool for bool {
    open spec fn spec_bool(self) -> bool {
        self
    }

    fn py_bool(self) -> (r: bool) {
        self
    }
}

impl PyBool for &str {
    open spec fn spec_bool(self) -> bool {
        self@.len() != 0
    }

    fn py_bool(self) -> (r: bool) {
        !self.is_empty()
    }
}

impl PyBool for String {
    open spec fn spec_bool(self) -> bool {
        self@.len() != 0
    }

    fn py_bool(self) -> (r: bool) {
        !self.as_str().is_empty()
    }
}

/// Conversion to a 64-bit integer; fails on a string that is not a valid
/// integer literal or whose value does not fit, reporting the offending
/// text in the error message.
pub trait PyInt: Sized {
    /// The integer the input converts to, when the conversion succeeds.
    spec fn spec_int(self) -> Option<i64>;

    /// The message a failed conversion carries.
    spec fn spec_int_err_msg(self) -> Seq<char>;

    fn py_int(self) -> (r: Result<i64, PyException>)
        ensures
            match r {
                Ok(v) => self.spec_int() == Some(v),
                Err(e) => self.spec_int() is None && e.exception_type@ == "ValueError"@
                    && e.message@ == self.spec_int_err_msg(),
            },
    ;
}

impl PyInt for i64 {
    open spec fn spec_int(self) -> Option<i64> {
        Some(self)
    }

    open spec fn spec_int_err_msg(self) -> Seq<char> {
        Seq::empty()
    }

    fn py_int(self) -> (r: Result<i64, PyException>) {
        Ok(self)
    }
}

impl PyInt for bool {
    open spec fn spec_int(self) -> Option<i64> {
        Some(if self { 1i64 } else { 0i64 })
    }

    open spec fn spec_int_err_msg(self) -> Seq<char> {
        Seq::empty()
    }

    fn py_int(self) -> (r: Result<i64, PyException>) {
        Ok(if self { 1 } else { 0 })
    }
}

impl PyInt for &str {
    open spec fn spec_int(self) -> Option<i64> {
        parse_i64_spec(self@)
    }

    open spec fn spec_int_err_msg(self) -> Seq<char> {
        "invalid literal for int(): '"@ + self@ + "'"@
    }

    fn py_int(self) -> (r: Result<i64, PyException>) {
        let chars = str_to_chars(self);
        match parse_i64_chars(&chars) {
            Some(v) => Ok(v),
            None => {
                let mut msg = String::new();
                msg.append("invalid literal for int(): '");
                msg.append(self);
                msg.append("'");
                proof {
                    assert(msg@ =~= "invalid literal for int(): '"@ + self@ + "'"@);
                }
                Err(value_error(msg.as_str()))
            }
        }
    }
}

impl PyInt for String {
    open spec fn spec_int(self) -> Option<i64> {
        parse_i64_spec(self@)
    }

    open spec fn spec_int_err_msg(self) -> Seq<char> {
        "invalid literal for int(): '"@ + self@ + "'"@
    }

    fn py_int(self) -> (r: Result<i64, PyException>) {
        self.as_str().py_int()
    }
}

/// Conversion to an owned string rendering of the value; never fails.
pub trait PyToString: Sized {
    /// The characters of the rendering.
    spec fn spec_str(self) -> Seq<char>;

    fn py_str(self) -> (r: String)
        ensures
            r@ == self.spec_str(),
    ;
}

impl PyToString for i64 {
    open spec fn spec_str(self) -> Seq<char> {
        int_dec_str(self as int)
    }

    fn py_str(self) -> (r: String) {
        let chars = i64_to_chars(self);
        chars_to_string(&chars)
    }
}

impl PyToString for bool {
    open spec fn spec_str(self) -> Seq<char> {
        if self {
            "True"@
        } else {
            "False"@
        }
    }

    fn py_str(self) -> (r: String) {
        if self {
            "True".to_owned()
        } else {
            "False".to_owned()
        }
    }
}

impl PyToString for &str {
    open spec fn spec_str(self) -> Seq<char> {
        self@
    }

    fn py_str(self) -> (r: String) {
        self.to_owned()
    }
}

impl PyToString for String {
    open spec fn spec_str(self) -> Seq<char> {
        self@
    }

    fn py_str(self) -> (r: String) {
        self
    }
}

impl Len for String {
    open spec fn spec_len(&self) -> nat {
        self@.len()
    }

    fn len(&self) -> (r: usize) {
        self.as_str().unicode_len()
    }
}

impl<T> Len for Vec<T> {
    open spec fn spec_len(&self) -> nat {
        self@.len()
    }

    fn len(&self) -> (r: usize) {
        Vec::len(self)
    }
}

impl Truthy for bool {
    open spec fn spec_truthy(&self) -> bool {
        *self
    }

    fn is_truthy(&self) -> (r: bool) {
        *self
    }
}

impl Truthy for i64 {
    open spec fn spec_truthy(&self) -> bool {
        *self != 0
    }

    fn is_truthy(&self) -> (r: bool) {
        *self != 0
    }
}

} // verus!
