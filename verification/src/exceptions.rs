//! Tagged error values mirroring Python's exception categories.
//!
//! Every fallible operation in this crate reports failure by returning a
//! `PyException` carrying the category name and a human-readable message;
//! nothing in the verified library panics or unwinds.

use vstd::prelude::*;

verus! {

/// A recoverable error value: a category tag plus a message.
#[derive(Debug, Clone)]
pub struct PyException {
    pub message: String,
    pub exception_type: String,
}

impl PyException {
    /// Build an exception from a category name and a message.
    pub fn new(exception_type: &str, message: &str) -> (r: PyException)
        ensures
            r.exception_type@ == exception_type@,
            r.message@ == message@,
    {
        PyException { message: message.to_owned(), exception_type: exception_type.to_owned() }
    }

    /// Render as `"Category: message"`, the way Python prints an exception.
    pub fn to_display_string(&self) -> (r: String)
        ensures
            r@ == self.exception_type@ + ": "@ + self.message@,
    {
        let mut out = self.exception_type.clone();
        out.append(": ");
        out.append(self.message.as_str());
        out
    }
}

/// A value error: a bad literal, a domain violation, an empty-structure violation.
pub fn value_error(message: &str) -> (r: PyException)
    ensures
        r.exception_type@ == "ValueError"@,
        r.message@ == message@,
{
    PyException::new("ValueError", message)
}

/// A type error: a wrong argument shape or a missing required value.
pub fn type_error(message: &str) -> (r: PyException)
    ensures
        r.exception_type@ == "TypeError"@,
        r.message@ == message@,
{
    PyException::new("TypeError", message)
}

/// An index error: an out-of-range position.
pub fn index_error(message: &str) -> (r: PyException)
    ensures
        r.exception_type@ == "IndexError"@,
        r.message@ == message@,
{
    PyException::new("IndexError", message)
}

/// A key error: an absent key.
pub fn key_error(message: &str) -> (r: PyException)
    ensures
        r.exception_type@ == "KeyError"@,
        r.message@ == message@,
{
    PyException::new("KeyError", message)
}

/// An attribute error: an unresolved attribute name.
pub fn attribute_error(message: &str) -> (r: PyException)
    ensures
        r.exception_type@ == "AttributeError"@,
        r.message@ == message@,
{
    PyException::new("AttributeError", message)
}

/// A name error: an unresolved symbol.
pub fn name_error(message: &str) -> (r: PyException)
    ensures
        r.exception_type@ == "NameError"@,
        r.message@ == message@,
{
    PyException::new("NameError", message)
}

/// A zero-division error.
pub fn zero_division_error(message: &str) -> (r: PyException)
    ensures
        r.exception_type@ == "ZeroDivisionError"@,
        r.message@ == message@,
{
    PyException::new("ZeroDivisionError", message)
}

/// An overflow error: an arithmetic result too large to represent.
pub fn overflow_error(message: &str) -> (r: PyException)
    ensures
        r.exception_type@ == "OverflowError"@,
        r.message@ == message@,
{
    PyException::new("OverflowError", message)
}

/// A runtime error: the catch-all wrapping of an underlying failure.
pub fn runtime_error(message: &str) -> (r: PyException)
    ensures
        r.exception_type@ == "RuntimeError"@,
        r.message@ == message@,
{
    PyException::new("RuntimeError", message)
}

} // verus!
