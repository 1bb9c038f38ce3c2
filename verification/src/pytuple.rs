//! A Python-flavoured tuple value type: a fixed group of elements.

use vstd::prelude::*;
use crate::caps::Len;
use crate::caps::Truthy;

verus! {

/// An owned immutable group of elements.
#[derive(Debug, Clone)]
pub struct PyTuple<T> {
    inner: Vec<T>,
}

impl<T> View for PyTuple<T> {
    type V = Seq<T>;

    closed spec fn view(&self) -> Seq<T> {
        self.inner@
    }
}

impl<T> PyTuple<T> {
    /// A tuple owning the given elements.
    pub fn new(items: Vec<T>) -> (r: PyTuple<T>)
        ensures
            r@ == items@,
    {
        PyTuple { inner: items }
    }

    /// The element at `index`, when present.
    pub fn get(&self, index: usize) -> (r: Option<&T>)
        ensures
            match r {
                Some(v) => index < self@.len() && *v == self@[index as int],
                None => index >= self@.len(),
            },
    {
        if index < self.inner.len() {
            Some(&self.inner[index])
        } else {
            None
        }
    }

    /// Borrow the elements as a slice.
    pub fn as_slice(&self) -> (r: &[T])
        ensures
            r@ == self@,
    {
        self.inner.as_slice()
    }
}

impl<T> Len for PyTuple<T> {
    open spec fn spec_len(&self) -> nat {
        self@.len()
    }

    fn len(&self) -> (r: usize) {
        self.inner.len()
    }
}

impl<T> Truthy for PyTuple<T> {
    open spec fn spec_truthy(&self) -> bool {
        self@.len() != 0
    }

    fn is_truthy(&self) -> (r: bool) {
        self.inner.len() != 0
    }
}

} // verus!
