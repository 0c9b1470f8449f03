//! A wrapper that shields a value from mutation while leaving it readable.
use vstd::prelude::*;

verus! {

/// Wraps any value and makes it readonly: the value can be borrowed but,
/// since the field is private and no `&mut` access is offered, never changed.
#[derive(Debug, PartialEq)]
pub struct Readonly<T> {
    value: T,
}

impl<T> Readonly<T> {
    /// The wrapped value, for use in specifications.
    pub closed spec fn spec_value(&self) -> T {
        self.value
    }

    pub fn new(value: T) -> (r: Self)
        ensures
            r.spec_value() == value,
    {
        Readonly { value }
    }

    /// Borrows the wrapped value.
    pub fn get(&self) -> (r: &T)
        ensures
            *r == self.spec_value(),
    {
        &self.value
    }
}

} // verus!
