//! Truthiness: whether a value counts as present for a conditional section.

use vstd::prelude::*;

verus! {

/// A value that a conditional section can test.
pub trait Conditional {
    spec fn truthy(&self) -> bool;

    fn val(&self) -> (r: bool)
        ensures
            r == self.truthy(),
    ;
}

impl Conditional for bool {
    open spec fn truthy(&self) -> bool {
        *self
    }

    fn val(&self) -> (r: bool) {
        *self
    }
}

impl<T> Conditional for Vec<T> {
    open spec fn truthy(&self) -> bool {
        self@.len() > 0
    }

    fn val(&self) -> (r: bool) {
        self.len() > 0
    }
}

impl<'a, T> Conditional for &'a [T] {
    open spec fn truthy(&self) -> bool {
        self@.len() > 0
    }

    fn val(&self) -> (r: bool) {
        self.len() > 0
    }
}

impl<'a, T: Conditional> Conditional for &'a T {
    open spec fn truthy(&self) -> bool {
        (**self).truthy()
    }

    fn val(&self) -> (r: bool) {
        (**self).val()
    }
}

} // verus!
