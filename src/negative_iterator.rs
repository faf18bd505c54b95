//! Negative iteration: a value that stands for an absence yields one item,
//! a present value yields none.

use vstd::prelude::*;

verus! {

/// A value that a negative iteration section can walk.
pub trait NegativeIterator {
    type Item;

    spec fn absent_item(&self) -> Option<Self::Item>;

    /// The single item to render for an absent value, or `None` for a present one.
    fn neg_iter(&self) -> (r: Option<Self::Item>)
        ensures
            r == self.absent_item(),
    ;
}

impl<T> NegativeIterator for Option<T> {
    type Item = ();

    open spec fn absent_item(&self) -> Option<()> {
        match self {
            Some(_) => None,
            None => Some(()),
        }
    }

    fn neg_iter(&self) -> (r: Option<()>) {
        match self {
            Some(_) => None,
            None => Some(()),
        }
    }
}

impl<'a, T, E> NegativeIterator for &'a Result<T, E> {
    type Item = &'a E;

    open spec fn absent_item(&self) -> Option<&'a E> {
        match **self {
            Ok(_) => None,
            Err(ref e) => Some(e),
        }
    }

    fn neg_iter(&self) -> (r: Option<&'a E>) {
        match *self {
            Ok(_) => None,
            Err(e) => Some(e),
        }
    }
}

} // verus!
