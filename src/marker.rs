//! Marker types that brand values with an invariant lifetime.
use core::marker::PhantomData;
use vstd::prelude::*;

verus! {

/// A zero-sized value that makes the lifetime `'inv` invariant in the type that holds it.
///
/// Two values branded with different invariant lifetimes cannot be mixed up, which is how an
/// owner token is tied to exactly one set of cells.
#[derive(Clone, Copy, PartialEq, Eq, PartialOrd, Ord, Hash)]
pub struct Invariant<'inv> {
    brand: PhantomData<&'inv mut &'inv ()>,
}

impl<'inv> Invariant<'inv> {
    /// Creates a new brand for the lifetime `'inv`.
    pub fn new() -> Self {
        Invariant { brand: PhantomData }
    }
}

} // verus!
