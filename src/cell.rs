//! Cells whose contents are reached through an owner token.
use crate::marker::Invariant;
use vstd::prelude::*;

verus! {

/// The owner of every [`LCell`] branded with the lifetime `'rt`.
///
/// Shared possession of the owner lets a holder read those cells; exclusive possession lets
/// it write one.
pub struct CellOwner<'rt> {
    brand: Invariant<'rt>,
}

impl<'rt> CellOwner<'rt> {
    /// Creates the owner for the brand `id`.
    pub fn new(id: Invariant<'rt>) -> Self {
        CellOwner { brand: id }
    }

    /// Borrows the contents of `cell`.
    pub fn borrow<'a, T>(&'a self, cell: &'a LCell<'rt, T>) -> (r: &'a T)
        ensures
            *r == cell@,
    {
        &cell.value
    }

    /// Borrows the contents of `cell` mutably.
    pub fn borrow_mut<'a, T>(&'a mut self, cell: &'a mut LCell<'rt, T>) -> (r: &'a mut T)
        ensures
            *r == old(cell)@,
            final(cell)@ == *final(r),
    {
        &mut cell.value
    }
}

/// A value whose access goes through the [`CellOwner`] of the same brand.
pub struct LCell<'rt, T> {
    brand: Invariant<'rt>,
    value: T,
}

impl<'rt, T> View for LCell<'rt, T> {
    type V = T;

    closed spec fn view(&self) -> T {
        self.value
    }
}

impl<'rt, T> LCell<'rt, T> {
    /// Creates a cell holding `value`.
    pub fn new(value: T) -> (r: Self)
        ensures
            r@ == value,
    {
        LCell { brand: Invariant::new(), value }
    }

    /// Borrows the contents, as the owner allows.
    pub fn borrow<'a>(&'a self, owner: &'a CellOwner<'rt>) -> (r: &'a T)
        ensures
            *r == self@,
    {
        owner.borrow(self)
    }

    /// Borrows the contents mutably, as the exclusive owner allows.
    pub fn borrow_mut<'a>(&'a mut self, owner: &'a mut CellOwner<'rt>) -> (r: &'a mut T)
        ensures
            *r == old(self)@,
            final(self)@ == *final(r),
    {
        owner.borrow_mut(self)
    }

    /// The contents, for code that keeps the owner discipline by other means.
    pub fn get(&self) -> (r: &T)
        ensures
            *r == self@,
    {
        &self.value
    }
}

} // verus!
