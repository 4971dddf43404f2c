//! Managed pointers, weak pointers and the tracing status of a cell.
use core::marker::PhantomData;
use vstd::prelude::*;

verus! {

/// The tracing colour of a cell.
///
/// `Untraced` is white, `Marked` is gray (reached but not yet traced), `Traced` is black.
/// `MarkedWeak` is a white cell that was reached through a weak reference only: the sweep
/// frees it like an unmarked one, and a strong reference found later still shades it gray.
#[derive(Clone, Copy, PartialEq, Eq, Debug, Structural)]
pub enum Status {
    Untraced,
    Marked,
    MarkedWeak,
    Traced,
}

impl Status {
    /// Whether the cell counts as unreached for the strong reachability invariant.
    pub open spec fn is_white(self) -> bool {
        self == Status::Untraced || self == Status::MarkedWeak
    }
}

/// A handle to a cell holding a `T`: the cell's address, which stays the same while the cell
/// lives.
///
/// Handles are plain values; copying one does not allocate.
pub struct Gc<T> {
    addr: usize,
    payload: PhantomData<T>,
}

impl<T> Clone for Gc<T> {
    fn clone(&self) -> Self {
        Gc { addr: self.addr, payload: PhantomData }
    }
}

impl<T> Copy for Gc<T> {
}

impl<T> View for Gc<T> {
    type V = usize;

    closed spec fn view(&self) -> usize {
        self.addr
    }
}

impl<T> Gc<T> {
    pub(crate) fn new(addr: usize) -> (r: Gc<T>)
        ensures
            r@ == addr,
    {
        Gc { addr, payload: PhantomData }
    }

    /// The address of the cell.
    pub fn address(self) -> (r: usize)
        ensures
            r == self@,
    {
        self.addr
    }

    /// Whether two handles point to the same cell.
    pub fn ptr_eq(self, other: Gc<T>) -> (r: bool)
        ensures
            r == (self@ == other@),
    {
        self.addr == other.addr
    }
}

/// A handle that observes a cell without keeping it alive.
///
/// It holds the cell's address and the identity the cell was given at allocation, so that a
/// later cell placed at the same address is never mistaken for it.
pub struct WeakGc<T> {
    addr: usize,
    id: u64,
    payload: PhantomData<T>,
}

impl<T> Clone for WeakGc<T> {
    fn clone(&self) -> Self {
        WeakGc { addr: self.addr, id: self.id, payload: PhantomData }
    }
}

impl<T> Copy for WeakGc<T> {
}

impl<T> View for WeakGc<T> {
    type V = (usize, u64);

    closed spec fn view(&self) -> (usize, u64) {
        (self.addr, self.id)
    }
}

impl<T> WeakGc<T> {
    pub(crate) fn from_parts(addr: usize, id: u64) -> (r: WeakGc<T>)
        ensures
            r@ == (addr, id),
    {
        WeakGc { addr, id, payload: PhantomData }
    }

    /// The address of the observed cell.
    pub fn address(self) -> (r: usize)
        ensures
            r == self@.0,
    {
        self.addr
    }

    /// The identity of the observed cell.
    pub fn id(self) -> (r: u64)
        ensures
            r == self@.1,
    {
        self.id
    }
}

} // verus!
