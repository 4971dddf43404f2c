//! The tracing capability of payload types and the marker handed to it.
use crate::ptr::{Gc, WeakGc};
use vstd::prelude::*;

verus! {

/// Collects the references that a payload reports while it is traced.
///
/// Its only operations are to mark a managed pointer reachable, or to note a weak reference.
pub struct Marker {
    strong: Vec<usize>,
    weak: Vec<(usize, u64)>,
}

impl Marker {
    /// The addresses marked so far, in order.
    pub closed spec fn strong(&self) -> Seq<usize> {
        self.strong@
    }

    /// The weak references noted so far, in order.
    pub closed spec fn weak(&self) -> Seq<(usize, u64)> {
        self.weak@
    }

    pub(crate) fn new() -> (r: Marker)
        ensures
            r.strong() == Seq::<usize>::empty(),
            r.weak() == Seq::<(usize, u64)>::empty(),
    {
        Marker { strong: Vec::new(), weak: Vec::new() }
    }

    /// Marks the cell that `ptr` points to as reachable.
    pub fn mark<T>(&mut self, ptr: Gc<T>)
        ensures
            final(self).strong() == old(self).strong().push(ptr@),
            final(self).weak() == old(self).weak(),
    {
        self.strong.push(ptr.address());
    }

    /// Notes a weak reference: its cell is observed but not kept alive.
    pub fn mark_weak<T>(&mut self, ptr: WeakGc<T>)
        ensures
            final(self).strong() == old(self).strong(),
            final(self).weak() == old(self).weak().push(ptr@),
    {
        self.weak.push((ptr.address(), ptr.id()));
    }

    pub(crate) fn into_parts(self) -> (r: (Vec<usize>, Vec<(usize, u64)>))
        ensures
            r.0@ == self.strong(),
            r.1@ == self.weak(),
    {
        (self.strong, self.weak)
    }
}

/// A type that can be stored in a cell.
///
/// `refs` are the addresses of the cells a value keeps alive, `weak_refs` the weak references it
/// holds. `trace` reports exactly these to the marker, strong ones in order through `mark`.
/// What the collector proves about reachability holds of the references a type states in
/// `refs`; an implementation outside verified code must report through `trace` exactly the
/// references its values hold.
pub trait Trace: Sized {
    /// Whether values of this type can hold managed pointers at all.
    ///
    /// Types that do not state it are taken to possibly hold them.
    open spec fn traceable() -> bool {
        true
    }

    /// The addresses of the cells this value keeps alive.
    ///
    /// A type whose values hold managed pointers states them here; the default states none.
    open spec fn refs(&self) -> Seq<usize> {
        Seq::empty()
    }

    /// The weak references this value holds, as address and identity; by default none.
    open spec fn weak_refs(&self) -> Seq<(usize, u64)> {
        Seq::empty()
    }

    /// Whether values of this type can contain managed pointers; `true` is always a safe answer.
    fn needs_trace() -> (r: bool)
        ensures
            r == Self::traceable(),
            !r ==> forall|v: Self| (#[trigger] v.refs()).len() == 0,
    ;

    /// Reports every managed pointer of this value to the marker.
    fn trace(&self, marker: &mut Marker)
        ensures
            final(marker).strong() == old(marker).strong() + self.refs(),
            final(marker).weak() == old(marker).weak() + self.weak_refs(),
    ;
}

impl Trace for u8 {
    open spec fn traceable() -> bool {
        false
    }

    open spec fn refs(&self) -> Seq<usize> {
        Seq::empty()
    }

    open spec fn weak_refs(&self) -> Seq<(usize, u64)> {
        Seq::empty()
    }

    fn needs_trace() -> (r: bool) {
        false
    }

    fn trace(&self, marker: &mut Marker) {
        assert(marker.strong() + self.refs() =~= marker.strong());
        assert(marker.weak() + self.weak_refs() =~= marker.weak());
    }
}

impl Trace for u16 {
    open spec fn traceable() -> bool {
        false
    }

    open spec fn refs(&self) -> Seq<usize> {
        Seq::empty()
    }

    open spec fn weak_refs(&self) -> Seq<(usize, u64)> {
        Seq::empty()
    }

    fn needs_trace() -> (r: bool) {
        false
    }

    fn trace(&self, marker: &mut Marker) {
        assert(marker.strong() + self.refs() =~= marker.strong());
        assert(marker.weak() + self.weak_refs() =~= marker.weak());
    }
}

impl Trace for u32 {
    open spec fn traceable() -> bool {
        false
    }

    open spec fn refs(&self) -> Seq<usize> {
        Seq::empty()
    }

    open spec fn weak_refs(&self) -> Seq<(usize, u64)> {
        Seq::empty()
    }

    fn needs_trace() -> (r: bool) {
        false
    }

    fn trace(&self, marker: &mut Marker) {
        assert(marker.strong() + self.refs() =~= marker.strong());
        assert(marker.weak() + self.weak_refs() =~= marker.weak());
    }
}

impl Trace for u64 {
    open spec fn traceable() -> bool {
        false
    }

    open spec fn refs(&self) -> Seq<usize> {
        Seq::empty()
    }

    open spec fn weak_refs(&self) -> Seq<(usize, u64)> {
        Seq::empty()
    }

    fn needs_trace() -> (r: bool) {
        false
    }

    fn trace(&self, marker: &mut Marker) {
        assert(marker.strong() + self.refs() =~= marker.strong());
        assert(marker.weak() + self.weak_refs() =~= marker.weak());
    }
}

impl Trace for usize {
    open spec fn traceable() -> bool {
        false
    }

    open spec fn refs(&self) -> Seq<usize> {
        Seq::empty()
    }

    open spec fn weak_refs(&self) -> Seq<(usize, u64)> {
        Seq::empty()
    }

    fn needs_trace() -> (r: bool) {
        false
    }

    fn trace(&self, marker: &mut Marker) {
        assert(marker.strong() + self.refs() =~= marker.strong());
        assert(marker.weak() + self.weak_refs() =~= marker.weak());
    }
}

impl Trace for i8 {
    open spec fn traceable() -> bool {
        false
    }

    open spec fn refs(&self) -> Seq<usize> {
        Seq::empty()
    }

    open spec fn weak_refs(&self) -> Seq<(usize, u64)> {
        Seq::empty()
    }

    fn needs_trace() -> (r: bool) {
        false
    }

    fn trace(&self, marker: &mut Marker) {
        assert(marker.strong() + self.refs() =~= marker.strong());
        assert(marker.weak() + self.weak_refs() =~= marker.weak());
    }
}

impl Trace for i16 {
    open spec fn traceable() -> bool {
        false
    }

    open spec fn refs(&self) -> Seq<usize> {
        Seq::empty()
    }

    open spec fn weak_refs(&self) -> Seq<(usize, u64)> {
        Seq::empty()
    }

    fn needs_trace() -> (r: bool) {
        false
    }

    fn trace(&self, marker: &mut Marker) {
        assert(marker.strong() + self.refs() =~= marker.strong());
        assert(marker.weak() + self.weak_refs() =~= marker.weak());
    }
}

impl Trace for i32 {
    open spec fn traceable() -> bool {
        false
    }

    open spec fn refs(&self) -> Seq<usize> {
        Seq::empty()
    }

    open spec fn weak_refs(&self) -> Seq<(usize, u64)> {
        Seq::empty()
    }

    fn needs_trace() -> (r: bool) {
        false
    }

    fn trace(&self, marker: &mut Marker) {
        assert(marker.strong() + self.refs() =~= marker.strong());
        assert(marker.weak() + self.weak_refs() =~= marker.weak());
    }
}

impl Trace for i64 {
    open spec fn traceable() -> bool {
        false
    }

    open spec fn refs(&self) -> Seq<usize> {
        Seq::empty()
    }

    open spec fn weak_refs(&self) -> Seq<(usize, u64)> {
        Seq::empty()
    }

    fn needs_trace() -> (r: bool) {
        false
    }

    fn trace(&self, marker: &mut Marker) {
        assert(marker.strong() + self.refs() =~= marker.strong());
        assert(marker.weak() + self.weak_refs() =~= marker.weak());
    }
}

impl Trace for isize {
    open spec fn traceable() -> bool {
        false
    }

    open spec fn refs(&self) -> Seq<usize> {
        Seq::empty()
    }

    open spec fn weak_refs(&self) -> Seq<(usize, u64)> {
        Seq::empty()
    }

    fn needs_trace() -> (r: bool) {
        false
    }

    fn trace(&self, marker: &mut Marker) {
        assert(marker.strong() + self.refs() =~= marker.strong());
        assert(marker.weak() + self.weak_refs() =~= marker.weak());
    }
}

impl Trace for bool {
    open spec fn traceable() -> bool {
        false
    }

    open spec fn refs(&self) -> Seq<usize> {
        Seq::empty()
    }

    open spec fn weak_refs(&self) -> Seq<(usize, u64)> {
        Seq::empty()
    }

    fn needs_trace() -> (r: bool) {
        false
    }

    fn trace(&self, marker: &mut Marker) {
        assert(marker.strong() + self.refs() =~= marker.strong());
        assert(marker.weak() + self.weak_refs() =~= marker.weak());
    }
}

impl Trace for char {
    open spec fn traceable() -> bool {
        false
    }

    open spec fn refs(&self) -> Seq<usize> {
        Seq::empty()
    }

    open spec fn weak_refs(&self) -> Seq<(usize, u64)> {
        Seq::empty()
    }

    fn needs_trace() -> (r: bool) {
        false
    }

    fn trace(&self, marker: &mut Marker) {
        assert(marker.strong() + self.refs() =~= marker.strong());
        assert(marker.weak() + self.weak_refs() =~= marker.weak());
    }
}

impl Trace for String {
    open spec fn traceable() -> bool {
        false
    }

    open spec fn refs(&self) -> Seq<usize> {
        Seq::empty()
    }

    open spec fn weak_refs(&self) -> Seq<(usize, u64)> {
        Seq::empty()
    }

    fn needs_trace() -> (r: bool) {
        false
    }

    fn trace(&self, marker: &mut Marker) {
        assert(marker.strong() + self.refs() =~= marker.strong());
        assert(marker.weak() + self.weak_refs() =~= marker.weak());
    }
}

impl<T> Trace for Gc<T> {
    open spec fn traceable() -> bool {
        true
    }

    open spec fn refs(&self) -> Seq<usize> {
        seq![self@]
    }

    open spec fn weak_refs(&self) -> Seq<(usize, u64)> {
        Seq::empty()
    }

    fn needs_trace() -> (r: bool) {
        true
    }

    fn trace(&self, marker: &mut Marker) {
        marker.mark(*self);
        assert(final(marker).strong() =~= old(marker).strong() + self.refs());
        assert(final(marker).weak() =~= old(marker).weak() + self.weak_refs());
    }
}

impl<T> Trace for WeakGc<T> {
    open spec fn traceable() -> bool {
        true
    }

    open spec fn refs(&self) -> Seq<usize> {
        Seq::empty()
    }

    open spec fn weak_refs(&self) -> Seq<(usize, u64)> {
        seq![self@]
    }

    fn needs_trace() -> (r: bool) {
        true
    }

    fn trace(&self, marker: &mut Marker) {
        marker.mark_weak(*self);
        assert(final(marker).strong() =~= old(marker).strong() + self.refs());
        assert(final(marker).weak() =~= old(marker).weak() + self.weak_refs());
    }
}

impl<T: Trace> Trace for Option<T> {
    open spec fn traceable() -> bool {
        T::traceable()
    }

    open spec fn refs(&self) -> Seq<usize> {
        match self {
            Some(v) => v.refs(),
            None => Seq::empty(),
        }
    }

    open spec fn weak_refs(&self) -> Seq<(usize, u64)> {
        match self {
            Some(v) => v.weak_refs(),
            None => Seq::empty(),
        }
    }

    fn needs_trace() -> (r: bool) {
        T::needs_trace()
    }

    fn trace(&self, marker: &mut Marker) {
        match self {
            Some(v) => v.trace(marker),
            None => {
                assert(marker.strong() + self.refs() =~= marker.strong());
                assert(marker.weak() + self.weak_refs() =~= marker.weak());
            },
        }
    }
}

impl<R: Trace, E: Trace> Trace for Result<R, E> {
    open spec fn traceable() -> bool {
        R::traceable() || E::traceable()
    }

    open spec fn refs(&self) -> Seq<usize> {
        match self {
            Ok(v) => v.refs(),
            Err(e) => e.refs(),
        }
    }

    open spec fn weak_refs(&self) -> Seq<(usize, u64)> {
        match self {
            Ok(v) => v.weak_refs(),
            Err(e) => e.weak_refs(),
        }
    }

    fn needs_trace() -> (r: bool) {
        let r = R::needs_trace();
        let e = E::needs_trace();
        r || e
    }

    fn trace(&self, marker: &mut Marker) {
        match self {
            Ok(v) => v.trace(marker),
            Err(e) => e.trace(marker),
        }
    }
}

/// The strong references of a sequence of values, element after element.
pub open spec fn refs_of_seq<T: Trace>(s: Seq<T>) -> Seq<usize>
    decreases s.len(),
{
    if s.len() == 0 {
        Seq::empty()
    } else {
        refs_of_seq(s.drop_last()) + s.last().refs()
    }
}

/// The weak references of a sequence of values, element after element.
pub open spec fn weak_refs_of_seq<T: Trace>(s: Seq<T>) -> Seq<(usize, u64)>
    decreases s.len(),
{
    if s.len() == 0 {
        Seq::empty()
    } else {
        weak_refs_of_seq(s.drop_last()) + s.last().weak_refs()
    }
}

proof fn lemma_refs_of_seq_empty<T: Trace>(s: Seq<T>)
    requires
        forall|v: T| (#[trigger] v.refs()).len() == 0,
    ensures
        refs_of_seq(s).len() == 0,
    decreases s.len(),
{
    if s.len() > 0 {
        lemma_refs_of_seq_empty(s.drop_last());
        assert(s.last().refs().len() == 0);
    }
}

impl<T: Trace> Trace for Vec<T> {
    open spec fn traceable() -> bool {
        T::traceable()
    }

    open spec fn refs(&self) -> Seq<usize> {
        refs_of_seq(self@)
    }

    open spec fn weak_refs(&self) -> Seq<(usize, u64)> {
        weak_refs_of_seq(self@)
    }

    fn needs_trace() -> (r: bool) {
        let r = T::needs_trace();
        proof {
            if !r {
                assert forall|v: Vec<T>| (#[trigger] v.refs()).len() == 0 by {
                    lemma_refs_of_seq_empty(v@);
                }
            }
        }
        r
    }

    fn trace(&self, marker: &mut Marker) {
        let n = self.len();
        let mut i: usize = 0;
        while i < n
            invariant
                n == self@.len(),
                i <= n,
                marker.strong() == old(marker).strong() + refs_of_seq(self@.take(i as int)),
                marker.weak() == old(marker).weak() + weak_refs_of_seq(self@.take(i as int)),
            decreases n - i,
        {
            let ghost before = *marker;
            self[i].trace(marker);
            proof {
                let t = self@.take(i as int + 1);
                assert(t.drop_last() =~= self@.take(i as int));
                assert(t.last() == self@[i as int]);
                assert(marker.strong() =~= old(marker).strong() + refs_of_seq(t));
                assert(marker.weak() =~= old(marker).weak() + weak_refs_of_seq(t));
            }
            i = i + 1;
        }
        assert(self@.take(n as int) =~= self@);
    }
}

} // verus!
