//! The arena: cells, roots, the phase machine, allocation, the write barrier and collection.
use crate::graph::{self, Graph};
use crate::ptr::{Gc, Status, WeakGc};
use crate::trace::{Marker, Trace};
use vstd::pervasive::unreached;
use vstd::prelude::*;

verus! {

/// After a cycle, the bytes that may be allocated before the next one starts are the
/// surviving bytes divided by `PAUSE_DIVISOR`, rounded, and at least `MIN_SLEEP`.
pub const PAUSE_DIVISOR: usize = 2;

/// Every allocated byte outside `Sleep` adds `1 + TIMING_NUM / TIMING_DEN` bytes of work.
pub const TIMING_NUM: usize = 2;

/// See [`TIMING_NUM`].
pub const TIMING_DEN: usize = 3;

/// The least number of bytes allocated between two cycles.
pub const MIN_SLEEP: usize = 4096;

/// The phase of the collector.
#[derive(Clone, Copy, PartialEq, Eq, Debug, Structural)]
pub enum Phase {
    /// Idle; allocations accumulate.
    Sleep,
    /// The next step shades the roots.
    Wake,
    /// Gray cells are traced one per step.
    Mark,
    /// Cells are visited one per step; white ones are freed.
    Sweep,
}

impl Phase {
    /// How many phase changes are left before the collector sleeps again.
    pub open spec fn remaining(self) -> nat {
        match self {
            Phase::Sleep => 0,
            Phase::Wake => 3,
            Phase::Mark => 2,
            Phase::Sweep => 1,
        }
    }

    /// The phase that follows this one in a cycle.
    pub open spec fn next(self) -> Phase {
        match self {
            Phase::Sleep => Phase::Wake,
            Phase::Wake => Phase::Mark,
            Phase::Mark => Phase::Sweep,
            Phase::Sweep => Phase::Sleep,
        }
    }
}

/// A cell: the payload with its tracing status and the identity it was given at allocation.
pub struct GcBox<T> {
    value: T,
    status: Status,
    id: u64,
}

/// A handle for one entry of the root list; giving it back to the arena removes the root.
pub struct RootGuard {
    index: usize,
}

impl View for RootGuard {
    type V = usize;

    closed spec fn view(&self) -> usize {
        self.index
    }
}

/// `x + y`, or `usize::MAX` where that does not fit.
pub open spec fn sat_add(x: int, y: int) -> usize {
    if x + y > usize::MAX {
        usize::MAX
    } else {
        (x + y) as usize
    }
}

/// The work that allocating `size` bytes adds outside `Sleep`.
pub open spec fn debt_of(size: int) -> int {
    size + size * (TIMING_NUM as int) / (TIMING_DEN as int)
}

/// The pause after a cycle in which `remembered` bytes survived.
pub open spec fn pause_of(remembered: int) -> int {
    let half = (remembered + (PAUSE_DIVISOR as int) / 2) / (PAUSE_DIVISOR as int);
    if half < MIN_SLEEP {
        MIN_SLEEP as int
    } else {
        half
    }
}

/// How much marking work a status still stands for: a white cell may yet be shaded and
/// traced, a gray one traced.
pub open spec fn status_weight(s: Status) -> nat {
    match s {
        Status::Untraced | Status::MarkedWeak => 3,
        Status::Marked => 1,
        Status::Traced => 0,
    }
}

spec fn slot_weight<T>(o: Option<GcBox<T>>) -> nat {
    match o {
        Some(b) => status_weight(b.status),
        None => 0,
    }
}

spec fn weight_of<T>(s: Seq<Option<GcBox<T>>>) -> nat
    decreases s.len(),
{
    if s.len() == 0 {
        0
    } else {
        weight_of(s.drop_last()) + slot_weight(s.last())
    }
}

proof fn lemma_weight_update<T>(s: Seq<Option<GcBox<T>>>, i: int, v: Option<GcBox<T>>)
    requires
        0 <= i < s.len(),
    ensures
        weight_of(s.update(i, v)) + slot_weight(s[i]) == weight_of(s) + slot_weight(v),
    decreases s.len(),
{
    let t = s.update(i, v);
    if i == s.len() - 1 {
        assert(t.drop_last() =~= s.drop_last());
    } else {
        assert(t.drop_last() =~= s.drop_last().update(i, v));
        lemma_weight_update(s.drop_last(), i, v);
    }
}

/// The number of live cells in a slot table.
spec fn live_count<T>(s: Seq<Option<GcBox<T>>>) -> nat
    decreases s.len(),
{
    if s.len() == 0 {
        0
    } else {
        live_count(s.drop_last()) + if s.last().is_some() { 1nat } else { 0nat }
    }
}

proof fn lemma_count_congruent<T>(s1: Seq<Option<GcBox<T>>>, s2: Seq<Option<GcBox<T>>>)
    requires
        s1.len() == s2.len(),
        forall|i: int| 0 <= i < s1.len() ==> s1[i].is_some() == s2[i].is_some(),
    ensures
        live_count(s1) == live_count(s2),
    decreases s1.len(),
{
    if s1.len() > 0 {
        lemma_count_congruent(s1.drop_last(), s2.drop_last());
    }
}

proof fn lemma_count_update<T>(s: Seq<Option<GcBox<T>>>, i: int, v: Option<GcBox<T>>)
    requires
        0 <= i < s.len(),
    ensures
        live_count(s.update(i, v)) + (if s[i].is_some() { 1nat } else { 0nat })
            == live_count(s) + (if v.is_some() { 1nat } else { 0nat }),
    decreases s.len(),
{
    let t = s.update(i, v);
    if i == s.len() - 1 {
        assert(t.drop_last() =~= s.drop_last());
    } else {
        assert(t.drop_last() =~= s.drop_last().update(i, v));
        lemma_count_update(s.drop_last(), i, v);
    }
}

proof fn lemma_count_push<T>(s: Seq<Option<GcBox<T>>>, v: Option<GcBox<T>>)
    ensures
        live_count(s.push(v)) == live_count(s) + (if v.is_some() { 1nat } else { 0nat }),
{
    assert(s.push(v).drop_last() =~= s);
}

proof fn lemma_count_take_step<T>(s: Seq<Option<GcBox<T>>>, k: int)
    requires
        0 <= k < s.len(),
    ensures
        live_count(s.take(k + 1)) == live_count(s.take(k)) + (if s[k].is_some() { 1nat } else { 0nat }),
{
    assert(s.take(k + 1).drop_last() =~= s.take(k));
}

proof fn lemma_count_take_le<T>(s: Seq<Option<GcBox<T>>>, k: int)
    requires
        0 <= k <= s.len(),
    ensures
        live_count(s.take(k)) <= live_count(s),
    decreases s.len() - k,
{
    if k < s.len() {
        lemma_count_take_step(s, k);
        lemma_count_take_le(s, k + 1);
    } else {
        assert(s.take(k) =~= s);
    }
}

/// The arena that allocates, roots and collects cells holding values of type `T`.
///
/// A cell's address is its index in the slot table, so it never changes while the cell lives.
/// Freed slots are handed out again, but every cell gets a fresh identity.
pub struct Arena<T> {
    slots: Vec<Option<GcBox<T>>>,
    free: Vec<usize>,
    roots: Vec<usize>,
    grays: Vec<usize>,
    grays_again: Vec<usize>,
    sweep: usize,
    sweep_end: usize,
    total_allocated: usize,
    remembered_size: usize,
    wakeup_total: usize,
    allocation_debt: usize,
    phase: Phase,
    next_id: u64,
    cell_size: usize,
    traced: bool,
    work_done: Ghost<nat>,
}

fn set_status<T>(slots: &mut Vec<Option<GcBox<T>>>, a: usize, s: Status)
    requires
        a < old(slots)@.len(),
        old(slots)@[a as int].is_some(),
    ensures
        final(slots)@ == old(slots)@.update(
            a as int,
            Some(GcBox { status: s, ..old(slots)@[a as int].unwrap() }),
        ),
{
    match &mut slots[a] {
        Some(b) => {
            b.status = s;
        },
        None => {},
    }
}

fn replace_value<T>(slots: &mut Vec<Option<GcBox<T>>>, a: usize, v: T) -> (r: T)
    requires
        a < old(slots)@.len(),
        old(slots)@[a as int].is_some(),
    ensures
        r == old(slots)@[a as int].unwrap().value,
        final(slots)@ == old(slots)@.update(
            a as int,
            Some(GcBox { value: v, ..old(slots)@[a as int].unwrap() }),
        ),
{
    let mut v = v;
    match &mut slots[a] {
        Some(b) => {
            core::mem::swap(&mut b.value, &mut v);
        },
        None => {},
    }
    v
}

impl<T: Trace> Arena<T> {
    /// Whether a cell lives at address `a`.
    pub closed spec fn live(&self, a: usize) -> bool {
        a < self.slots@.len() && self.slots@[a as int].is_some()
    }

    /// The payload of the cell at `a`.
    pub closed spec fn value(&self, a: usize) -> T {
        self.slots@[a as int].unwrap().value
    }

    /// The tracing status of the cell at `a`.
    pub closed spec fn status(&self, a: usize) -> Status {
        self.slots@[a as int].unwrap().status
    }

    /// The identity of the cell at `a`.
    pub closed spec fn id(&self, a: usize) -> u64 {
        self.slots@[a as int].unwrap().id
    }

    /// The identity the next allocation gets; also the number of allocations so far.
    pub closed spec fn next_id(&self) -> u64 {
        self.next_id
    }

    /// The number of live cells.
    pub closed spec fn live_cells(&self) -> nat {
        live_count(self.slots@)
    }

    /// The work that `collect` has accounted so far.
    pub closed spec fn work_done(&self) -> nat {
        self.work_done@
    }

    /// The work that the next collection step accounts: the number of roots plus one to shade
    /// the roots, the size of a cell to trace or visit one, one to change phase.
    pub closed spec fn step_cost(&self) -> nat {
        match self.phase {
            Phase::Wake => if self.roots@.len() < usize::MAX { (self.roots@.len() + 1) as nat } else { self.roots@.len() },
            Phase::Mark => if self.grays@.len() == 0 && self.grays_again@.len() == 0 { 1 } else { self.cell_size as nat },
            Phase::Sweep => if self.sweep < self.sweep_end { self.cell_size as nat } else { 1 },
            Phase::Sleep => 0,
        }
    }

    /// The sweep cursor: the next address the sweep visits.
    pub closed spec fn sweep_cursor(&self) -> usize {
        self.sweep
    }

    /// The cells that the last sweep visited and kept: the live cells below its end.
    pub closed spec fn survivors(&self) -> nat {
        live_count(self.slots@.take(self.sweep_end as int))
    }

    /// The root list, oldest root first.
    pub closed spec fn roots(&self) -> Seq<usize> {
        self.roots@
    }

    pub closed spec fn phase(&self) -> Phase {
        self.phase
    }

    pub closed spec fn total_allocated(&self) -> usize {
        self.total_allocated
    }

    pub closed spec fn wakeup_total(&self) -> usize {
        self.wakeup_total
    }

    /// The bytes that survived the sweep so far.
    pub closed spec fn remembered_size(&self) -> usize {
        self.remembered_size
    }

    pub closed spec fn allocation_debt(&self) -> usize {
        self.allocation_debt
    }

    /// The size in bytes that each cell accounts for.
    pub closed spec fn cell_size(&self) -> usize {
        self.cell_size
    }

    /// Whether a cell is white and ahead of the sweep cursor: the sweep in progress frees it.
    pub closed spec fn doomed(&self, a: usize) -> bool {
        &&& self.phase == Phase::Sweep
        &&& self.sweep <= a < self.sweep_end
        &&& self.live(a)
        &&& self.status(a).is_white()
    }

    /// Whether a gray cell waits on one of the gray stacks.
    closed spec fn pending(&self, a: usize) -> bool {
        self.grays@.contains(a) || self.grays_again@.contains(a)
    }

    /// A gray stack holds live cells that are not white.
    closed spec fn gray_entry(&self, a: usize) -> bool {
        self.live(a) && !self.status(a).is_white()
    }

    /// What is left of the current phase: gray work while marking, cells while sweeping.
    pub closed spec fn work_left(&self) -> nat {
        match self.phase {
            Phase::Mark => weight_of(self.slots@) + self.grays@.len() + self.grays_again@.len(),
            Phase::Sweep => (self.sweep_end - self.sweep) as nat,
            _ => 0,
        }
    }

    /// A cell that the mutator may use: live and not about to be freed.
    pub open spec fn usable(&self, a: usize) -> bool {
        self.live(a) && !self.doomed(a)
    }

    /// Every managed pointer of `v` is usable.
    pub open spec fn refs_usable(&self, v: T) -> bool {
        forall|i: int| 0 <= i < v.refs().len() ==> self.usable(#[trigger] v.refs()[i])
    }

    /// The heap graph: each live cell with the addresses it references.
    pub open spec fn graph(&self) -> Graph {
        Map::new(|a: usize| self.live(a), |a: usize| self.value(a).refs())
    }

    /// Whether a path of strong references from a root reaches `a`.
    pub open spec fn reachable(&self, a: usize) -> bool {
        graph::reachable(self.graph(), self.roots(), a)
    }

    /// The arena's invariant.
    pub closed spec fn wf(&self) -> bool {
        self.inv(None)
    }

    /// The invariant, except that the gray cell `skip`, taken off its stack to be traced, need
    /// not wait on a stack.
    closed spec fn inv(&self, skip: Option<usize>) -> bool {
        self.cells_ok() && self.stacks_ok(skip)
    }

    /// The part of the invariant about cells and roots.
    closed spec fn cells_ok(&self) -> bool {
        &&& self.cell_size >= 1
        &&& self.total_allocated == self.cell_size * live_count(self.slots@)
        &&& self.traced == T::traceable()
        &&& (!self.traced ==> forall|v: T| (#[trigger] v.refs()).len() == 0)
        &&& forall|a: usize, b: usize|
            #![trigger self.id(a), self.id(b)]
            self.live(a) && self.live(b) && self.id(a) == self.id(b) ==> a == b
        &&& forall|a: usize| #[trigger] self.live(a) ==> self.id(a) < self.next_id
        &&& forall|i: int| 0 <= i < self.roots@.len() ==> self.usable(#[trigger] self.roots@[i])
        &&& forall|a: usize, i: int|
            #![trigger self.value(a).refs()[i]]
            self.usable(a) && 0 <= i < self.value(a).refs().len() ==> self.usable(self.value(a).refs()[i])
        &&& match self.phase {
            Phase::Sleep | Phase::Wake => forall|a: usize| #[trigger] self.live(a) ==> self.status(a) == Status::Untraced,
            Phase::Mark => {
                &&& forall|a: usize, i: int|
                    #![trigger self.value(a).refs()[i]]
                    self.live(a) && self.status(a) == Status::Traced && 0 <= i < self.value(a).refs().len()
                        ==> !self.status(self.value(a).refs()[i]).is_white()
                &&& forall|i: int| 0 <= i < self.roots@.len() ==> !self.status(#[trigger] self.roots@[i]).is_white()
            },
            Phase::Sweep => {
                &&& self.sweep <= self.sweep_end <= self.slots@.len()
                &&& self.remembered_size == self.cell_size * live_count(self.slots@.take(self.sweep as int))
                &&& forall|a: usize|
                    #[trigger] self.live(a) && (a < self.sweep || a >= self.sweep_end) ==> self.status(a) == Status::Untraced
            },
        }
    }

    /// The part of the invariant about the gray stacks.
    closed spec fn stacks_ok(&self, skip: Option<usize>) -> bool {
        if self.phase == Phase::Mark {
            &&& forall|a: usize|
                #[trigger] self.live(a) && self.status(a) == Status::Marked && skip != Some(a)
                    ==> self.pending(a) || !self.traced
            &&& forall|i: int| 0 <= i < self.grays@.len() ==> self.gray_entry(#[trigger] self.grays@[i])
            &&& forall|i: int| 0 <= i < self.grays_again@.len() ==> self.gray_entry(#[trigger] self.grays_again@[i])
        } else {
            self.grays@.len() == 0 && self.grays_again@.len() == 0
        }
    }

    /// Two states with the same slot table agree on every cell.
    proof fn lemma_slots_equal(pre: Self, post: Self)
        requires
            post.slots@ == pre.slots@,
        ensures
            forall|a: usize| #[trigger] post.live(a) == pre.live(a),
            forall|a: usize| #[trigger] post.value(a) == pre.value(a),
            forall|a: usize| #[trigger] post.status(a) == pre.status(a),
            forall|a: usize| #[trigger] post.id(a) == pre.id(a),
            post.graph() == pre.graph(),
    {
        assert(post.graph() =~= pre.graph());
    }

    /// A state with the same cells, roots and phase as a well-formed one has well-formed cells.
    proof fn lemma_same_slots(pre: Self, post: Self)
        requires
            pre.cells_ok(),
            post.slots@ == pre.slots@,
            post.roots@ == pre.roots@,
            post.phase == pre.phase || (pre.phase == Phase::Sleep && post.phase == Phase::Wake),
            post.sweep == pre.sweep,
            post.sweep_end == pre.sweep_end,
            post.next_id == pre.next_id,
            post.traced == pre.traced,
            post.cell_size == pre.cell_size,
            post.total_allocated == pre.total_allocated,
            post.remembered_size == pre.remembered_size,
        ensures
            post.cells_ok(),
            forall|a: usize| #[trigger] post.live(a) == pre.live(a),
            forall|a: usize| #[trigger] post.value(a) == pre.value(a),
            forall|a: usize| #[trigger] post.status(a) == pre.status(a),
            forall|a: usize| #[trigger] post.id(a) == pre.id(a),
            forall|a: usize| #[trigger] post.usable(a) == pre.usable(a),
            forall|a: usize| #[trigger] post.gray_entry(a) == pre.gray_entry(a),
            post.graph() == pre.graph(),
            pre.cells_kept(post),
            pre.addresses_kept(post),
    {
        assert forall|a: usize| #[trigger] post.usable(a) == pre.usable(a) by {
            assert(post.live(a) == pre.live(a));
        }
        assert forall|a: usize| #[trigger] post.live(a) implies post.id(a) < post.next_id by {
            assert(pre.live(a));
        }
        assert forall|a: usize, b: usize|
            #![trigger post.id(a), post.id(b)]
            post.live(a) && post.live(b) && post.id(a) == post.id(b) implies a == b by {
            assert(pre.live(a) && pre.live(b) && pre.id(a) == pre.id(b));
        }
        assert forall|i: int| 0 <= i < post.roots@.len() implies post.usable(#[trigger] post.roots@[i]) by {
            assert(pre.usable(pre.roots@[i]));
        }
        assert forall|a: usize, i: int|
            #![trigger post.value(a).refs()[i]]
            post.usable(a) && 0 <= i < post.value(a).refs().len() implies post.usable(post.value(a).refs()[i]) by {
            assert(pre.usable(a));
            assert(pre.usable(pre.value(a).refs()[i]));
        }
        match post.phase {
            Phase::Sleep | Phase::Wake => {
                assert forall|a: usize| #[trigger] post.live(a) implies post.status(a) == Status::Untraced by {
                    assert(pre.live(a));
                }
            },
            Phase::Mark => {
                assert forall|a: usize, i: int|
                    #![trigger post.value(a).refs()[i]]
                    post.live(a) && post.status(a) == Status::Traced && 0 <= i < post.value(a).refs().len()
                        implies !post.status(post.value(a).refs()[i]).is_white() by {
                    assert(pre.live(a));
                    assert(!pre.status(pre.value(a).refs()[i]).is_white());
                }
                assert forall|i: int| 0 <= i < post.roots@.len() implies !post.status(#[trigger] post.roots@[i]).is_white() by {
                    assert(!pre.status(pre.roots@[i]).is_white());
                }
            },
            Phase::Sweep => {
                assert forall|a: usize|
                    #[trigger] post.live(a) && (a < post.sweep || a >= post.sweep_end) implies post.status(a) == Status::Untraced by {
                    assert(pre.live(a));
                }
            },
        }
        assert(post.graph() =~= pre.graph());
    }

    /// The cells that live in both states live at the same addresses: a cell never moves.
    pub open spec fn addresses_kept(&self, after: Self) -> bool {
        forall|a: usize, b: usize|
            #![trigger self.id(a), after.id(b)]
            self.live(a) && after.live(b) && self.id(a) == after.id(b) ==> a == b
    }

    /// Every cell that lives in both states keeps its identity and payload.
    pub open spec fn cells_kept(&self, after: Self) -> bool {
        forall|a: usize|
            #![trigger after.live(a)]
            #![trigger after.value(a)]
            self.live(a) && after.live(a) ==> after.id(a) == self.id(a) && after.value(a) == self.value(a)
    }

    /// Creates an empty arena in the `Sleep` phase.
    pub fn new() -> (r: Self)
        ensures
            r.wf(),
            r.phase() == Phase::Sleep,
            r.roots() == Seq::<usize>::empty(),
            r.next_id() == 0,
            r.total_allocated() == 0,
            r.wakeup_total() == MIN_SLEEP,
            r.allocation_debt() == 0,
            r.remembered_size() == 0,
            r.work_done() == 0,
            r.live_cells() == 0,
            r.cell_size() == (if vstd::layout::size_of::<GcBox<T>>() == 0 {
                1
            } else {
                vstd::layout::size_of::<GcBox<T>>() as usize
            }),
            forall|a: usize| !r.live(a),
    {
        let traced = T::needs_trace();
        let size = core::mem::size_of::<GcBox<T>>();
        Arena {
            slots: Vec::new(),
            free: Vec::new(),
            roots: Vec::new(),
            grays: Vec::new(),
            grays_again: Vec::new(),
            sweep: 0,
            sweep_end: 0,
            total_allocated: 0,
            remembered_size: 0,
            wakeup_total: MIN_SLEEP,
            allocation_debt: 0,
            phase: Phase::Sleep,
            next_id: 0,
            cell_size: if size == 0 { 1 } else { size },
            traced,
            work_done: Ghost(0),
        }
    }

    /// Whether the cell a weak reference observed has been freed, or is being freed by the
    /// sweep in progress.
    pub open spec fn weak_removed(&self, w: (usize, u64)) -> bool {
        !(self.usable(w.0) && self.id(w.0) == w.1)
    }

    /// A state that differs from a well-formed one only in the slot at `a`, which keeps its
    /// liveness and identity, keeps every other cell and every address.
    proof fn lemma_frame(pre: Self, post: Self, a: usize)
        requires
            forall|x: usize, y: usize|
                #![trigger pre.id(x), pre.id(y)]
                pre.live(x) && pre.live(y) && pre.id(x) == pre.id(y) ==> x == y,
            post.slots@.len() == pre.slots@.len(),
            forall|x: int| 0 <= x < pre.slots@.len() && x != a ==> post.slots@[x] == pre.slots@[x],
            post.live(a) == pre.live(a),
            post.live(a) ==> post.id(a) == pre.id(a),
            forall|x: usize| #[trigger] pre.live(x) ==> pre.id(x) < pre.next_id,
            post.next_id == pre.next_id,
        ensures
            forall|x: usize, y: usize|
                #![trigger post.id(x), post.id(y)]
                post.live(x) && post.live(y) && post.id(x) == post.id(y) ==> x == y,
            forall|x: usize| #[trigger] post.live(x) ==> post.id(x) < post.next_id,
            forall|x: usize| #[trigger] post.live(x) == pre.live(x),
            forall|x: usize| x != a && pre.live(x) ==> #[trigger] post.slots@[x as int] == pre.slots@[x as int],
            forall|x: usize| pre.live(x) ==> #[trigger] post.id(x) == pre.id(x),
            forall|x: usize| x != a && pre.live(x) ==> #[trigger] post.value(x) == pre.value(x),
            forall|x: usize| x != a && pre.live(x) ==> #[trigger] post.status(x) == pre.status(x),
            pre.addresses_kept(post),
            live_count(post.slots@) == live_count(pre.slots@),
            forall|k: int| 0 <= k <= pre.slots@.len() ==> #[trigger] live_count(post.slots@.take(k)) == live_count(pre.slots@.take(k)),
    {
        assert forall|x: usize| #[trigger] post.live(x) implies post.id(x) < post.next_id by {
            assert(pre.live(x));
            if x != a {
                assert(post.slots@[x as int] == pre.slots@[x as int]);
            }
        }
        assert forall|x: usize, y: usize|
            #![trigger post.id(x), post.id(y)]
            post.live(x) && post.live(y) && post.id(x) == post.id(y) implies x == y by {
            assert(pre.live(x) && pre.live(y));
            if x != a {
                assert(post.slots@[x as int] == pre.slots@[x as int]);
            }
            if y != a {
                assert(post.slots@[y as int] == pre.slots@[y as int]);
            }
        }
        assert forall|k: int| 0 <= k <= pre.slots@.len() implies #[trigger] live_count(post.slots@.take(k)) == live_count(pre.slots@.take(k)) by {
            assert forall|i: int| 0 <= i < k implies post.slots@.take(k)[i].is_some() == pre.slots@.take(k)[i].is_some() by {
                if i != a {
                    assert(post.slots@[i] == pre.slots@[i]);
                }
            }
            lemma_count_congruent(post.slots@.take(k), pre.slots@.take(k));
        }
        assert(post.slots@.take(pre.slots@.len() as int) =~= post.slots@);
        assert(pre.slots@.take(pre.slots@.len() as int) =~= pre.slots@);
        assert forall|x: usize| #[trigger] post.live(x) == pre.live(x) by {
            if x != a && x < pre.slots@.len() {
                assert(post.slots@[x as int] == pre.slots@[x as int]);
            }
        }
        assert forall|x: usize| pre.live(x) implies #[trigger] post.id(x) == pre.id(x) by {
            if x != a {
                assert(post.slots@[x as int] == pre.slots@[x as int]);
            }
        }
        assert forall|x: usize, y: usize|
            #![trigger pre.id(x), post.id(y)]
            pre.live(x) && post.live(y) && pre.id(x) == post.id(y) implies x == y by {
            assert(post.id(y) == pre.id(y));
            assert(pre.live(y));
        }
    }

    /// Changing only the payload of one cell keeps the invariant where no payload can hold a
    /// managed pointer.
    proof fn lemma_payload_only(pre: Self, post: Self, a: usize)
        requires
            pre.wf(),
            !pre.traced,
            pre.live(a),
            post.slots@.len() == pre.slots@.len(),
            forall|x: int| 0 <= x < pre.slots@.len() && x != a ==> post.slots@[x] == pre.slots@[x],
            post.live(a),
            post.id(a) == pre.id(a),
            post.status(a) == pre.status(a),
            post.free == pre.free,
            post.roots == pre.roots,
            post.grays == pre.grays,
            post.grays_again == pre.grays_again,
            post.sweep == pre.sweep,
            post.sweep_end == pre.sweep_end,
            post.total_allocated == pre.total_allocated,
            post.remembered_size == pre.remembered_size,
            post.wakeup_total == pre.wakeup_total,
            post.allocation_debt == pre.allocation_debt,
            post.phase == pre.phase,
            post.next_id == pre.next_id,
            post.cell_size == pre.cell_size,
            post.traced == pre.traced,
        ensures
            post.wf(),
            pre.addresses_kept(post),
    {
        Self::lemma_frame(pre, post, a);
        assert forall|x: usize| #[trigger] post.usable(x) == pre.usable(x) by {}
        assert(forall|x: usize, y: usize|
            #![trigger post.id(x), post.id(y)]
            post.live(x) && post.live(y) && post.id(x) == post.id(y) ==> x == y);
        assert(forall|x: usize| #[trigger] post.live(x) ==> post.id(x) < post.next_id);
        assert forall|x: usize, i: int|
            #![trigger post.value(x).refs()[i]]
            post.usable(x) && 0 <= i < post.value(x).refs().len() implies post.usable(post.value(x).refs()[i]) by {
            assert(post.value(x).refs().len() == 0);
        }
        assert forall|x: usize| #[trigger] post.live(x) implies post.status(x) == pre.status(x) by {}
    }

    /// Every cell of this state that is not white is reachable in `h`.
    pub open spec fn dark_within(&self, h: Self) -> bool {
        forall|a: usize| #[trigger] self.live(a) && !self.status(a).is_white() ==> h.reachable(a)
    }

    /// What one step of collection does, from `pre` to `post`.
    closed spec fn step_rel(pre: Self, post: Self) -> bool {
        &&& post.wf()
        &&& post.work_done == pre.work_done
        &&& post.roots == pre.roots
        &&& post.next_id == pre.next_id
        &&& post.cell_size == pre.cell_size
        &&& forall|a: usize| #[trigger] post.live(a) ==> pre.live(a)
        &&& pre.cells_kept(post)
        &&& pre.addresses_kept(post)
        &&& forall|a: usize| #[trigger] pre.live(a) && !post.live(a) ==> pre.doomed(a)
        &&& (post.phase == pre.phase || post.phase == pre.phase.next())
        &&& (post.phase.remaining() < pre.phase.remaining()
            || (post.phase == pre.phase && post.work_left() < pre.work_left()))
        &&& ((pre.phase == Phase::Wake || pre.phase == Phase::Mark) ==> forall|a: usize| #[trigger] post.live(a) == pre.live(a))
        &&& ((pre.phase == Phase::Wake || pre.phase == Phase::Mark) && pre.dark_within(pre) ==> post.dark_within(pre))
        &&& (pre.phase == Phase::Mark && post.phase == Phase::Sweep ==> forall|a: usize|
            #[trigger] post.doomed(a) == (pre.live(a) && pre.status(a).is_white()))
        &&& (pre.phase == Phase::Sweep ==> forall|a: usize|
            #[trigger] post.live(a) && !post.doomed(a) ==> !pre.doomed(a))
        &&& (pre.phase == Phase::Sweep ==> {
            &&& post.sweep_end == pre.sweep_end
            &&& post.sweep >= pre.sweep
            &&& forall|a: usize| a >= post.sweep ==> #[trigger] post.live(a) == pre.live(a)
                && (post.live(a) ==> post.status(a) == pre.status(a))
            &&& forall|a: usize| #[trigger] pre.doomed(a) && a < post.sweep ==> !post.live(a)
            &&& post.phase == Phase::Sleep ==> post.sweep == post.sweep_end
                && post.remembered_size == post.cell_size * live_count(post.slots@.take(post.sweep_end as int))
        })
    }

    /// A reachable cell is usable: the sweep in progress never frees it.
    pub proof fn lemma_reachable_usable(&self, a: usize)
        requires
            self.wf(),
            self.reachable(a),
        ensures
            self.usable(a),
    {
        let g = self.graph();
        let s = |x: usize| self.usable(x);
        assert forall|r: usize| self.roots().contains(r) implies #[trigger] s(r) by {
            let k = choose|k: int| 0 <= k < self.roots@.len() && self.roots@[k] == r;
            assert(self.usable(self.roots@[k]));
        }
        assert forall|x: usize, y: usize| #[trigger] s(x) && #[trigger] graph::edge(g, x, y) implies s(y) by {
            let refs = self.value(x).refs();
            let i = choose|i: int| 0 <= i < refs.len() && refs[i] == y;
            assert(self.usable(self.value(x).refs()[i]));
        }
        graph::lemma_reachable_closed(g, self.roots(), s, a);
    }

    /// Shades the cell at `b` gray if it is white, including a cell so far reached only weakly:
    /// the marker's operation on a strong reference.
    fn shade(&mut self, b: usize, Ghost(skip): Ghost<Option<usize>>)
        requires
            old(self).inv(skip),
            old(self).phase == Phase::Mark,
            old(self).live(b),
        ensures
            final(self).inv(skip),
            !final(self).status(b).is_white(),
            final(self).status(b) == (if old(self).status(b).is_white() { Status::Marked } else { old(self).status(b) }),
            forall|a: usize| a != b && old(self).live(a) ==> #[trigger] final(self).status(a) == old(self).status(a),
            forall|a: usize| #[trigger] final(self).live(a) == old(self).live(a),
            forall|a: usize| old(self).live(a) ==> #[trigger] final(self).value(a) == old(self).value(a),
            forall|a: usize| old(self).live(a) ==> #[trigger] final(self).id(a) == old(self).id(a),
            final(self).slots@.len() == old(self).slots@.len(),
            final(self).roots == old(self).roots,
            final(self).phase == old(self).phase,
            final(self).next_id == old(self).next_id,
            final(self).cell_size == old(self).cell_size,
            final(self).traced == old(self).traced,
            final(self).grays_again == old(self).grays_again,
            final(self).grays@ == (if old(self).status(b).is_white() && old(self).traced {
                old(self).grays@.push(b)
            } else {
                old(self).grays@
            }),
            final(self).work_left() <= old(self).work_left(),
            final(self).total_allocated == old(self).total_allocated,
            final(self).wakeup_total == old(self).wakeup_total,
            final(self).allocation_debt == old(self).allocation_debt,
            final(self).work_done == old(self).work_done,
    {
        let ghost pre = *self;
        let white = match &self.slots[b] {
            Some(c) => c.status == Status::Untraced || c.status == Status::MarkedWeak,
            None => false,
        };
        if white {
            set_status(&mut self.slots, b, Status::Marked);
            proof {
                lemma_weight_update(pre.slots@, b as int, self.slots@[b as int]);
            }
            if self.traced {
                self.grays.push(b);
            }
            proof {
                Self::lemma_frame(pre, *self, b);
                assert(self.value(b) == pre.value(b));
                assert forall|x: usize| #[trigger] self.usable(x) == pre.usable(x) by {}
                assert(forall|x: usize, i: int|
                    #![trigger self.value(x).refs()[i]]
                    self.usable(x) && 0 <= i < self.value(x).refs().len() ==> self.usable(self.value(x).refs()[i]));
                assert forall|x: usize, i: int|
                    #![trigger self.value(x).refs()[i]]
                    self.live(x) && self.status(x) == Status::Traced && 0 <= i < self.value(x).refs().len()
                        implies !self.status(self.value(x).refs()[i]).is_white() by {
                    assert(pre.usable(x));
                    assert(pre.usable(pre.value(x).refs()[i]));
                    assert(!pre.status(pre.value(x).refs()[i]).is_white());
                }
                assert forall|x: usize| #[trigger] self.live(x) && self.status(x) == Status::Marked && skip != Some(x)
                    implies self.pending(x) || !self.traced by {
                    if x != b {
                        assert(pre.pending(x) || !pre.traced);
                        if pre.grays@.contains(x) {
                            let k = choose|k: int| 0 <= k < pre.grays@.len() && pre.grays@[k] == x;
                            assert(self.grays@[k] == x);
                        }
                    } else if self.traced {
                        assert(self.grays@[self.grays@.len() - 1] == b);
                    }
                }
                assert forall|i: int| 0 <= i < self.grays@.len() implies self.gray_entry(#[trigger] self.grays@[i]) by {
                    if i < pre.grays@.len() {
                        assert(pre.gray_entry(pre.grays@[i]));
                    }
                }
                assert forall|i: int| 0 <= i < self.grays_again@.len() implies self.gray_entry(#[trigger] self.grays_again@[i]) by {
                    assert(pre.gray_entry(pre.grays_again@[i]));
                }
                assert forall|i: int| 0 <= i < self.roots@.len() implies !self.status(#[trigger] self.roots@[i]).is_white() by {
                    assert(!pre.status(pre.roots@[i]).is_white());
                }
                assert forall|i: int| 0 <= i < self.roots@.len() implies self.usable(#[trigger] self.roots@[i]) by {
                    assert(pre.usable(pre.roots@[i]));
                }
            }
        }
    }

    /// Marks a white cell as reached only through weak references, if `w` still observes it.
    fn shade_weak(&mut self, w: (usize, u64), Ghost(skip): Ghost<Option<usize>>)
        requires
            old(self).inv(skip),
            old(self).phase == Phase::Mark,
        ensures
            final(self).inv(skip),
            forall|a: usize| #[trigger] final(self).live(a) == old(self).live(a),
            forall|a: usize| old(self).live(a) ==> #[trigger] final(self).value(a) == old(self).value(a),
            forall|a: usize| old(self).live(a) ==> #[trigger] final(self).id(a) == old(self).id(a),
            forall|a: usize| old(self).live(a) ==> (#[trigger] final(self).status(a)).is_white() == old(self).status(a).is_white(),
            forall|a: usize| old(self).live(a) && !old(self).status(a).is_white() ==> #[trigger] final(self).status(a) == old(self).status(a),
            final(self).slots@.len() == old(self).slots@.len(),
            final(self).roots == old(self).roots,
            final(self).phase == old(self).phase,
            final(self).next_id == old(self).next_id,
            final(self).cell_size == old(self).cell_size,
            final(self).traced == old(self).traced,
            final(self).grays == old(self).grays,
            final(self).grays_again == old(self).grays_again,
            final(self).work_left() <= old(self).work_left(),
            final(self).total_allocated == old(self).total_allocated,
            final(self).wakeup_total == old(self).wakeup_total,
            final(self).allocation_debt == old(self).allocation_debt,
            final(self).work_done == old(self).work_done,
    {
        let ghost pre = *self;
        let (a, id) = w;
        if a < self.slots.len() {
            let hit = match &self.slots[a] {
                Some(c) => c.id == id && c.status == Status::Untraced,
                None => false,
            };
            if hit {
                set_status(&mut self.slots, a, Status::MarkedWeak);
                proof {
                    lemma_weight_update(pre.slots@, a as int, self.slots@[a as int]);
                    Self::lemma_frame(pre, *self, a);
                    assert(self.value(a) == pre.value(a));
                    assert forall|x: usize| #[trigger] self.usable(x) == pre.usable(x) by {}
                    assert(forall|x: usize, i: int|
                        #![trigger self.value(x).refs()[i]]
                        self.usable(x) && 0 <= i < self.value(x).refs().len() ==> self.usable(self.value(x).refs()[i]));
                    assert forall|x: usize, i: int|
                        #![trigger self.value(x).refs()[i]]
                        self.live(x) && self.status(x) == Status::Traced && 0 <= i < self.value(x).refs().len()
                            implies !self.status(self.value(x).refs()[i]).is_white() by {
                        assert(pre.usable(x));
                        assert(pre.usable(pre.value(x).refs()[i]));
                        assert(!pre.status(pre.value(x).refs()[i]).is_white());
                    }
                    assert forall|i: int| 0 <= i < self.grays@.len() implies self.gray_entry(#[trigger] self.grays@[i]) by {
                        assert(pre.gray_entry(pre.grays@[i]));
                    }
                    assert forall|i: int| 0 <= i < self.grays_again@.len() implies self.gray_entry(#[trigger] self.grays_again@[i]) by {
                        assert(pre.gray_entry(pre.grays_again@[i]));
                    }
                    assert forall|i: int| 0 <= i < self.roots@.len() implies !self.status(#[trigger] self.roots@[i]).is_white() by {
                        assert(!pre.status(pre.roots@[i]).is_white());
                    }
                    assert forall|i: int| 0 <= i < self.roots@.len() implies self.usable(#[trigger] self.roots@[i]) by {
                        assert(pre.usable(pre.roots@[i]));
                    }
                }
            }
        }
    }

    /// The `Wake` step: shades every root gray and pushes it on the gray stack, then marks.
    fn wake_step(&mut self) -> (work: usize)
        requires
            old(self).wf(),
            old(self).phase == Phase::Wake,
        ensures
            Self::step_rel(*old(self), *final(self)),
            work >= 1,
            work == old(self).step_cost(),
    {
        let ghost pre = *self;
        let n = self.roots.len();
        let mut i: usize = 0;
        while i < n
            invariant
                n == self.roots@.len(),
                i <= n,
                self.roots == pre.roots,
                self.phase == Phase::Wake,
                self.grays_again == pre.grays_again,
                self.slots@.len() == pre.slots@.len(),
                self.next_id == pre.next_id,
                self.cell_size == pre.cell_size,
                self.traced == pre.traced,
                self.sweep == pre.sweep,
                self.sweep_end == pre.sweep_end,
                self.total_allocated == pre.total_allocated,
                self.wakeup_total == pre.wakeup_total,
                self.allocation_debt == pre.allocation_debt,
                self.remembered_size == pre.remembered_size,
                self.work_done == pre.work_done,
                live_count(self.slots@) == live_count(pre.slots@),
                pre.wf(),
                forall|a: usize| #[trigger] self.live(a) == pre.live(a),
                forall|a: usize| pre.live(a) ==> #[trigger] self.value(a) == pre.value(a),
                forall|a: usize| pre.live(a) ==> #[trigger] self.id(a) == pre.id(a),
                forall|x: usize, y: usize|
                    #![trigger self.id(x), self.id(y)]
                    self.live(x) && self.live(y) && self.id(x) == self.id(y) ==> x == y,
                forall|a: usize| #[trigger] self.live(a) ==> self.status(a) == Status::Untraced || self.status(a) == Status::Marked,
                forall|a: usize| #[trigger] self.live(a) && self.status(a) == Status::Marked ==> self.grays@.contains(a),
                forall|a: usize| #[trigger] self.live(a) && self.status(a) == Status::Marked ==> self.roots@.contains(a),
                forall|k: int| 0 <= k < self.grays@.len() ==> self.gray_entry(#[trigger] self.grays@[k]),
                forall|k: int| 0 <= k < i ==> self.status(#[trigger] self.roots@[k]) == Status::Marked,
            decreases n - i,
        {
            let r = self.roots[i];
            proof {
                assert(pre.usable(pre.roots@[i as int]));
                assert(self.live(r));
            }
            let ghost mid = *self;
            set_status(&mut self.slots, r, Status::Marked);
            self.grays.push(r);
            proof {
                Self::lemma_frame(mid, *self, r);
                assert(self.grays@[self.grays@.len() - 1] == r);
                assert forall|a: usize| #[trigger] self.live(a) && self.status(a) == Status::Marked implies self.grays@.contains(a) by {
                    if a != r {
                        let k = choose|k: int| 0 <= k < mid.grays@.len() && mid.grays@[k] == a;
                        assert(self.grays@[k] == a);
                    }
                }
                assert forall|a: usize| #[trigger] self.live(a) && self.status(a) == Status::Marked implies self.roots@.contains(a) by {
                    if a == r {
                        assert(self.roots@[i as int] == r);
                    }
                }
                assert forall|k: int| 0 <= k < self.grays@.len() implies self.gray_entry(#[trigger] self.grays@[k]) by {
                    if k < mid.grays@.len() {
                        assert(mid.gray_entry(mid.grays@[k]));
                    }
                }
                assert forall|k: int| 0 <= k < i + 1 implies self.status(#[trigger] self.roots@[k]) == Status::Marked by {
                    if k < i {
                        assert(mid.status(mid.roots@[k]) == Status::Marked);
                    }
                }
            }
            i = i + 1;
        }
        let ghost lp = *self;
        self.phase = Phase::Mark;
        proof {
            Self::lemma_slots_equal(lp, *self);
            assert forall|x: usize| #[trigger] self.live(x) implies self.id(x) < self.next_id by {
                assert(lp.live(x));
                assert(pre.live(x));
            }
            assert forall|x: usize| #[trigger] self.usable(x) == pre.usable(x) by {
                assert(lp.live(x) == pre.live(x));
            }
            assert(forall|x: usize, j: int|
                #![trigger self.value(x).refs()[j]]
                self.usable(x) && 0 <= j < self.value(x).refs().len() ==> self.usable(self.value(x).refs()[j]));
            assert forall|j: int| 0 <= j < self.roots@.len() implies self.usable(#[trigger] self.roots@[j]) by {
                assert(pre.usable(pre.roots@[j]));
            }
            assert forall|x: usize| #[trigger] self.live(x) && self.status(x) == Status::Marked implies self.pending(x) by {}
            assert(self.graph() =~= pre.graph());
            assert forall|a: usize| #[trigger] self.live(a) && !self.status(a).is_white() implies pre.reachable(a) by {
                assert(self.roots@.contains(a));
                graph::lemma_root_reachable(pre.graph(), pre.roots(), a);
            }
            assert forall|a: usize| #[trigger] self.live(a) implies self.id(a) == pre.id(a) && self.value(a) == pre.value(a) by {
                assert(lp.live(a) && pre.live(a));
                assert(lp.id(a) == pre.id(a) && lp.value(a) == pre.value(a));
            }
            assert forall|a: usize, b: usize|
                #![trigger pre.id(a), self.id(b)]
                pre.live(a) && self.live(b) && pre.id(a) == self.id(b) implies a == b by {
                assert(self.id(b) == pre.id(b));
            }
        }
        if n < usize::MAX { n + 1 } else { n }
    }

    /// A `Mark` step: traces one gray cell and blackens it, or, with both gray stacks empty,
    /// starts the sweep.
    fn mark_step(&mut self) -> (work: usize)
        requires
            old(self).wf(),
            old(self).phase == Phase::Mark,
        ensures
            Self::step_rel(*old(self), *final(self)),
            work >= 1,
            work == old(self).step_cost(),
    {
        let ghost pre = *self;
        let popped = match self.grays.pop() {
            Some(x) => Some(x),
            None => self.grays_again.pop(),
        };
        match popped {
            None => {
                self.phase = Phase::Sweep;
                self.sweep = 0;
                self.sweep_end = self.slots.len();
                self.remembered_size = 0;
                proof {
                    assert(self.slots@.take(0) =~= Seq::<Option<GcBox<T>>>::empty());
                    assert(live_count(self.slots@.take(0)) == 0);
                    assert(self.cell_size * 0 == 0);
                    assert forall|a: usize| #[trigger] self.doomed(a) == (pre.live(a) && pre.status(a).is_white()) by {}
                    assert forall|x: usize, j: int|
                        #![trigger self.value(x).refs()[j]]
                        self.usable(x) && 0 <= j < self.value(x).refs().len() implies self.usable(self.value(x).refs()[j]) by {
                        assert(pre.usable(x));
                        assert(pre.usable(pre.value(x).refs()[j]));
                        if pre.status(x) == Status::Marked {
                            assert(!pre.pending(x));
                            assert(pre.value(x).refs().len() == 0);
                        }
                    }
                    assert forall|j: int| 0 <= j < self.roots@.len() implies self.usable(#[trigger] self.roots@[j]) by {
                        assert(pre.usable(pre.roots@[j]));
                        assert(!pre.status(pre.roots@[j]).is_white());
                    }
                    assert(pre.cells_kept(*self));
                    assert(pre.addresses_kept(*self));
                }
                1
            },
            Some(x) => {
                proof {
                    if pre.grays@.len() > 0 {
                        assert(pre.gray_entry(pre.grays@[pre.grays@.len() - 1]));
                    } else {
                        assert(pre.gray_entry(pre.grays_again@[pre.grays_again@.len() - 1]));
                    }
                    Self::lemma_same_slots(pre, *self);
                    assert forall|a: usize| #[trigger] self.live(a) && self.status(a) == Status::Marked && Some(x) != Some(a)
                        implies self.pending(a) || !self.traced by {
                        assert(pre.live(a));
                        if pre.grays@.contains(a) {
                            let k = choose|k: int| 0 <= k < pre.grays@.len() && pre.grays@[k] == a;
                            if pre.grays@.len() > 0 && k < pre.grays@.len() - 1 {
                                assert(self.grays@[k] == a);
                            }
                        }
                        if pre.grays_again@.contains(a) {
                            let k = choose|k: int| 0 <= k < pre.grays_again@.len() && pre.grays_again@[k] == a;
                            if pre.grays@.len() > 0 {
                                assert(self.grays_again@[k] == a);
                            } else if k < pre.grays_again@.len() - 1 {
                                assert(self.grays_again@[k] == a);
                            }
                        }
                    }
                    assert forall|k: int| 0 <= k < self.grays@.len() implies self.gray_entry(#[trigger] self.grays@[k]) by {
                        assert(pre.gray_entry(pre.grays@[k]));
                    }
                    assert forall|k: int| 0 <= k < self.grays_again@.len() implies self.gray_entry(#[trigger] self.grays_again@[k]) by {
                        assert(pre.gray_entry(pre.grays_again@[k]));
                    }
                    Self::lemma_same_slots(pre, *self);
                    assert(self.inv(Some(x)));
                    assert(self.work_left() + 1 == pre.work_left());
                    if pre.dark_within(pre) {
                        assert forall|a: usize| #[trigger] self.live(a) && !self.status(a).is_white() implies pre.reachable(a) by {
                            assert(pre.live(a));
                        }
                    }
                }
                self.blacken(x, Ghost(pre))
            },
        }
    }

    /// Traces the gray cell `x`, taken off its stack, shading what it references, and blackens
    /// it.
    fn blacken(&mut self, x: usize, Ghost(pre): Ghost<Self>) -> (work: usize)
        requires
            pre.wf(),
            pre.phase == Phase::Mark,
            pre.live(x),
            !pre.status(x).is_white(),
            old(self).inv(Some(x)),
            old(self).phase == Phase::Mark,
            old(self).slots@ == pre.slots@,
            old(self).roots == pre.roots,
            old(self).next_id == pre.next_id,
            old(self).cell_size == pre.cell_size,
            old(self).traced == pre.traced,
            old(self).total_allocated == pre.total_allocated,
            old(self).wakeup_total == pre.wakeup_total,
            old(self).allocation_debt == pre.allocation_debt,
            old(self).work_done == pre.work_done,
            old(self).work_left() + 1 <= pre.work_left(),
            pre.dark_within(pre) ==> old(self).dark_within(pre),
        ensures
            Self::step_rel(pre, *final(self)),
            work >= 1,
            work == pre.cell_size,
    {
        proof {
            Self::lemma_slots_equal(pre, *self);
        }
        let mut marker = Marker::new();
        match &self.slots[x] {
            Some(c) => c.value.trace(&mut marker),
            None => {},
        }
        let (strong, weak) = marker.into_parts();
        proof {
            assert(strong@ =~= pre.value(x).refs());
            assert(weak@ =~= pre.value(x).weak_refs());
        }
        let n = strong.len();
        let mut i: usize = 0;
        while i < n
            invariant
                n == strong@.len(),
                i <= n,
                strong@ == pre.value(x).refs(),
                pre.wf(),
                pre.phase == Phase::Mark,
                pre.live(x),
                !pre.status(x).is_white(),
                self.inv(Some(x)),
                self.phase == Phase::Mark,
                self.roots == pre.roots,
                self.next_id == pre.next_id,
                self.cell_size == pre.cell_size,
                self.traced == pre.traced,
                self.total_allocated == pre.total_allocated,
                self.wakeup_total == pre.wakeup_total,
                self.allocation_debt == pre.allocation_debt,
                self.work_done == pre.work_done,
                self.slots@.len() == pre.slots@.len(),
                forall|a: usize| #[trigger] self.live(a) == pre.live(a),
                forall|a: usize| pre.live(a) ==> #[trigger] self.value(a) == pre.value(a),
                forall|a: usize| pre.live(a) ==> #[trigger] self.id(a) == pre.id(a),
                forall|a: usize| pre.live(a) && !pre.status(a).is_white() ==> !(#[trigger] self.status(a)).is_white(),
                forall|k: int| 0 <= k < i ==> !self.status(#[trigger] strong@[k]).is_white(),
                self.work_left() + 1 <= pre.work_left(),
                pre.dark_within(pre) ==> self.dark_within(pre),
            decreases n - i,
        {
            let b = strong[i];
            proof {
                assert(pre.usable(x));
                assert(pre.usable(pre.value(x).refs()[i as int]));
            }
            let ghost mid = *self;
            self.shade(b, Ghost(Some(x)));
            proof {
                assert forall|k: int| 0 <= k < i + 1 implies !self.status(#[trigger] strong@[k]).is_white() by {
                    if strong@[k] != b {
                        assert(!mid.status(strong@[k]).is_white());
                    }
                }
                if pre.dark_within(pre) {
                    assert(pre.reachable(x));
                    assert forall|a: usize| #[trigger] self.live(a) && !self.status(a).is_white() implies pre.reachable(a) by {
                        if a == b && mid.status(b).is_white() {
                            assert(graph::edge(pre.graph(), x, b));
                            graph::lemma_reachable_step(pre.graph(), pre.roots(), x, b);
                        } else {
                            assert(mid.live(a) && !mid.status(a).is_white());
                        }
                    }
                }
            }
            i = i + 1;
        }
        let m = weak.len();
        let mut j: usize = 0;
        while j < m
            invariant
                m == weak@.len(),
                j <= m,
                n == strong@.len(),
                strong@ == pre.value(x).refs(),
                pre.wf(),
                pre.phase == Phase::Mark,
                pre.live(x),
                !pre.status(x).is_white(),
                self.inv(Some(x)),
                self.phase == Phase::Mark,
                self.roots == pre.roots,
                self.next_id == pre.next_id,
                self.cell_size == pre.cell_size,
                self.traced == pre.traced,
                self.total_allocated == pre.total_allocated,
                self.wakeup_total == pre.wakeup_total,
                self.allocation_debt == pre.allocation_debt,
                self.work_done == pre.work_done,
                self.slots@.len() == pre.slots@.len(),
                forall|a: usize| #[trigger] self.live(a) == pre.live(a),
                forall|a: usize| pre.live(a) ==> #[trigger] self.value(a) == pre.value(a),
                forall|a: usize| pre.live(a) ==> #[trigger] self.id(a) == pre.id(a),
                forall|a: usize| pre.live(a) && !pre.status(a).is_white() ==> !(#[trigger] self.status(a)).is_white(),
                forall|k: int| 0 <= k < n ==> !self.status(#[trigger] strong@[k]).is_white(),
                self.work_left() + 1 <= pre.work_left(),
                pre.dark_within(pre) ==> self.dark_within(pre),
            decreases m - j,
        {
            let ghost mid = *self;
            self.shade_weak(weak[j], Ghost(Some(x)));
            proof {
                assert forall|k: int| 0 <= k < n implies !self.status(#[trigger] strong@[k]).is_white() by {
                    assert(pre.usable(x));
                    assert(pre.usable(pre.value(x).refs()[k]));
                    assert(!mid.status(strong@[k]).is_white());
                }
                if pre.dark_within(pre) {
                    assert forall|a: usize| #[trigger] self.live(a) && !self.status(a).is_white() implies pre.reachable(a) by {
                        assert(mid.live(a) && !mid.status(a).is_white());
                    }
                }
            }
            j = j + 1;
        }
        let ghost mid = *self;
        proof {
            assert(self.live(x));
        }
        set_status(&mut self.slots, x, Status::Traced);
        proof {
            lemma_weight_update(mid.slots@, x as int, self.slots@[x as int]);
            Self::lemma_frame(mid, *self, x);
            assert(self.value(x) == mid.value(x));
            assert forall|a: usize| #[trigger] self.usable(a) == mid.usable(a) by {}
            assert(forall|a: usize, k: int|
                #![trigger self.value(a).refs()[k]]
                self.usable(a) && 0 <= k < self.value(a).refs().len() ==> self.usable(self.value(a).refs()[k]));
            assert forall|a: usize, k: int|
                #![trigger self.value(a).refs()[k]]
                self.live(a) && self.status(a) == Status::Traced && 0 <= k < self.value(a).refs().len()
                    implies !self.status(self.value(a).refs()[k]).is_white() by {
                if a == x {
                    assert(strong@[k] == self.value(a).refs()[k]);
                    assert(!mid.status(strong@[k]).is_white());
                } else {
                    assert(mid.usable(a));
                    assert(mid.usable(mid.value(a).refs()[k]));
                    assert(!mid.status(mid.value(a).refs()[k]).is_white());
                }
            }
            assert forall|k: int| 0 <= k < self.grays@.len() implies self.gray_entry(#[trigger] self.grays@[k]) by {
                assert(mid.gray_entry(mid.grays@[k]));
            }
            assert forall|k: int| 0 <= k < self.grays_again@.len() implies self.gray_entry(#[trigger] self.grays_again@[k]) by {
                assert(mid.gray_entry(mid.grays_again@[k]));
            }
            assert forall|k: int| 0 <= k < self.roots@.len() implies !self.status(#[trigger] self.roots@[k]).is_white() by {
                assert(!mid.status(mid.roots@[k]).is_white());
            }
            assert forall|k: int| 0 <= k < self.roots@.len() implies self.usable(#[trigger] self.roots@[k]) by {
                assert(mid.usable(mid.roots@[k]));
            }
            assert forall|a: usize| #[trigger] self.live(a) && self.status(a) == Status::Marked implies self.pending(a) || !self.traced by {
                assert(mid.live(a) && mid.status(a) == Status::Marked && Some(x) != Some(a));
            }
            if pre.dark_within(pre) {
                assert forall|a: usize| #[trigger] self.live(a) && !self.status(a).is_white() implies pre.reachable(a) by {
                    assert(mid.live(a) && !mid.status(a).is_white());
                }
            }
            assert(pre.cells_kept(*self));
            assert(pre.addresses_kept(*self));
        }
        self.cell_size
    }

    /// A `Sweep` step: visits the cell at the cursor, freeing it if it is white and turning it
    /// white for the next cycle otherwise; past the last cell, computes the next wake-up
    /// threshold and sleeps.
    fn sweep_step(&mut self) -> (work: usize)
        requires
            old(self).wf(),
            old(self).phase == Phase::Sweep,
        ensures
            Self::step_rel(*old(self), *final(self)),
            work >= 1,
            work == old(self).step_cost(),
            final(self).phase == Phase::Sleep ==> final(self).allocation_debt == 0
                && final(self).wakeup_total == sat_add(final(self).total_allocated as int, pause_of(final(self).remembered_size as int)),
    {
        let ghost pre = *self;
        if self.sweep < self.sweep_end {
            let a = self.sweep;
            let (present, white) = match &self.slots[a] {
                Some(c) => (true, c.status == Status::Untraced || c.status == Status::MarkedWeak),
                None => (false, false),
            };
            proof {
                lemma_count_take_step(pre.slots@, a as int);
                lemma_count_take_le(pre.slots@, a as int + 1);
                let c = live_count(pre.slots@);
                let k = live_count(pre.slots@.take(a as int));
                if present {
                    assert(k + 1 <= c);
                    assert(pre.cell_size * (k + 1) <= pre.cell_size * c) by (nonlinear_arith)
                        requires k + 1 <= c, pre.cell_size >= 1;
                    assert(pre.cell_size <= pre.cell_size * c) by (nonlinear_arith)
                        requires 1 <= c, pre.cell_size >= 1;
                    assert(pre.cell_size * (k + 1) == pre.cell_size * k + pre.cell_size) by (nonlinear_arith);
                    assert(pre.cell_size * c == pre.cell_size * (c - 1) + pre.cell_size) by (nonlinear_arith);
                }
            }
            if present && white {
                self.slots.set(a, None);
                self.free.push(a);
                self.total_allocated = self.total_allocated - self.cell_size;
            } else if present {
                set_status(&mut self.slots, a, Status::Untraced);
                self.remembered_size = self.remembered_size + self.cell_size;
            }
            self.sweep = a + 1;
            proof {
                if present {
                    lemma_count_update(pre.slots@, a as int, self.slots@[a as int]);
                }
                assert(self.slots@.take(a as int) =~= pre.slots@.take(a as int));
                lemma_count_take_step(self.slots@, a as int);
                assert forall|x: usize| x != a implies #[trigger] self.live(x) == pre.live(x) && (pre.live(x) ==> self.slots@[x as int] == pre.slots@[x as int]) by {
                    if x < pre.slots@.len() {
                        assert(self.slots@[x as int] == pre.slots@[x as int]);
                    }
                }
                assert(present && white ==> pre.doomed(a) && !self.live(a));
                assert(present && !white ==> self.live(a) && !pre.doomed(a) && self.status(a) == Status::Untraced
                    && self.value(a) == pre.value(a) && self.id(a) == pre.id(a));
                assert(!present ==> !self.live(a) && !pre.live(a));
                assert forall|x: usize| #[trigger] self.live(x) implies pre.live(x) && self.value(x) == pre.value(x) && self.id(x) == pre.id(x)
                    && (x == a ==> !pre.doomed(x) && !self.doomed(x)) && (x != a ==> self.doomed(x) == pre.doomed(x)) by {
                    if x != a {
                        assert(self.slots@[x as int] == pre.slots@[x as int]);
                    }
                }
                assert forall|x: usize| #[trigger] self.usable(x) implies pre.usable(x) by {}
                assert forall|x: usize| pre.usable(x) implies #[trigger] self.usable(x) by {
                    if x != a {
                        assert(self.slots@[x as int] == pre.slots@[x as int]);
                    }
                }
                assert forall|i: int| 0 <= i < self.roots@.len() implies self.usable(#[trigger] self.roots@[i]) by {
                    assert(pre.usable(pre.roots@[i]));
                }
                assert forall|x: usize, i: int|
                    #![trigger self.value(x).refs()[i]]
                    self.usable(x) && 0 <= i < self.value(x).refs().len() implies self.usable(self.value(x).refs()[i]) by {
                    assert(pre.usable(x));
                    assert(pre.usable(pre.value(x).refs()[i]));
                }
                assert forall|x: usize|
                    #[trigger] self.live(x) && (x < self.sweep || x >= self.sweep_end) implies self.status(x) == Status::Untraced by {
                    if x != a {
                        assert(pre.live(x));
                    }
                }
                assert forall|x: usize, y: usize|
                    #![trigger pre.id(x), self.id(y)]
                    pre.live(x) && self.live(y) && pre.id(x) == self.id(y) implies x == y by {
                    assert(pre.live(y));
                }
            }
            self.cell_size
        } else {
            let ghost lp = *self;
            self.phase = Phase::Sleep;
            self.allocation_debt = 0;
            let r = self.remembered_size;
            let half = r / PAUSE_DIVISOR + r % PAUSE_DIVISOR;
            let pause = if half < MIN_SLEEP { MIN_SLEEP } else { half };
            self.wakeup_total = self.total_allocated.saturating_add(pause);
            proof {
                Self::lemma_slots_equal(lp, *self);
                assert forall|x: usize| #[trigger] self.live(x) implies self.status(x) == Status::Untraced && !pre.doomed(x)
                    && self.id(x) < self.next_id by {
                    assert(lp.live(x));
                }
                assert forall|x: usize| #[trigger] self.usable(x) == pre.usable(x) by {
                    assert(lp.live(x) == self.live(x));
                }
                assert forall|i: int| 0 <= i < self.roots@.len() implies self.usable(#[trigger] self.roots@[i]) by {
                    assert(pre.usable(pre.roots@[i]));
                }
                assert forall|x: usize, i: int|
                    #![trigger self.value(x).refs()[i]]
                    self.usable(x) && 0 <= i < self.value(x).refs().len() implies self.usable(self.value(x).refs()[i]) by {
                    assert(pre.usable(x));
                    assert(pre.usable(pre.value(x).refs()[i]));
                }
                assert(pre.cells_kept(*self));
                assert forall|x: usize, y: usize|
                    #![trigger pre.id(x), self.id(y)]
                    pre.live(x) && self.live(y) && pre.id(x) == self.id(y) implies x == y by {
                    assert(pre.live(y));
                }
            }
            1
        }
    }

    /// One step of collection in the current phase.
    fn step(&mut self) -> (work: usize)
        requires
            old(self).wf(),
            old(self).phase != Phase::Sleep,
        ensures
            Self::step_rel(*old(self), *final(self)),
            work >= 1,
            work == old(self).step_cost(),
            old(self).phase == Phase::Sweep && final(self).phase == Phase::Sleep ==> final(self).allocation_debt == 0
                && final(self).wakeup_total == sat_add(final(self).total_allocated as int, pause_of(final(self).remembered_size as int)),
    {
        match self.phase {
            Phase::Wake => self.wake_step(),
            Phase::Mark => self.mark_step(),
            Phase::Sweep => self.sweep_step(),
            Phase::Sleep => unreached(),
        }
    }

    /// What a run of collection steps from `start` keeps: cells never move or change, only
    /// cells leave, and every cell reachable at `start` stays live.
    closed spec fn run_rel(start: Self, cur: Self) -> bool {
        &&& cur.wf()
        &&& cur.roots == start.roots
        &&& cur.next_id == start.next_id
        &&& cur.cell_size == start.cell_size
        &&& forall|a: usize| #[trigger] cur.live(a) ==> start.live(a)
        &&& start.cells_kept(cur)
        &&& start.addresses_kept(cur)
        &&& graph::subgraph(cur.graph(), start.graph())
        &&& forall|a: usize| #[trigger] start.reachable(a) ==> cur.live(a)
    }

    proof fn lemma_run_start(start: Self)
        requires
            start.wf(),
        ensures
            Self::run_rel(start, start),
    {
        assert forall|a: usize| #[trigger] start.reachable(a) implies start.live(a) by {
            start.lemma_reachable_usable(a);
        }
    }

    /// One more step keeps what a run keeps.
    proof fn lemma_run_step(start: Self, pre: Self, post: Self)
        requires
            Self::run_rel(start, pre),
            Self::step_rel(pre, post),
        ensures
            Self::run_rel(start, post),
    {
        assert forall|a: usize| #[trigger] post.live(a) implies start.live(a) && post.id(a) == start.id(a)
            && post.value(a) == start.value(a) by {
            assert(pre.live(a));
        }
        assert forall|a: usize, b: usize|
            #![trigger start.id(a), post.id(b)]
            start.live(a) && post.live(b) && start.id(a) == post.id(b) implies a == b by {
            assert(pre.live(b));
        }
        assert(graph::subgraph(post.graph(), start.graph()));
        assert forall|a: usize| #[trigger] start.reachable(a) implies post.live(a) by {
            assert(pre.live(a));
            if !post.live(a) {
                assert(pre.doomed(a));
                assert forall|x: usize| #[trigger] graph::reachable(start.graph(), start.roots(), x) && start.graph().contains_key(x)
                    implies pre.graph().contains_key(x) by {
                    assert(start.reachable(x));
                }
                graph::lemma_reachable_shrink(pre.graph(), start.graph(), start.roots(), a);
                assert(pre.roots() == start.roots());
                pre.lemma_reachable_usable(a);
            }
        }
    }

    /// Reachability at the end of a run is reachability at its start.
    proof fn lemma_run_reachable(start: Self, cur: Self)
        requires
            Self::run_rel(start, cur),
        ensures
            forall|a: usize| #[trigger] cur.reachable(a) == start.reachable(a),
    {
        assert forall|a: usize| #[trigger] cur.reachable(a) == start.reachable(a) by {
            if cur.reachable(a) {
                assert(cur.roots() == start.roots());
                graph::lemma_reachable_grow(cur.graph(), start.graph(), start.roots(), a);
            }
            if start.reachable(a) {
                assert forall|x: usize| #[trigger] graph::reachable(start.graph(), start.roots(), x) && start.graph().contains_key(x)
                    implies cur.graph().contains_key(x) by {
                    assert(start.reachable(x));
                }
                graph::lemma_reachable_shrink(cur.graph(), start.graph(), start.roots(), a);
            }
        }
    }

    /// Changing only the pacing counters keeps everything a run of collection keeps.
    proof fn lemma_pacing_only(start: Self, pre: Self, post: Self)
        requires
            Self::run_rel(start, pre),
            post.slots@ == pre.slots@,
            post.total_allocated == pre.total_allocated,
            post.remembered_size == pre.remembered_size,
            post.roots == pre.roots,
            post.grays == pre.grays,
            post.grays_again == pre.grays_again,
            post.phase == pre.phase,
            post.sweep == pre.sweep,
            post.sweep_end == pre.sweep_end,
            post.next_id == pre.next_id,
            post.traced == pre.traced,
            post.cell_size == pre.cell_size,
        ensures
            Self::run_rel(start, post),
            forall|a: usize| #[trigger] post.reachable(a) == pre.reachable(a),
    {
        Self::lemma_same_slots(pre, post);
        if post.phase == Phase::Mark {
            assert forall|a: usize|
                #[trigger] post.live(a) && post.status(a) == Status::Marked implies post.pending(a) || !post.traced by {
                assert(pre.live(a));
            }
            assert forall|i: int| 0 <= i < post.grays@.len() implies post.gray_entry(#[trigger] post.grays@[i]) by {
                assert(pre.gray_entry(pre.grays@[i]));
            }
            assert forall|i: int| 0 <= i < post.grays_again@.len() implies post.gray_entry(#[trigger] post.grays_again@[i]) by {
                assert(pre.gray_entry(pre.grays_again@[i]));
            }
        }
        assert(post.wf());
        assert forall|a: usize| #[trigger] post.live(a) implies start.live(a) && post.id(a) == start.id(a)
            && post.value(a) == start.value(a) by {
            assert(pre.live(a));
        }
        assert forall|a: usize, b: usize|
            #![trigger start.id(a), post.id(b)]
            start.live(a) && post.live(b) && start.id(a) == post.id(b) implies a == b by {
            assert(pre.live(b));
        }
        assert forall|a: usize| #[trigger] start.reachable(a) implies post.live(a) by {
            assert(pre.live(a));
        }
        assert forall|a: usize| #[trigger] post.reachable(a) == pre.reachable(a) by {
            assert(post.graph() == pre.graph());
        }
    }

    /// Runs collection steps until the collector sleeps.
    ///
    /// A cycle run whole from `Wake` leaves exactly the cells reachable when it woke.
    fn finish_cycle(&mut self)
        requires
            old(self).wf(),
        ensures
            Self::run_rel(*old(self), *final(self)),
            final(self).phase == Phase::Sleep,
            old(self).phase != Phase::Sleep ==> final(self).allocation_debt == 0 && final(self).wakeup_total
                == sat_add(final(self).total_allocated as int, pause_of(final(self).remembered_size as int))
                && final(self).remembered_size == final(self).cell_size * final(self).survivors(),
            old(self).phase == Phase::Sleep ==> *final(self) == *old(self),
            final(self).work_done == old(self).work_done,
            old(self).phase == Phase::Wake ==> forall|a: usize| #[trigger] final(self).live(a) ==> old(self).reachable(a),
    {
        let ghost start = *self;
        proof {
            Self::lemma_run_start(start);
        }
        while self.phase != Phase::Sleep
            invariant
                Self::run_rel(start, *self),
                start.phase == Phase::Sleep ==> *self == start,
                self.work_done == start.work_done,
                start.phase != Phase::Sleep && self.phase == Phase::Sleep ==> self.allocation_debt == 0 && self.wakeup_total
                    == sat_add(self.total_allocated as int, pause_of(self.remembered_size as int))
                    && self.remembered_size == self.cell_size * self.survivors(),
                start.phase == Phase::Wake && (self.phase == Phase::Wake || self.phase == Phase::Mark) ==> self.graph() == start.graph()
                    && self.dark_within(start),
                start.phase == Phase::Wake && self.phase == Phase::Sweep ==> forall|a: usize|
                    #[trigger] self.live(a) && !self.doomed(a) ==> start.reachable(a),
                start.phase == Phase::Wake && self.phase == Phase::Sleep ==> forall|a: usize|
                    #[trigger] self.live(a) ==> start.reachable(a),
            decreases self.phase.remaining(), self.work_left(),
        {
            let ghost pre = *self;
            proof {
                if start.phase == Phase::Wake && pre.phase == Phase::Wake {
                    assert forall|a: usize| #[trigger] pre.live(a) && !pre.status(a).is_white() implies start.reachable(a) by {}
                }
            }
            self.step();
            proof {
                Self::lemma_run_step(start, pre, *self);
                if start.phase == Phase::Wake {
                    if pre.phase == Phase::Wake || pre.phase == Phase::Mark {
                        assert(pre.roots() == start.roots());
                        assert forall|a: usize| #[trigger] pre.reachable(a) == start.reachable(a) by {}
                        assert(pre.dark_within(pre));
                        if self.phase == Phase::Wake || self.phase == Phase::Mark {
                            assert forall|a: usize| #[trigger] self.graph().contains_key(a) == pre.graph().contains_key(a) by {
                                assert(self.live(a) == pre.live(a));
                            }
                            assert(self.graph() =~= pre.graph());
                            assert(self.dark_within(pre));
                        } else {
                            assert forall|a: usize| #[trigger] self.live(a) && !self.doomed(a) implies start.reachable(a) by {
                                assert(pre.live(a));
                                assert(self.doomed(a) == (pre.live(a) && pre.status(a).is_white()));
                            }
                        }
                    } else {
                        assert forall|a: usize| #[trigger] self.live(a) && !self.doomed(a) implies start.reachable(a) by {
                            assert(!pre.doomed(a));
                            assert(pre.live(a));
                        }
                    }
                }
            }
        }
    }

    /// Lets the collector do the work its debt asks for.
    ///
    /// In `Sleep` nothing happens. Otherwise steps run until the work done covers the debt or
    /// the collector sleeps, and the debt is paid off. Phases only advance, in the order
    /// `Wake`, `Mark`, `Sweep`, `Sleep`. A cell reachable from the roots is never freed.
    pub fn collect(&mut self)
        requires
            old(self).wf(),
        ensures
            final(self).wf(),
            final(self).roots() == old(self).roots(),
            final(self).next_id() == old(self).next_id(),
            final(self).cell_size() == old(self).cell_size(),
            forall|a: usize| #[trigger] final(self).live(a) ==> old(self).live(a),
            old(self).cells_kept(*final(self)),
            old(self).addresses_kept(*final(self)),
            forall|a: usize| old(self).reachable(a) ==> #[trigger] final(self).live(a),
            forall|a: usize| #[trigger] final(self).reachable(a) == old(self).reachable(a),
            old(self).phase() == Phase::Sleep ==> *final(self) == *old(self),
            old(self).phase() != Phase::Sleep ==> final(self).allocation_debt() == 0,
            final(self).phase() == old(self).phase() || final(self).phase() == Phase::Sleep
                || final(self).phase().remaining() < old(self).phase().remaining(),
            old(self).phase() != Phase::Sleep && final(self).phase() == Phase::Sleep ==> final(self).wakeup_total()
                == sat_add(final(self).total_allocated() as int, pause_of(final(self).remembered_size() as int)),
            old(self).phase() != Phase::Sleep && old(self).allocation_debt() > 0 ==> final(self).phase().remaining()
                < old(self).phase().remaining() || (final(self).phase() == old(self).phase() && final(self).work_left()
                < old(self).work_left()),
            old(self).phase() != Phase::Sleep ==> final(self).phase() == Phase::Sleep
                || final(self).work_done() >= old(self).work_done() + old(self).allocation_debt(),
            old(self).phase() != Phase::Sleep && old(self).allocation_debt() > 0 ==> final(self).work_done()
                < old(self).work_done() + old(self).allocation_debt() + old(self).cell_size() + old(self).roots().len() + 1,
            old(self).phase() != Phase::Sleep ==> final(self).work_done() >= old(self).work_done(),
            final(self).total_allocated() == final(self).cell_size() * final(self).live_cells(),
            final(self).phase() == Phase::Sleep ==> forall|a: usize|
                #[trigger] final(self).live(a) ==> final(self).status(a) == Status::Untraced,
            old(self).phase() != Phase::Sleep && final(self).phase() == Phase::Sleep ==> final(self).remembered_size()
                == final(self).cell_size() * final(self).survivors(),
            old(self).phase() == Phase::Sweep ==> forall|a: usize|
                #[trigger] old(self).live(a) && !final(self).live(a) ==> old(self).doomed(a),
            old(self).phase() == Phase::Sweep ==> forall|a: usize|
                #[trigger] old(self).usable(a) ==> final(self).live(a),
            old(self).phase() == Phase::Sweep && final(self).phase() == Phase::Sleep ==> forall|a: usize|
                #[trigger] old(self).doomed(a) ==> !final(self).live(a),
            old(self).phase() == Phase::Sweep && final(self).phase() == Phase::Sweep ==> forall|a: usize|
                #[trigger] old(self).doomed(a) && a < final(self).sweep_cursor() ==> !final(self).live(a),
    {
        if self.phase == Phase::Sleep {
            proof {
                Self::lemma_run_start(*self);
            }
            return;
        }
        let ghost start = *self;
        proof {
            Self::lemma_run_start(start);
        }
        let budget = self.allocation_debt;
        let mut done: usize = 0;
        let ghost mut spent: nat = 0;
        while done < budget && self.phase != Phase::Sleep
            invariant
                Self::run_rel(start, *self),
                start.phase != Phase::Sleep,
                self.phase == start.phase || self.phase == Phase::Sleep || self.phase.remaining() < start.phase.remaining(),
                self.phase == Phase::Sleep ==> self.wakeup_total == sat_add(self.total_allocated as int, pause_of(self.remembered_size as int)),
                done == 0 ==> *self == start,
                done > 0 ==> self.phase.remaining() < start.phase.remaining() || (self.phase == start.phase
                    && self.work_left() < start.work_left()),
                self.work_done@ == start.work_done@ + spent,
                done == (if spent < budget { spent } else { budget as nat }),
                done > 0 ==> spent < budget + self.cell_size + self.roots@.len() + 1,
                self.phase == Phase::Sleep ==> self.remembered_size == self.cell_size * live_count(self.slots@.take(self.sweep_end as int)),
                start.phase == Phase::Sweep ==> {
                    &&& self.phase == Phase::Sweep || self.phase == Phase::Sleep
                    &&& self.sweep_end == start.sweep_end
                    &&& self.sweep >= start.sweep
                    &&& self.phase == Phase::Sleep ==> self.sweep == self.sweep_end
                    &&& forall|a: usize| a >= self.sweep ==> #[trigger] self.live(a) == start.live(a)
                        && (self.live(a) ==> self.status(a) == start.status(a))
                    &&& forall|a: usize| #[trigger] start.doomed(a) && a < self.sweep ==> !self.live(a)
                    &&& forall|a: usize| #[trigger] start.live(a) && !self.live(a) ==> start.doomed(a)
                },
            decreases budget - done,
        {
            let ghost pre = *self;
            let w = self.step();
            let ghost mid = *self;
            proof {
                Self::lemma_run_step(start, pre, mid);
            }
            self.work_done = Ghost(self.work_done@ + w as nat);
            proof {
                Self::lemma_pacing_only(start, mid, *self);
                Self::lemma_slots_equal(mid, *self);
                assert(self.work_left() == mid.work_left());
                assert(self.phase == mid.phase);
                spent = spent + w as nat;
                if start.phase == Phase::Sweep {
                    assert forall|a: usize| a >= self.sweep implies #[trigger] self.live(a) == start.live(a)
                        && (self.live(a) ==> self.status(a) == start.status(a)) by {
                        assert(mid.live(a) == pre.live(a));
                        assert(pre.live(a) == start.live(a));
                    }
                    assert forall|a: usize| #[trigger] start.doomed(a) && a < self.sweep implies !self.live(a) by {
                        if a < pre.sweep {
                            assert(!pre.live(a));
                            assert(!mid.live(a));
                        } else {
                            assert(pre.live(a) == start.live(a));
                            assert(pre.doomed(a));
                            assert(!mid.live(a));
                        }
                    }
                    assert forall|a: usize| #[trigger] start.live(a) && !self.live(a) implies start.doomed(a) by {
                        assert(!mid.live(a));
                        if pre.live(a) {
                            assert(pre.doomed(a));
                            assert(pre.live(a) == start.live(a));
                        }
                    }
                }
            }
            done = if w < budget - done { done + w } else { budget };
        }
        let ghost lp = *self;
        proof {
            Self::lemma_run_reachable(start, lp);
        }
        self.allocation_debt = 0;
        proof {
            Self::lemma_pacing_only(start, lp, *self);
            Self::lemma_slots_equal(lp, *self);
            if start.phase == Phase::Sweep {
                assert forall|a: usize| #[trigger] start.usable(a) implies self.live(a) by {
                    if !self.live(a) {
                        assert(!lp.live(a));
                    }
                }
                assert forall|a: usize| #[trigger] start.live(a) && !self.live(a) implies start.doomed(a) by {
                    assert(!lp.live(a));
                }
                if self.phase == Phase::Sleep {
                    assert forall|a: usize| #[trigger] start.doomed(a) implies !self.live(a) by {
                        assert(!lp.live(a));
                    }
                } else {
                    assert forall|a: usize| #[trigger] start.doomed(a) && a < self.sweep implies !self.live(a) by {
                        assert(!lp.live(a));
                    }
                }
            }
            if self.phase == Phase::Sleep {
                assert forall|a: usize| #[trigger] self.live(a) implies self.status(a) == Status::Untraced by {
                    assert(lp.live(a));
                }
            }
        }
    }

    /// Runs a complete collection cycle, whatever the debt.
    ///
    /// A cycle already under way is finished first, since the colours of the cells ahead of
    /// the sweep cursor belong to it. Then the collector wakes and runs a whole cycle, after
    /// which the live cells are exactly the cells reachable from the roots.
    pub fn collect_full(&mut self)
        requires
            old(self).wf(),
        ensures
            final(self).wf(),
            final(self).phase() == Phase::Sleep,
            final(self).allocation_debt() == 0,
            final(self).roots() == old(self).roots(),
            final(self).next_id() == old(self).next_id(),
            final(self).cell_size() == old(self).cell_size(),
            forall|a: usize| #[trigger] final(self).live(a) ==> old(self).live(a),
            old(self).cells_kept(*final(self)),
            old(self).addresses_kept(*final(self)),
            forall|a: usize| #[trigger] final(self).reachable(a) == old(self).reachable(a),
            forall|a: usize| #[trigger] final(self).live(a) == final(self).reachable(a),
            final(self).wakeup_total() == sat_add(final(self).total_allocated() as int, pause_of(final(self).remembered_size() as int)),
            final(self).remembered_size() == final(self).cell_size() * final(self).survivors(),
            final(self).total_allocated() == final(self).cell_size() * final(self).live_cells(),
            forall|a: usize| #[trigger] final(self).live(a) ==> final(self).status(a) == Status::Untraced,
            final(self).work_done() == old(self).work_done(),
    {
        let ghost start = *self;
        if self.phase == Phase::Mark || self.phase == Phase::Sweep {
            self.finish_cycle();
        }
        let ghost mid = *self;
        proof {
            if start.phase == Phase::Mark || start.phase == Phase::Sweep {
                Self::lemma_run_reachable(start, mid);
            } else {
                Self::lemma_run_start(start);
            }
        }
        self.phase = Phase::Wake;
        let ghost woke = *self;
        proof {
            Self::lemma_same_slots(mid, woke);
            assert(woke.graph() == mid.graph());
            assert(woke.roots() == mid.roots());
            assert forall|a: usize| #[trigger] woke.reachable(a) == mid.reachable(a) by {}
        }
        self.finish_cycle();
        proof {
            let fin = *self;
            Self::lemma_run_reachable(woke, fin);
            assert forall|a: usize| #[trigger] fin.live(a) == fin.reachable(a) by {
                if fin.reachable(a) {
                    assert(woke.reachable(a));
                }
            }
            assert forall|a: usize| #[trigger] fin.live(a) implies start.live(a) by {
                assert(woke.live(a));
                assert(mid.live(a));
            }
            assert forall|a: usize| #[trigger] fin.live(a) implies fin.id(a) == start.id(a) && fin.value(a) == start.value(a) by {
                assert(woke.live(a));
                assert(mid.live(a));
            }
            assert forall|a: usize, b: usize|
                #![trigger start.id(a), fin.id(b)]
                start.live(a) && fin.live(b) && start.id(a) == fin.id(b) implies a == b by {
                assert(woke.live(b));
                assert(mid.live(b));
            }
            assert forall|a: usize| #[trigger] fin.reachable(a) == start.reachable(a) by {
                assert(fin.reachable(a) == woke.reachable(a));
                assert(woke.reachable(a) == mid.reachable(a));
                assert(mid.reachable(a) == start.reachable(a));
            }
        }
    }


    /// Writing a payload whose pointers are usable into a cell that is not black while
    /// marking keeps the invariant.
    proof fn lemma_payload_write(pre: Self, post: Self, a: usize)
        requires
            pre.wf(),
            pre.usable(a),
            pre.phase == Phase::Mark && pre.traced ==> pre.status(a) != Status::Traced,
            post.slots@.len() == pre.slots@.len(),
            forall|x: int| 0 <= x < pre.slots@.len() && x != a ==> post.slots@[x] == pre.slots@[x],
            post.live(a),
            post.id(a) == pre.id(a),
            post.status(a) == pre.status(a),
            post.free == pre.free,
            post.roots == pre.roots,
            post.grays == pre.grays,
            post.grays_again == pre.grays_again,
            post.sweep == pre.sweep,
            post.sweep_end == pre.sweep_end,
            post.total_allocated == pre.total_allocated,
            post.remembered_size == pre.remembered_size,
            post.wakeup_total == pre.wakeup_total,
            post.allocation_debt == pre.allocation_debt,
            post.phase == pre.phase,
            post.next_id == pre.next_id,
            post.cell_size == pre.cell_size,
            post.traced == pre.traced,
        ensures
            pre.addresses_kept(post),
            forall|x: usize| #[trigger] post.live(x) == pre.live(x),
            forall|x: usize| #[trigger] post.usable(x) == pre.usable(x),
            forall|x: usize| pre.live(x) ==> #[trigger] post.status(x) == pre.status(x),
            forall|x: usize| x != a && pre.live(x) ==> #[trigger] post.value(x) == pre.value(x),
            pre.refs_usable(post.value(a)) ==> post.wf(),
    {
        Self::lemma_frame(pre, post, a);
        assert forall|x: usize| #[trigger] post.usable(x) == pre.usable(x) by {}
        assert forall|x: usize| pre.live(x) implies #[trigger] post.status(x) == pre.status(x) by {}
        if pre.refs_usable(post.value(a)) {
            assert(forall|x: usize, y: usize|
                #![trigger post.id(x), post.id(y)]
                post.live(x) && post.live(y) && post.id(x) == post.id(y) ==> x == y);
            assert(forall|x: usize| #[trigger] post.live(x) ==> post.id(x) < post.next_id);
            assert forall|x: usize, i: int|
                #![trigger post.value(x).refs()[i]]
                post.usable(x) && 0 <= i < post.value(x).refs().len() implies post.usable(post.value(x).refs()[i]) by {
                if x == a {
                    assert(pre.usable(post.value(a).refs()[i]));
                } else {
                    assert(pre.usable(pre.value(x).refs()[i]));
                }
            }
            if post.phase == Phase::Mark {
                assert forall|x: usize, i: int|
                    #![trigger post.value(x).refs()[i]]
                    post.live(x) && post.status(x) == Status::Traced && 0 <= i < post.value(x).refs().len()
                        implies !post.status(post.value(x).refs()[i]).is_white() by {
                    if x == a {
                        assert(!pre.traced);
                        assert(post.value(a).refs().len() == 0);
                    } else {
                        assert(pre.usable(x));
                        assert(!pre.status(pre.value(x).refs()[i]).is_white());
                        assert(pre.usable(pre.value(x).refs()[i]));
                    }
                }
                assert forall|x: usize| #[trigger] post.live(x) && post.status(x) == Status::Marked implies post.pending(x) || !post.traced by {
                    assert(pre.live(x));
                }
                assert forall|i: int| 0 <= i < post.grays@.len() implies post.gray_entry(#[trigger] post.grays@[i]) by {
                    assert(pre.gray_entry(pre.grays@[i]));
                }
                assert forall|i: int| 0 <= i < post.grays_again@.len() implies post.gray_entry(#[trigger] post.grays_again@[i]) by {
                    assert(pre.gray_entry(pre.grays_again@[i]));
                }
                assert forall|i: int| 0 <= i < post.roots@.len() implies !post.status(#[trigger] post.roots@[i]).is_white() by {
                    assert(!pre.status(pre.roots@[i]).is_white());
                }
            }
            assert forall|i: int| 0 <= i < post.roots@.len() implies post.usable(#[trigger] post.roots@[i]) by {
                assert(pre.usable(pre.roots@[i]));
            }
            if post.phase == Phase::Sleep || post.phase == Phase::Wake {
                assert forall|x: usize| #[trigger] post.live(x) implies post.status(x) == Status::Untraced by {
                    assert(pre.live(x));
                }
            }
            if post.phase == Phase::Sweep {
                assert forall|x: usize| #[trigger] post.live(x) && (x < post.sweep || x >= post.sweep_end)
                    implies post.status(x) == Status::Untraced by {
                    assert(pre.live(x));
                }
            }
        }
    }

    /// The work that allocating one cell adds outside `Sleep`.
    fn cell_debt(&self) -> (r: usize)
        ensures
            r == sat_add(self.cell_size as int, self.cell_size * (TIMING_NUM as int) / (TIMING_DEN as int)),
    {
        let size = self.cell_size;
        let extra = size / TIMING_DEN * TIMING_NUM + size % TIMING_DEN * TIMING_NUM / TIMING_DEN;
        proof {
            let q = size / 3;
            let m = size % 3;
            assert(size == 3 * q + m) by (nonlinear_arith)
                requires q == size / 3, m == size % 3;
            assert((3 * q + m) * 2 / 3 == 2 * q + m * 2 / 3) by (nonlinear_arith)
                requires 0 <= m < 3, q >= 0;
        }
        size.saturating_add(extra)
    }

    /// Allocates a cell holding `value` and returns a handle to it.
    ///
    /// The new cell is white. It takes a freed slot outside `Sweep`; during `Sweep` it takes a
    /// new slot behind the range the sweep visits, so the sweep in progress never frees it.
    /// Outside `Sleep` the allocation adds to the collector's debt, and in `Sleep` it wakes the
    /// collector once the allocated total passes the wake-up threshold.
    pub fn add(&mut self, value: T) -> (p: Gc<T>)
        requires
            old(self).wf(),
            old(self).refs_usable(value),
            old(self).next_id() < u64::MAX,
            old(self).total_allocated() + old(self).cell_size() <= usize::MAX,
        ensures
            final(self).wf(),
            !old(self).live(p@),
            final(self).usable(p@),
            final(self).value(p@) == value,
            final(self).status(p@) == Status::Untraced,
            final(self).id(p@) == old(self).next_id(),
            final(self).next_id() == old(self).next_id() + 1,
            forall|a: usize| a != p@ ==> #[trigger] final(self).live(a) == old(self).live(a),
            forall|a: usize| a != p@ && old(self).live(a) ==> #[trigger] final(self).status(a) == old(self).status(a),
            forall|a: usize| old(self).usable(a) ==> #[trigger] final(self).usable(a),
            old(self).cells_kept(*final(self)),
            old(self).addresses_kept(*final(self)),
            final(self).roots() == old(self).roots(),
            final(self).cell_size() == old(self).cell_size(),
            final(self).total_allocated() == old(self).total_allocated() + old(self).cell_size(),
            final(self).live_cells() == old(self).live_cells() + 1,
            final(self).phase() == old(self).phase() || final(self).phase() == old(self).phase().next(),
            final(self).wakeup_total() == old(self).wakeup_total(),
            final(self).phase() == (if old(self).phase() == Phase::Sleep && final(self).total_allocated() > old(self).wakeup_total() {
                Phase::Wake
            } else {
                old(self).phase()
            }),
            final(self).allocation_debt() == (if final(self).phase() != Phase::Sleep {
                sat_add(old(self).allocation_debt() as int, debt_of(old(self).cell_size() as int))
            } else {
                old(self).allocation_debt()
            }),
            forall|a: usize| old(self).reachable(a) ==> #[trigger] final(self).reachable(a),
    {
        let ghost pre = *self;
        let id = self.next_id;
        let cell = GcBox { value, status: Status::Untraced, id };
        let len = self.slots.len();
        let mut slot = len;
        if self.phase != Phase::Sweep {
            match self.free.pop() {
                Some(i) => {
                    if i < len && self.slots[i].is_none() {
                        slot = i;
                    }
                },
                None => {},
            }
        }
        if slot < len {
            self.slots.set(slot, Some(cell));
        } else {
            self.slots.push(Some(cell));
        }
        self.next_id = id + 1;
        self.total_allocated = self.total_allocated + self.cell_size;
        if self.phase == Phase::Sleep && self.total_allocated > self.wakeup_total {
            self.phase = Phase::Wake;
        }
        if self.phase != Phase::Sleep {
            let d = self.cell_debt();
            self.allocation_debt = self.allocation_debt.saturating_add(d);
        }
        let p = Gc::new(slot);
        proof {
            assert(self.live(slot));
            if slot < len {
                lemma_count_update(pre.slots@, slot as int, Some(cell));
            } else {
                lemma_count_push(pre.slots@, Some(cell));
                if pre.phase == Phase::Sweep {
                    assert(self.slots@.take(self.sweep as int) =~= pre.slots@.take(self.sweep as int));
                }
            }
            assert(self.total_allocated == self.cell_size * live_count(self.slots@)) by (nonlinear_arith)
                requires
                    self.total_allocated == pre.total_allocated + self.cell_size,
                    pre.total_allocated == self.cell_size * live_count(pre.slots@),
                    live_count(self.slots@) == live_count(pre.slots@) + 1;
            assert forall|a: usize| a != slot implies #[trigger] self.live(a) == pre.live(a) && (pre.live(a) ==> self.slots@[a as int] == pre.slots@[a as int]) by {}
            assert forall|a: usize| pre.usable(a) implies #[trigger] self.usable(a) by {
                assert(a != slot);
            }
            assert(pre.graph().submap_of(self.graph()));
            assert forall|a: usize| pre.reachable(a) implies #[trigger] self.reachable(a) by {
                assert(graph::subgraph(pre.graph(), self.graph()));
                graph::lemma_reachable_grow(pre.graph(), self.graph(), pre.roots(), a);
            }
            assert forall|a: usize, i: int|
                #![trigger self.value(a).refs()[i]]
                self.usable(a) && 0 <= i < self.value(a).refs().len() implies self.usable(self.value(a).refs()[i]) by {
                if a == slot {
                    assert(pre.usable(value.refs()[i]));
                } else {
                    assert(pre.usable(a));
                    assert(pre.usable(pre.value(a).refs()[i]));
                }
            }
            if self.phase == Phase::Mark {
                assert forall|a: usize, i: int|
                    #![trigger self.value(a).refs()[i]]
                    self.live(a) && self.status(a) == Status::Traced && 0 <= i < self.value(a).refs().len()
                        implies !self.status(self.value(a).refs()[i]).is_white() by {
                    assert(a != slot);
                    assert(pre.usable(a));
                    assert(pre.usable(pre.value(a).refs()[i]));
                }
            }
        }
        p
    }

    /// Records that the payload of `p` is about to change.
    ///
    /// During `Mark`, a black cell turns gray again and waits on the second gray stack, so that
    /// the references it receives are traced. Types that hold no managed pointers need nothing.
    pub fn write_barrier(&mut self, p: Gc<T>)
        requires
            old(self).wf(),
            old(self).live(p@),
        ensures
            final(self).wf(),
            final(self).status(p@) == (if old(self).phase() == Phase::Mark && old(self).status(p@) == Status::Traced
                && T::traceable() {
                Status::Marked
            } else {
                old(self).status(p@)
            }),
            forall|a: usize| #[trigger] final(self).live(a) == old(self).live(a),
            forall|a: usize| a != p@ && old(self).live(a) ==> #[trigger] final(self).status(a) == old(self).status(a),
            forall|a: usize| #[trigger] final(self).usable(a) == old(self).usable(a),
            old(self).cells_kept(*final(self)),
            old(self).addresses_kept(*final(self)),
            final(self).graph() == old(self).graph(),
            final(self).roots() == old(self).roots(),
            final(self).phase() == old(self).phase(),
            final(self).next_id() == old(self).next_id(),
            final(self).cell_size() == old(self).cell_size(),
            final(self).total_allocated() == old(self).total_allocated(),
            final(self).wakeup_total() == old(self).wakeup_total(),
            final(self).allocation_debt() == old(self).allocation_debt(),
    {
        let ghost pre = *self;
        let a = p.address();
        if self.traced && self.phase == Phase::Mark {
            let is_black = match &self.slots[a] {
                Some(b) => b.status == Status::Traced,
                None => false,
            };
            if is_black {
                set_status(&mut self.slots, a, Status::Marked);
                self.grays_again.push(a);
                proof {
                    assert(self.grays_again@.last() == a);
                    Self::lemma_frame(pre, *self, a);
                    assert forall|x: usize| #[trigger] self.live(x) && self.status(x) == Status::Marked implies self.pending(x) || !self.traced by {
                        if x != a {
                            assert(pre.pending(x) || !pre.traced);
                            if pre.grays_again@.contains(x) {
                                let k = choose|k: int| 0 <= k < pre.grays_again@.len() && pre.grays_again@[k] == x;
                                assert(self.grays_again@[k] == x);
                            }
                        } else {
                            assert(self.grays_again@[self.grays_again@.len() - 1] == a);
                        }
                    }
                    assert forall|x: usize| #[trigger] self.usable(x) == pre.usable(x) by {}
                    assert forall|x: usize, i: int|
                        #![trigger self.value(x).refs()[i]]
                        self.live(x) && self.status(x) == Status::Traced && 0 <= i < self.value(x).refs().len()
                            implies !self.status(self.value(x).refs()[i]).is_white() by {
                        assert(x != a);
                        assert(pre.usable(x));
                        assert(pre.usable(pre.value(x).refs()[i]));
                    }
                    assert forall|i: int| 0 <= i < self.grays_again@.len() implies self.gray_entry(#[trigger] self.grays_again@[i]) by {
                        if i < pre.grays_again@.len() {
                            assert(pre.gray_entry(pre.grays_again@[i]));
                        }
                    }
                    assert forall|i: int| 0 <= i < self.grays@.len() implies self.gray_entry(#[trigger] self.grays@[i]) by {
                        assert(pre.gray_entry(pre.grays@[i]));
                    }
                    assert(self.graph() =~= pre.graph());
                    assert(self.value(a) == pre.value(a));
                    assert(forall|i: int| 0 <= i < self.roots@.len() ==> self.usable(#[trigger] self.roots@[i]));
                    assert(forall|x: usize, i: int|
                        #![trigger self.value(x).refs()[i]]
                        self.usable(x) && 0 <= i < self.value(x).refs().len() ==> self.usable(self.value(x).refs()[i]));
                    assert(forall|i: int| 0 <= i < self.roots@.len() ==> !self.status(#[trigger] self.roots@[i]).is_white());
                    assert(self.wf());
                }
            }
        }
        proof {
            assert(self.graph() =~= pre.graph());
            assert(self.wf());
        }
    }

    /// Replaces the payload of `p` with `value`, firing the write barrier first, and returns
    /// the payload it held.
    pub fn replace(&mut self, p: Gc<T>, value: T) -> (r: T)
        requires
            old(self).wf(),
            old(self).usable(p@),
            old(self).refs_usable(value),
        ensures
            final(self).wf(),
            r == old(self).value(p@),
            final(self).value(p@) == value,
            final(self).id(p@) == old(self).id(p@),
            final(self).status(p@) == (if old(self).phase() == Phase::Mark && old(self).status(p@) == Status::Traced
                && T::traceable() {
                Status::Marked
            } else {
                old(self).status(p@)
            }),
            forall|a: usize| #[trigger] final(self).live(a) == old(self).live(a),
            forall|a: usize| a != p@ && old(self).live(a) ==> #[trigger] final(self).status(a) == old(self).status(a),
            forall|a: usize| a != p@ && old(self).live(a) ==> #[trigger] final(self).value(a) == old(self).value(a),
            forall|a: usize| #[trigger] final(self).usable(a) == old(self).usable(a),
            old(self).addresses_kept(*final(self)),
            final(self).roots() == old(self).roots(),
            final(self).phase() == old(self).phase(),
            final(self).next_id() == old(self).next_id(),
            final(self).cell_size() == old(self).cell_size(),
            final(self).total_allocated() == old(self).total_allocated(),
            final(self).wakeup_total() == old(self).wakeup_total(),
            final(self).allocation_debt() == old(self).allocation_debt(),
    {
        self.write_barrier(p);
        let ghost mid = *self;
        assert(self.live(p@));
        let r = replace_value(&mut self.slots, p.address(), value);
        proof {
            let a = p@;
            Self::lemma_frame(mid, *self, a);
            assert forall|x: usize| #[trigger] self.usable(x) == mid.usable(x) by {}
            assert forall|x: usize, i: int|
                #![trigger self.value(x).refs()[i]]
                self.usable(x) && 0 <= i < self.value(x).refs().len() implies self.usable(self.value(x).refs()[i]) by {
                if x == a {
                    assert(old(self).usable(value.refs()[i]));
                } else {
                    assert(mid.usable(mid.value(x).refs()[i]));
                }
            }
            if self.phase == Phase::Mark {
                assert forall|x: usize, i: int|
                    #![trigger self.value(x).refs()[i]]
                    self.live(x) && self.status(x) == Status::Traced && 0 <= i < self.value(x).refs().len()
                        implies !self.status(self.value(x).refs()[i]).is_white() by {
                    if x == a {
                        assert(!self.traced);
                        assert(value.refs().len() == 0);
                    } else {
                        assert(mid.usable(x));
                        assert(!mid.status(mid.value(x).refs()[i]).is_white());
                        assert(mid.usable(mid.value(x).refs()[i]));
                    }
                }
            }
        }
        r
    }

    /// Borrows the payload of `p` mutably, firing the write barrier first.
    ///
    /// The arena stays well formed when every managed pointer written into the payload is
    /// usable.
    pub fn borrow_mut(&mut self, p: Gc<T>) -> (r: &mut T)
        requires
            old(self).wf(),
            old(self).usable(p@),
        ensures
            *r == old(self).value(p@),
            final(self).value(p@) == *final(r),
            final(self).id(p@) == old(self).id(p@),
            final(self).status(p@) == (if old(self).phase() == Phase::Mark && old(self).status(p@) == Status::Traced
                && T::traceable() {
                Status::Marked
            } else {
                old(self).status(p@)
            }),
            old(self).refs_usable(*final(r)) ==> final(self).wf(),
            forall|a: usize| #[trigger] final(self).live(a) == old(self).live(a),
            forall|a: usize| a != p@ && old(self).live(a) ==> #[trigger] final(self).status(a) == old(self).status(a),
            forall|a: usize| a != p@ && old(self).live(a) ==> #[trigger] final(self).value(a) == old(self).value(a),
            forall|a: usize| #[trigger] final(self).usable(a) == old(self).usable(a),
            old(self).addresses_kept(*final(self)),
            final(self).roots() == old(self).roots(),
            final(self).phase() == old(self).phase(),
            final(self).next_id() == old(self).next_id(),
            final(self).cell_size() == old(self).cell_size(),
            final(self).total_allocated() == old(self).total_allocated(),
            final(self).wakeup_total() == old(self).wakeup_total(),
            final(self).allocation_debt() == old(self).allocation_debt(),
    {
        self.write_barrier(p);
        let ghost mid = *self;
        proof {
            assert(self.live(p@));
            assert(self.usable(p@));
            assert forall|x: usize| #[trigger] old(self).usable(x) implies mid.usable(x) by {}
        }
        let a = p.address();
        match &mut self.slots[a] {
            Some(b) => {
                let r = &mut b.value;
                proof {
                    Self::lemma_payload_write(mid, after_borrow(*self), a);
                }
                r
            },
            None => unreached(),
        }
    }

    /// Borrows the payload of `p` mutably without the write barrier.
    ///
    /// Only types that can hold no managed pointer may be borrowed so: no change to such a
    /// payload can add an edge to the heap graph.
    pub fn borrow_mut_untraced(&mut self, p: Gc<T>) -> (r: &mut T)
        requires
            old(self).wf(),
            old(self).live(p@),
            !T::traceable(),
        ensures
            *r == old(self).value(p@),
            final(self).wf(),
            final(self).value(p@) == *final(r),
            final(self).id(p@) == old(self).id(p@),
            forall|a: usize| #[trigger] final(self).live(a) == old(self).live(a),
            forall|a: usize| old(self).live(a) ==> #[trigger] final(self).status(a) == old(self).status(a),
            forall|a: usize| a != p@ && old(self).live(a) ==> #[trigger] final(self).value(a) == old(self).value(a),
            forall|a: usize| #[trigger] final(self).usable(a) == old(self).usable(a),
            old(self).addresses_kept(*final(self)),
            final(self).roots() == old(self).roots(),
            final(self).phase() == old(self).phase(),
            final(self).next_id() == old(self).next_id(),
            final(self).cell_size() == old(self).cell_size(),
            final(self).total_allocated() == old(self).total_allocated(),
            final(self).wakeup_total() == old(self).wakeup_total(),
            final(self).allocation_debt() == old(self).allocation_debt(),
    {
        let ghost pre = *self;
        let a = p.address();
        match &mut self.slots[a] {
            Some(b) => {
                let r = &mut b.value;
                proof {
                    Self::lemma_payload_only(pre, after_borrow(*self), a);
                }
                r
            },
            None => unreached(),
        }
    }

    /// Adds `p` to the root list; the returned guard stands for that entry.
    ///
    /// During `Mark` a white cell rooted now is shaded gray, since the roots were shaded when
    /// the cycle woke.
    pub fn root(&mut self, p: Gc<T>) -> (g: RootGuard)
        requires
            old(self).wf(),
            old(self).usable(p@),
        ensures
            final(self).wf(),
            g@ == old(self).roots().len(),
            final(self).roots() == old(self).roots().push(p@),
            final(self).status(p@) == (if old(self).phase() == Phase::Mark && old(self).status(p@).is_white() {
                Status::Marked
            } else {
                old(self).status(p@)
            }),
            forall|a: usize| #[trigger] final(self).live(a) == old(self).live(a),
            forall|a: usize| a != p@ && old(self).live(a) ==> #[trigger] final(self).status(a) == old(self).status(a),
            forall|a: usize| #[trigger] final(self).usable(a) == old(self).usable(a),
            old(self).cells_kept(*final(self)),
            old(self).addresses_kept(*final(self)),
            final(self).graph() == old(self).graph(),
            forall|a: usize| old(self).reachable(a) ==> #[trigger] final(self).reachable(a),
            final(self).reachable(p@),
            final(self).phase() == old(self).phase(),
            final(self).next_id() == old(self).next_id(),
            final(self).cell_size() == old(self).cell_size(),
            final(self).total_allocated() == old(self).total_allocated(),
            final(self).wakeup_total() == old(self).wakeup_total(),
            final(self).allocation_debt() == old(self).allocation_debt(),
    {
        let ghost pre = *self;
        let a = p.address();
        let g = RootGuard { index: self.roots.len() };
        self.roots.push(a);
        if self.phase == Phase::Mark {
            let white = match &self.slots[a] {
                Some(b) => b.status == Status::Untraced || b.status == Status::MarkedWeak,
                None => false,
            };
            if white {
                set_status(&mut self.slots, a, Status::Marked);
                self.grays.push(a);
                proof {
                    assert(self.grays@.last() == a);
                    Self::lemma_frame(pre, *self, a);
                    assert forall|x: usize| #[trigger] self.live(x) && self.status(x) == Status::Marked implies self.pending(x) || !self.traced by {
                        if x != a {
                            assert(pre.pending(x) || !pre.traced);
                            if pre.grays@.contains(x) {
                                let k = choose|k: int| 0 <= k < pre.grays@.len() && pre.grays@[k] == x;
                                assert(self.grays@[k] == x);
                            }
                        } else {
                            assert(self.grays@[self.grays@.len() - 1] == a);
                        }
                    }
                    assert forall|x: usize, i: int|
                        #![trigger self.value(x).refs()[i]]
                        self.live(x) && self.status(x) == Status::Traced && 0 <= i < self.value(x).refs().len()
                            implies !self.status(self.value(x).refs()[i]).is_white() by {
                        assert(x != a);
                        assert(pre.usable(x));
                        assert(pre.usable(pre.value(x).refs()[i]));
                        assert(!pre.status(pre.value(x).refs()[i]).is_white());
                    }
                    assert forall|i: int| 0 <= i < self.grays@.len() implies self.gray_entry(#[trigger] self.grays@[i]) by {
                        if i < pre.grays@.len() {
                            assert(pre.gray_entry(pre.grays@[i]));
                        }
                    }
                    assert forall|i: int| 0 <= i < self.grays_again@.len() implies self.gray_entry(#[trigger] self.grays_again@[i]) by {
                        assert(pre.gray_entry(pre.grays_again@[i]));
                    }
                    assert forall|i: int| 0 <= i < self.roots@.len() implies !self.status(#[trigger] self.roots@[i]).is_white() by {
                        if i < pre.roots@.len() {
                            assert(pre.roots@[i] == self.roots@[i]);
                            assert(!pre.status(pre.roots@[i]).is_white());
                        }
                    }
                    assert(self.value(a) == pre.value(a));
                }
            }
        }
        proof {
            Self::lemma_frame(pre, *self, a);
            assert(self.value(a) == pre.value(a));
            assert forall|x: usize| #[trigger] self.usable(x) == pre.usable(x) by {}
            assert(self.graph() =~= pre.graph());
            assert forall|i: int| 0 <= i < self.roots@.len() implies self.usable(#[trigger] self.roots@[i]) by {
                if i < pre.roots@.len() {
                    assert(pre.usable(pre.roots@[i]));
                }
            }
            assert forall|x: usize| pre.reachable(x) implies #[trigger] self.reachable(x) by {
                assert forall|r: usize| pre.roots().contains(r) implies self.roots().contains(r) by {
                    let k = choose|k: int| 0 <= k < pre.roots@.len() && pre.roots@[k] == r;
                    assert(self.roots@[k] == r);
                }
                graph::lemma_reachable_more_roots(self.graph(), pre.roots(), self.roots(), x);
            }
            assert(self.roots@[self.roots@.len() - 1] == a);
            graph::lemma_root_reachable(self.graph(), self.roots(), a);
            assert(forall|x: usize, i: int|
                #![trigger self.value(x).refs()[i]]
                self.usable(x) && 0 <= i < self.value(x).refs().len() ==> self.usable(self.value(x).refs()[i]));

        }
        g
    }

    /// Removes the most recent root, which `guard` stands for: roots go in last-in, first-out
    /// order.
    pub fn unroot(&mut self, guard: RootGuard)
        requires
            old(self).wf(),
            old(self).roots().len() > 0,
            guard@ == old(self).roots().len() - 1,
        ensures
            final(self).wf(),
            final(self).roots() == old(self).roots().drop_last(),
            forall|a: usize| #[trigger] final(self).live(a) == old(self).live(a),
            forall|a: usize| old(self).live(a) ==> #[trigger] final(self).status(a) == old(self).status(a),
            forall|a: usize| #[trigger] final(self).usable(a) == old(self).usable(a),
            old(self).cells_kept(*final(self)),
            old(self).addresses_kept(*final(self)),
            final(self).graph() == old(self).graph(),
            final(self).phase() == old(self).phase(),
            final(self).next_id() == old(self).next_id(),
            final(self).cell_size() == old(self).cell_size(),
            final(self).total_allocated() == old(self).total_allocated(),
            final(self).wakeup_total() == old(self).wakeup_total(),
            final(self).allocation_debt() == old(self).allocation_debt(),
    {
        let ghost pre = *self;
        self.roots.pop();
        proof {
            assert(self.slots@ == pre.slots@);
            Self::lemma_frame(pre, *self, 0);
            assert(self.value(0) == pre.value(0));
            assert forall|x: usize| #[trigger] self.usable(x) == pre.usable(x) by {}
            assert(self.graph() =~= pre.graph());
            assert(forall|x: usize, i: int|
                #![trigger self.value(x).refs()[i]]
                self.usable(x) && 0 <= i < self.value(x).refs().len() ==> self.usable(self.value(x).refs()[i]));

            assert forall|i: int| 0 <= i < self.roots@.len() implies self.usable(#[trigger] self.roots@[i]) by {
                assert(pre.usable(pre.roots@[i]));
            }
            if self.phase == Phase::Mark {
                assert forall|i: int| 0 <= i < self.roots@.len() implies !self.status(#[trigger] self.roots@[i]).is_white() by {
                    assert(!pre.status(pre.roots@[i]).is_white());
                }
            }
        }
    }

    /// A weak reference to the cell of `p`.
    pub fn downgrade(&self, p: Gc<T>) -> (w: WeakGc<T>)
        requires
            self.live(p@),
        ensures
            w@ == (p@, self.id(p@)),
    {
        let a = p.address();
        let id = match &self.slots[a] {
            Some(b) => b.id,
            None => unreached(),
        };
        WeakGc::from_parts(a, id)
    }

    /// Whether the cell `w` observes is gone: freed, or white ahead of the sweep cursor.
    pub fn is_removed(&self, w: WeakGc<T>) -> (r: bool)
        requires
            self.wf(),
        ensures
            r == self.weak_removed(w@),
    {
        let a = w.address();
        if a >= self.slots.len() {
            return true;
        }
        match &self.slots[a] {
            Some(b) => {
                let doomed = self.phase == Phase::Sweep && self.sweep <= a && a < self.sweep_end
                    && (b.status == Status::Untraced || b.status == Status::MarkedWeak);
                b.id != w.id() || doomed
            },
            None => true,
        }
    }

    /// A handle to the cell `w` observes, or `None` once it is removed.
    pub fn upgrade(&self, w: WeakGc<T>) -> (r: Option<Gc<T>>)
        requires
            self.wf(),
        ensures
            r.is_some() == !self.weak_removed(w@),
            r.is_some() ==> r.unwrap()@ == w@.0,
    {
        if self.is_removed(w) {
            None
        } else {
            Some(Gc::new(w.address()))
        }
    }

    /// What the invariant says of the byte total and of the statuses between cycles: the
    /// total counts every live cell once, and while the collector sleeps or is about to wake
    /// every live cell is white.
    pub proof fn lemma_counters(&self)
        requires
            self.wf(),
        ensures
            self.total_allocated() == self.cell_size() * self.live_cells(),
            self.phase() == Phase::Sleep || self.phase() == Phase::Wake ==> forall|a: usize|
                #[trigger] self.live(a) ==> self.status(a) == Status::Untraced,
    {
    }

    /// While marking, no black cell references a white one: the property that the write
    /// barrier keeps through every mutation, so that marking misses no reachable cell.
    pub proof fn lemma_no_black_to_white(&self, a: usize, b: usize)
        requires
            self.wf(),
            self.phase() == Phase::Mark,
            self.live(a),
            self.status(a) == Status::Traced,
            self.value(a).refs().contains(b),
        ensures
            self.live(b),
            !self.status(b).is_white(),
    {
        let i = choose|i: int| 0 <= i < self.value(a).refs().len() && self.value(a).refs()[i] == b;
        assert(!self.status(self.value(a).refs()[i]).is_white());
        assert(self.usable(self.value(a).refs()[i]));
    }

    /// A weak reference is not removed while a path of strong references from a root reaches
    /// the cell it observes.
    pub proof fn lemma_weak_kept_while_reachable(&self, w: WeakGc<T>)
        requires
            self.wf(),
            self.reachable(w@.0),
            self.live(w@.0) && self.id(w@.0) == w@.1,
        ensures
            !self.weak_removed(w@),
    {
        self.lemma_reachable_usable(w@.0);
    }

    /// After a full collection, a weak reference whose cell no strong path reaches is removed.
    pub proof fn lemma_weak_removed_after_full(&self, w: WeakGc<T>)
        requires
            self.wf(),
            self.phase() == Phase::Sleep,
            forall|a: usize| #[trigger] self.live(a) == self.reachable(a),
            !self.reachable(w@.0),
        ensures
            self.weak_removed(w@),
    {
        assert(!self.live(w@.0));
    }

    /// The current phase of the collector.
    pub fn current_phase(&self) -> (r: Phase)
        ensures
            r == self.phase(),
    {
        self.phase
    }

    /// The bytes accounted to live cells.
    pub fn allocated_bytes(&self) -> (r: usize)
        ensures
            r == self.total_allocated(),
    {
        self.total_allocated
    }

    /// The allocated total past which the sleeping collector wakes.
    pub fn wakeup_threshold(&self) -> (r: usize)
        ensures
            r == self.wakeup_total(),
    {
        self.wakeup_total
    }

    /// The work the collector owes.
    pub fn debt(&self) -> (r: usize)
        ensures
            r == self.allocation_debt(),
    {
        self.allocation_debt
    }

    /// The bytes each cell accounts for.
    pub fn cell_bytes(&self) -> (r: usize)
        ensures
            r == self.cell_size(),
    {
        self.cell_size
    }

    /// The number of roots.
    pub fn root_count(&self) -> (r: usize)
        ensures
            r == self.roots().len(),
    {
        self.roots.len()
    }

    /// Whether a cell lives at the address of `p`.
    pub fn is_live(&self, p: Gc<T>) -> (r: bool)
        ensures
            r == self.live(p@),
    {
        let a = p.address();
        a < self.slots.len() && self.slots[a].is_some()
    }

    /// Borrows the payload of a live cell.
    pub fn borrow(&self, p: Gc<T>) -> (r: &T)
        requires
            self.live(p@),
        ensures
            *r == self.value(p@),
    {
        match &self.slots[p.address()] {
            Some(b) => &b.value,
            None => unreached(),
        }
    }
}

} // verus!
