use std::cell::Cell;
use std::rc::Rc;

use dreck::{Arena, Gc, Marker, Phase, Trace, WeakGc};

struct Node {
    kids: Vec<Gc<Node>>,
    watch: Option<WeakGc<Node>>,
    drops: Rc<Cell<usize>>,
}

impl Node {
    fn new(kids: Vec<Gc<Node>>, drops: &Rc<Cell<usize>>) -> Node {
        Node { kids, watch: None, drops: drops.clone() }
    }
}

impl Drop for Node {
    fn drop(&mut self) {
        self.drops.set(self.drops.get() + 1);
    }
}

impl Trace for Node {
    fn needs_trace() -> bool {
        true
    }

    fn trace(&self, marker: &mut Marker) {
        self.kids.trace(marker);
        self.watch.trace(marker);
    }
}

fn rank(p: Phase) -> usize {
    match p {
        Phase::Wake => 1,
        Phase::Mark => 2,
        Phase::Sweep => 3,
        Phase::Sleep => 4,
    }
}

#[test]
fn allocate_then_read() {
    let mut arena: Arena<i32> = Arena::new();
    let p = arena.add(1);
    assert_eq!(*arena.borrow(p), 1);
    assert_eq!(arena.current_phase(), Phase::Sleep);
}

#[test]
fn untraced_mutation_survives_full_collection() {
    let mut arena: Arena<i32> = Arena::new();
    let p = arena.add(1);
    *arena.borrow_mut_untraced(p) += 1;
    assert_eq!(*arena.borrow(p), 2);
    let _g = arena.root(p);
    arena.collect_full();
    assert_eq!(*arena.borrow(p), 2);
}

#[test]
fn rooted_cell_survives_full_collection() {
    let mut arena: Arena<i32> = Arena::new();
    let p = arena.add(1);
    let _g = arena.root(p);
    arena.collect_full();
    assert!(arena.is_live(p));
    assert_eq!(*arena.borrow(p), 1);
}

#[test]
fn unreachable_cycle_is_freed() {
    let drops = Rc::new(Cell::new(0));
    let mut arena: Arena<Node> = Arena::new();
    let keep = arena.add(Node::new(vec![], &drops));
    let _g = arena.root(keep);
    let a = arena.add(Node::new(vec![], &drops));
    let b = arena.add(Node::new(vec![a], &drops));
    let old = arena.replace(a, Node::new(vec![b], &drops));
    drop(old);
    assert_eq!(drops.get(), 1);
    arena.collect_full();
    assert_eq!(drops.get(), 3);
    assert!(!arena.is_live(a));
    assert!(!arena.is_live(b));
    assert!(arena.is_live(keep));
}

#[test]
fn chain_survives_when_head_rooted() {
    let drops = Rc::new(Cell::new(0));
    let mut arena: Arena<Node> = Arena::new();
    let mut head = arena.add(Node::new(vec![], &drops));
    for _ in 1..20 {
        head = arena.add(Node::new(vec![head], &drops));
    }
    let _g = arena.root(head);
    arena.collect_full();
    let mut count = 1;
    let mut cur = head;
    while let Some(&next) = arena.borrow(cur).kids.first() {
        cur = next;
        count += 1;
    }
    assert_eq!(count, 20);
    assert_eq!(drops.get(), 0);
}

#[test]
fn weak_upgrade_fails_after_sweep() {
    let drops = Rc::new(Cell::new(0));
    let mut arena: Arena<Node> = Arena::new();
    let n = arena.add(Node::new(vec![], &drops));
    let w = arena.downgrade(n);
    assert!(!arena.is_removed(w));
    arena.collect_full();
    assert!(arena.upgrade(w).is_none());
    assert!(arena.is_removed(w));
    assert_eq!(drops.get(), 1);
}

#[test]
fn weak_kept_while_strongly_reachable() {
    let drops = Rc::new(Cell::new(0));
    let mut arena: Arena<Node> = Arena::new();
    let target = arena.add(Node::new(vec![], &drops));
    let w = arena.downgrade(target);
    let holder = arena.add(Node::new(vec![target], &drops));
    let _g = arena.root(holder);
    arena.collect_full();
    assert!(!arena.is_removed(w));
    let up = arena.upgrade(w).unwrap();
    assert!(up.ptr_eq(target));
    assert_eq!(w.address(), target.address());
}

#[test]
fn weak_reference_does_not_keep_alive() {
    let drops = Rc::new(Cell::new(0));
    let mut arena: Arena<Node> = Arena::new();
    let target = arena.add(Node::new(vec![], &drops));
    let w = arena.downgrade(target);
    let mut holder = Node::new(vec![], &drops);
    holder.watch = Some(w);
    let holder = arena.add(holder);
    let _g = arena.root(holder);
    arena.collect_full();
    assert!(arena.is_removed(w));
    assert!(arena.is_live(holder));
}

#[test]
fn every_cell_is_dropped_once() {
    let drops = Rc::new(Cell::new(0));
    {
        let mut arena: Arena<Node> = Arena::new();
        let mut last = arena.add(Node::new(vec![], &drops));
        for i in 0..9 {
            let kids = if i % 2 == 0 { vec![last] } else { vec![] };
            last = arena.add(Node::new(kids, &drops));
        }
        let _g = arena.root(last);
        arena.collect_full();
        let freed = drops.get();
        assert!(freed > 0);
        arena.collect_full();
        assert_eq!(drops.get(), freed);
    }
    assert_eq!(drops.get(), 10);
}

#[test]
fn freed_slot_reused_without_confusing_weak_refs() {
    let mut arena: Arena<u64> = Arena::new();
    let keep = arena.add(7);
    let _g = arena.root(keep);
    let gone = arena.add(8);
    let w = arena.downgrade(gone);
    let addr = keep.address();
    arena.collect_full();
    let fresh = arena.add(9);
    assert_eq!(fresh.address(), gone.address());
    assert!(arena.is_removed(w));
    assert!(arena.upgrade(w).is_none());
    assert_eq!(keep.address(), addr);
    assert_eq!(*arena.borrow(keep), 7);
    assert_eq!(*arena.borrow(fresh), 9);
}

#[test]
fn phases_advance_in_order() {
    let mut arena: Arena<u64> = Arena::new();
    let keep = arena.add(1);
    let _g = arena.root(keep);
    while arena.current_phase() == Phase::Sleep {
        arena.add(0);
    }
    assert_eq!(arena.current_phase(), Phase::Wake);
    let mut last = rank(arena.current_phase());
    let mut seen = vec![arena.current_phase()];
    while arena.current_phase() != Phase::Sleep {
        arena.collect();
        let now = rank(arena.current_phase());
        assert!(now >= last);
        last = now;
        seen.push(arena.current_phase());
        arena.add(0);
    }
    assert_eq!(seen.last(), Some(&Phase::Sleep));
    assert!(arena.is_live(keep));
}

#[test]
fn collect_does_nothing_while_asleep() {
    let mut arena: Arena<u64> = Arena::new();
    let p = arena.add(1);
    arena.collect();
    assert_eq!(arena.current_phase(), Phase::Sleep);
    assert!(arena.is_live(p));
    assert_eq!(arena.debt(), 0);
}

#[test]
fn barrier_keeps_edge_added_while_marking() {
    let drops = Rc::new(Cell::new(0));
    let mut arena: Arena<Node> = Arena::new();
    let mut chain = arena.add(Node::new(vec![], &drops));
    for _ in 0..200 {
        chain = arena.add(Node::new(vec![chain], &drops));
    }
    let root = arena.add(Node::new(vec![chain], &drops));
    let _g = arena.root(root);
    arena.collect_full();
    while arena.current_phase() == Phase::Sleep {
        arena.add(Node::new(vec![], &drops));
    }
    // one allocation's debt covers the wake-up and the root, not the whole chain
    arena.collect();
    assert_eq!(arena.current_phase(), Phase::Mark);
    let fresh = arena.add(Node::new(vec![], &drops));
    let old = arena.replace(root, Node::new(vec![chain, fresh], &drops));
    drop(old);
    while arena.current_phase() != Phase::Sleep {
        arena.collect();
        arena.add(Node::new(vec![], &drops));
    }
    assert!(arena.is_live(fresh));
    assert_eq!(arena.borrow(root).kids.len(), 2);
    arena.collect_full();
    assert!(arena.is_live(fresh));
}

#[test]
fn wakeup_threshold_after_small_cycle() {
    let mut arena: Arena<u64> = Arena::new();
    let a = arena.add(1);
    let b = arena.add(2);
    let _ga = arena.root(a);
    let _gb = arena.root(b);
    arena.add(3);
    arena.collect_full();
    let size = arena.cell_bytes();
    assert_eq!(arena.allocated_bytes(), 2 * size);
    assert_eq!(arena.wakeup_threshold(), 2 * size + 4096);
    assert_eq!(arena.debt(), 0);
}

#[test]
fn wakeup_threshold_after_large_cycle() {
    let mut arena: Arena<u64> = Arena::new();
    let mut guards = Vec::new();
    for i in 0..1000u64 {
        let p = arena.add(i);
        guards.push(arena.root(p));
    }
    arena.collect_full();
    let size = arena.cell_bytes();
    let remembered = 1000 * size;
    assert!(remembered / 2 > 4096);
    assert_eq!(arena.allocated_bytes(), remembered);
    assert_eq!(arena.wakeup_threshold(), remembered + (remembered + 1) / 2);
    while let Some(g) = guards.pop() {
        arena.unroot(g);
    }
    arena.collect_full();
    assert_eq!(arena.allocated_bytes(), 0);
    assert_eq!(arena.root_count(), 0);
}

#[test]
fn waking_allocation_adds_debt() {
    let mut arena: Arena<u64> = Arena::new();
    assert_eq!(arena.wakeup_threshold(), 4096);
    let size = arena.cell_bytes();
    let mut n = 0;
    while arena.current_phase() == Phase::Sleep {
        arena.add(0);
        n += 1;
    }
    assert_eq!(n, 4096 / size + 1);
    assert_eq!(arena.allocated_bytes(), n * size);
    assert_eq!(arena.debt(), size + size * 2 / 3);
    arena.add(0);
    assert_eq!(arena.debt(), 2 * (size + size * 2 / 3));
}

#[test]
fn roots_removed_last_in_first_out() {
    let mut arena: Arena<u64> = Arena::new();
    let a = arena.add(1);
    let b = arena.add(2);
    let ga = arena.root(a);
    let gb = arena.root(b);
    assert_eq!(arena.root_count(), 2);
    arena.unroot(gb);
    arena.collect_full();
    assert!(arena.is_live(a));
    assert!(!arena.is_live(b));
    arena.unroot(ga);
    arena.collect_full();
    assert!(!arena.is_live(a));
}

#[test]
fn needs_trace_by_type() {
    assert!(!<u32 as Trace>::needs_trace());
    assert!(!<Vec<String> as Trace>::needs_trace());
    assert!(<Option<Gc<u8>> as Trace>::needs_trace());
    assert!(<Vec<WeakGc<u8>> as Trace>::needs_trace());
}

#[test]
fn pointer_identity() {
    let mut arena: Arena<u8> = Arena::new();
    let a = arena.add(1);
    let b = arena.add(1);
    assert!(a.ptr_eq(a));
    assert!(!a.ptr_eq(b));
    assert_ne!(a.address(), b.address());
}

#[test]
fn borrow_mut_installs_edge() {
    let drops = Rc::new(Cell::new(0));
    let mut arena: Arena<Node> = Arena::new();
    let a = arena.add(Node::new(vec![], &drops));
    let _g = arena.root(a);
    let b = arena.add(Node::new(vec![], &drops));
    arena.borrow_mut(a).kids.push(b);
    arena.collect_full();
    assert!(arena.is_live(b));
    assert_eq!(arena.borrow(a).kids.len(), 1);
    arena.borrow_mut(a).kids.clear();
    arena.collect_full();
    assert!(!arena.is_live(b));
    assert_eq!(drops.get(), 1);
}

#[test]
fn borrow_mut_barrier_while_marking() {
    let drops = Rc::new(Cell::new(0));
    let mut arena: Arena<Node> = Arena::new();
    let mut chain = arena.add(Node::new(vec![], &drops));
    for _ in 0..200 {
        chain = arena.add(Node::new(vec![chain], &drops));
    }
    let root = arena.add(Node::new(vec![chain], &drops));
    let _g = arena.root(root);
    arena.collect_full();
    while arena.current_phase() == Phase::Sleep {
        arena.add(Node::new(vec![], &drops));
    }
    arena.collect();
    assert_eq!(arena.current_phase(), Phase::Mark);
    let fresh = arena.add(Node::new(vec![], &drops));
    arena.borrow_mut(root).kids.push(fresh);
    while arena.current_phase() != Phase::Sleep {
        arena.collect();
        arena.add(Node::new(vec![], &drops));
    }
    assert!(arena.is_live(fresh));
}

struct Slots(Vec<Result<Option<Gc<Slots>>, u32>>);

impl Trace for Slots {
    fn needs_trace() -> bool {
        <Vec<Result<Option<Gc<Slots>>, u32>> as Trace>::needs_trace()
    }

    fn trace(&self, marker: &mut Marker) {
        self.0.trace(marker)
    }
}

#[test]
fn container_payloads_are_traced() {
    let mut arena: Arena<Slots> = Arena::new();
    let leaf = arena.add(Slots(vec![]));
    let other = arena.add(Slots(vec![Err(3)]));
    let mid = arena.add(Slots(vec![Ok(None), Ok(Some(leaf)), Err(7)]));
    let top = arena.add(Slots(vec![Ok(Some(mid))]));
    let _g = arena.root(top);
    arena.collect_full();
    assert!(arena.is_live(top));
    assert!(arena.is_live(mid));
    assert!(arena.is_live(leaf));
    assert!(!arena.is_live(other));
    assert_eq!(arena.borrow(mid).0.len(), 3);
}

#[test]
fn cell_allocated_during_sweep_survives_it() {
    let mut arena: Arena<u64> = Arena::new();
    let keep = arena.add(1);
    let _g = arena.root(keep);
    for i in 0..300u64 {
        arena.add(i);
    }
    arena.collect_full();
    let mut watched = Vec::new();
    for i in 0..300u64 {
        let p = arena.add(i);
        watched.push(arena.downgrade(p));
    }
    while arena.current_phase() == Phase::Sleep {
        arena.add(0);
    }
    while arena.current_phase() != Phase::Sweep {
        assert_ne!(arena.current_phase(), Phase::Sleep);
        arena.collect();
        arena.add(0);
    }
    let fresh = arena.add(5);
    while arena.current_phase() != Phase::Sleep {
        arena.collect();
        arena.add(0);
    }
    assert!(arena.is_live(fresh));
    assert_eq!(*arena.borrow(fresh), 5);
    assert!(arena.is_live(keep));
    for w in watched.iter() {
        assert!(arena.is_removed(*w));
    }
    assert_eq!(arena.allocated_bytes() % arena.cell_bytes(), 0);
}
