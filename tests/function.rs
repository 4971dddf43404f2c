use dreck::{Arena, Gc, Marker, Trace};

fn alloc_mut(arena: &mut Arena<u32>) -> Gc<u32> {
    arena.add(0 as u32)
}

#[test]
fn allocate() {
    let mut root: Arena<i32> = Arena::new();

    let a = root.add(1i32);

    *root.borrow_mut_untraced(a) += 1;

    assert_eq!(*root.borrow(a), 2);
}

#[test]
fn collect() {
    let mut root: Arena<i32> = Arena::new();

    let a = root.add(1i32);

    *root.borrow_mut_untraced(a) += 1;

    assert_eq!(*root.borrow(a), 2);
    root.collect_full();
}

#[test]
fn root() {
    let mut root: Arena<i32> = Arena::new();

    let a = root.add(1i32);
    let _guard = root.root(a);
    let b = a;

    *root.borrow_mut_untraced(b) += 1;

    root.collect_full();

    assert_eq!(*root.borrow(b), 2);
}

#[test]
fn rebind_root() {
    let mut root: Arena<u32> = Arena::new();

    let a = alloc_mut(&mut root);
    let b = root.add(1u32);

    *root.borrow_mut_untraced(a) += 1;

    assert_eq!(*root.borrow(a), *root.borrow(b));
}

pub struct Container(Option<Gc<Container>>);

impl Trace for Container {
    fn needs_trace() -> bool {
        true
    }

    fn trace(&self, trace: &mut Marker) {
        self.0.trace(trace)
    }
}

#[test]
fn container_trace() {
    let mut root: Arena<Container> = Arena::new();

    let mut container = Container(None);

    for _ in 0..20 {
        let alloc = root.add(container);
        container = Container(Some(alloc))
    }
    let alloc = root.add(container);
    let _guard = root.root(alloc);

    root.collect_full();

    assert!(root.borrow(alloc).0.is_some())
}
