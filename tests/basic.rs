use dreck::{Arena, Gc, Marker, Trace};

pub struct Container(Option<Gc<Container>>);

impl Trace for Container {
    fn needs_trace() -> bool {
        true
    }

    fn trace(&self, marker: &mut Marker) {
        self.0.trace(marker)
    }
}

#[test]
fn basic() {
    let mut arena: Arena<Container> = Arena::new();

    let ptr = arena.add(Container(None));
    let ptr = arena.add(Container(Some(ptr)));

    let _guard = arena.root(ptr);

    arena.collect_full();

    assert!(arena.borrow(ptr).0.is_some());
}

fn coerce_same<T>(_a: Gc<T>, _b: Gc<T>) {}

#[test]
fn test_covariant() {
    let mut arena: Arena<i32> = Arena::new();

    let ptr = arena.add(0);
    let ptr_rooted = arena.add(0);

    let _guard = arena.root(ptr_rooted);

    coerce_same(ptr, ptr_rooted);
}

#[test]
fn coerce_same_container() {
    let mut arena: Arena<Container> = Arena::new();

    let ptr = arena.add(Container(None));
    let ptr = arena.add(Container(Some(ptr)));
    let ptr_rooted = arena.add(Container(None));
    let ptr_rooted = arena.add(Container(Some(ptr_rooted)));

    let _guard = arena.root(ptr_rooted);

    coerce_same(ptr, ptr_rooted);
}
