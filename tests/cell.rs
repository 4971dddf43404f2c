use dreck::{CellOwner, Invariant, LCell};

#[test]
fn cell() {
    let mut owner = CellOwner::new(Invariant::new());
    let mut c1 = LCell::new(1);
    *c1.borrow_mut(&mut owner) += 1;
    assert_eq!(*c1.borrow(&owner), 2);
}

#[test]
fn cell_owner_reads_and_writes() {
    let mut owner = CellOwner::new(Invariant::new());
    let mut c = LCell::new(String::from("a"));
    owner.borrow_mut(&mut c).push('b');
    assert_eq!(owner.borrow(&c), "ab");
    assert_eq!(c.get(), "ab");
}
