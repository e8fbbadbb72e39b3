use hulunbuir::slot::{Slot, Take};
use hulunbuir::{Address, Collector, MemoryError};

fn take_free(collector: &mut Collector<Slot<Vec<Address>>>, address: &Address) -> Vec<Address> {
    match collector.take(address).unwrap() {
        Take::Free(value) => value,
        Take::Busy(_) => panic!("the slot was expected to be free"),
    }
}

#[test]
fn slot_list_example() {
    let mut collector = Collector::<Slot<Vec<Address>>>::new(128);
    let root = collector.allocate(Slot::new(Vec::new())).unwrap();
    collector.set_root(root);
    let tail = collector.allocate(Slot::new(Vec::new())).unwrap();
    let mut root_node = take_free(&mut collector, &root);
    root_node.push(tail);
    assert_eq!(collector.fill(&root, root_node), Ok(()));
    let _orphan = collector.allocate(Slot::new(Vec::new())).unwrap();
    assert_eq!(collector.alive_count(), 3);
    assert_eq!(collector.collect(), Ok(()));
    assert_eq!(collector.alive_count(), 2);
}

#[test]
fn busy_slot_keeps_edges_of_taken_value() {
    let mut collector = Collector::<Slot<Vec<Address>>>::new(8);
    let grandchild = collector.allocate(Slot::new(Vec::new())).unwrap();
    let child = collector.allocate(Slot::new(vec![grandchild])).unwrap();
    let root = collector.allocate(Slot::new(vec![child])).unwrap();
    collector.set_root(root);
    let _orphan = collector.allocate(Slot::new(Vec::new())).unwrap();
    let taken = take_free(&mut collector, &child);
    assert_eq!(taken, vec![grandchild]);
    assert_eq!(collector.collect(), Ok(()));
    assert_eq!(collector.alive_count(), 3);
    assert_eq!(collector.fill(&child, Vec::new()), Ok(()));
    assert_eq!(collector.collect(), Ok(()));
    assert_eq!(collector.alive_count(), 2);
}

#[test]
fn second_take_gets_a_wait_handle_and_fill_wakes_it() {
    let mut collector = Collector::<Slot<Vec<Address>>>::new(4);
    let x = collector.allocate(Slot::new(Vec::new())).unwrap();
    let first = take_free(&mut collector, &x);
    assert!(first.is_empty());
    let parker = match collector.take(&x).unwrap() {
        Take::Free(_) => panic!("a busy slot handed out a value"),
        Take::Busy(parker) => parker,
    };
    let v2 = vec![x];
    assert_eq!(collector.fill(&x, v2), Ok(()));
    parker.park();
    let again = take_free(&mut collector, &x);
    assert_eq!(again, vec![x]);
}

#[test]
fn every_waiter_is_woken() {
    let mut collector = Collector::<Slot<Vec<Address>>>::new(4);
    let x = collector.allocate(Slot::new(Vec::new())).unwrap();
    let _value = take_free(&mut collector, &x);
    let mut parkers = Vec::new();
    for _ in 0..3 {
        match collector.take(&x).unwrap() {
            Take::Free(_) => panic!("a busy slot handed out a value"),
            Take::Busy(parker) => parkers.push(parker),
        }
    }
    assert_eq!(collector.fill(&x, Vec::new()), Ok(()));
    for parker in parkers {
        parker.park();
    }
}

#[test]
fn fill_of_free_slot_is_duplicated_filling() {
    let mut collector = Collector::<Slot<Vec<Address>>>::new(4);
    let y = collector.allocate(Slot::new(Vec::new())).unwrap();
    let x = collector.allocate(Slot::new(vec![y])).unwrap();
    assert_eq!(collector.fill(&x, Vec::new()), Err(MemoryError::DuplicatedFilling));
    let value = take_free(&mut collector, &x);
    assert_eq!(value, vec![y]);
    assert_eq!(collector.fill(&x, value), Ok(()));
    assert_eq!(collector.fill(&x, vec![x]), Err(MemoryError::DuplicatedFilling));
    let value = take_free(&mut collector, &x);
    assert_eq!(value, vec![y]);
    assert_eq!(collector.fill(&x, value), Ok(()));
    assert_eq!(collector.alive_count(), 2);
}

#[test]
fn take_and_fill_of_missing_object_are_invalid() {
    let mut collector = Collector::<Slot<Vec<Address>>>::new(4);
    let x = collector.allocate(Slot::new(Vec::new())).unwrap();
    assert_eq!(collector.collect(), Ok(()));
    assert!(matches!(collector.take(&x), Err(MemoryError::InvalidAddress)));
    assert_eq!(collector.fill(&x, Vec::new()), Err(MemoryError::InvalidAddress));
    assert_eq!(collector.alive_count(), 0);
}

#[test]
fn take_then_fill_with_same_value_restores_slot() {
    let mut collector = Collector::<Slot<Vec<Address>>>::new(4);
    let y = collector.allocate(Slot::new(Vec::new())).unwrap();
    let x = collector.allocate(Slot::new(vec![y])).unwrap();
    collector.set_root(x);
    let value = take_free(&mut collector, &x);
    assert_eq!(collector.fill(&x, value), Ok(()));
    assert_eq!(collector.collect(), Ok(()));
    assert_eq!(collector.alive_count(), 2);
    assert_eq!(take_free(&mut collector, &x), vec![y]);
}

#[test]
fn refilled_slot_caches_new_edges_on_next_take() {
    let mut collector = Collector::<Slot<Vec<Address>>>::new(4);
    let x = collector.allocate(Slot::new(Vec::new())).unwrap();
    let y = collector.allocate(Slot::new(Vec::new())).unwrap();
    collector.set_root(x);
    let _first = take_free(&mut collector, &x);
    assert_eq!(collector.fill(&x, vec![y]), Ok(()));
    let _second = take_free(&mut collector, &x);
    assert_eq!(collector.collect(), Ok(()));
    assert_eq!(collector.alive_count(), 2);
    assert!(matches!(collector.take(&y), Ok(Take::Free(_))));
}
