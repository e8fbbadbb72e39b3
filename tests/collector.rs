use hulunbuir::error::Error;
use hulunbuir::{Address, Collector, MemoryError};

fn keep(collector: &mut Collector<Vec<Address>>, from: &Address, to: &Address) {
    let mut node = collector.replace(from, Vec::new()).unwrap();
    node.push(*to);
    assert!(collector.replace(from, node).is_ok());
}

#[test]
fn new_collector_is_empty() {
    let collector: Collector<Vec<Address>> = Collector::<Vec<Address>>::new(4);
    assert_eq!(collector.alive_count(), 0);
    assert_eq!(*collector.root(), None);
}

#[test]
fn list_example() {
    let mut collector = Collector::<Vec<Address>>::new(128);
    let root = collector.allocate(Vec::new()).unwrap();
    collector.set_root(root);
    let tail = collector.allocate(Vec::new()).unwrap();
    let mut root_node = collector.replace(&root, Vec::new()).unwrap();
    root_node.push(tail);
    assert!(collector.replace(&root, root_node).is_ok());
    let _orphan = collector.allocate(Vec::new()).unwrap();
    assert_eq!(collector.alive_count(), 3);
    assert_eq!(collector.collect(), Ok(()));
    assert_eq!(collector.alive_count(), 2);
}

#[test]
fn collect_keeps_exactly_reachable() {
    let mut collector = Collector::<Vec<Address>>::new(8);
    let a = collector.allocate(Vec::new()).unwrap();
    let b = collector.allocate(Vec::new()).unwrap();
    let c = collector.allocate(Vec::new()).unwrap();
    collector.set_root(a);
    keep(&mut collector, &a, &b);
    assert_eq!(collector.collect(), Ok(()));
    assert_eq!(collector.alive_count(), 2);
    assert!(collector.replace(&c, Vec::new()).is_err());
    assert_eq!(collector.replace(&c, Vec::new()).err(), Some(MemoryError::InvalidAddress));
    let kept = collector.replace(&a, Vec::new()).unwrap();
    assert_eq!(kept, vec![b]);
    assert!(collector.replace(&b, Vec::new()).is_ok());
}

#[test]
fn collect_twice_gives_same_count() {
    let mut collector = Collector::<Vec<Address>>::new(8);
    let a = collector.allocate(Vec::new()).unwrap();
    let b = collector.allocate(Vec::new()).unwrap();
    let _c = collector.allocate(Vec::new()).unwrap();
    let _d = collector.allocate(Vec::new()).unwrap();
    collector.set_root(a);
    keep(&mut collector, &a, &b);
    assert_eq!(collector.collect(), Ok(()));
    let first = collector.alive_count();
    assert_eq!(collector.collect(), Ok(()));
    assert_eq!(collector.alive_count(), first);
    assert_eq!(first, 2);
}

#[test]
fn cycle_survives_and_collect_ends() {
    let mut collector = Collector::<Vec<Address>>::new(8);
    let root = collector.allocate(Vec::new()).unwrap();
    let x = collector.allocate(Vec::new()).unwrap();
    let y = collector.allocate(Vec::new()).unwrap();
    collector.set_root(root);
    keep(&mut collector, &root, &x);
    keep(&mut collector, &x, &y);
    keep(&mut collector, &y, &x);
    assert_eq!(collector.collect(), Ok(()));
    assert_eq!(collector.alive_count(), 3);
    assert!(collector.replace(&x, vec![y]).is_ok());
    assert!(collector.replace(&y, vec![x]).is_ok());
}

#[test]
fn unreachable_cycle_is_dropped() {
    let mut collector = Collector::<Vec<Address>>::new(8);
    let root = collector.allocate(Vec::new()).unwrap();
    let x = collector.allocate(Vec::new()).unwrap();
    let y = collector.allocate(Vec::new()).unwrap();
    collector.set_root(root);
    keep(&mut collector, &x, &y);
    keep(&mut collector, &y, &x);
    assert_eq!(collector.collect(), Ok(()));
    assert_eq!(collector.alive_count(), 1);
}

#[test]
fn self_keeping_root_survives() {
    let mut collector = Collector::<Vec<Address>>::new(2);
    let root = collector.allocate(Vec::new()).unwrap();
    collector.set_root(root);
    keep(&mut collector, &root, &root);
    assert_eq!(collector.collect(), Ok(()));
    assert_eq!(collector.alive_count(), 1);
}

#[test]
fn unrooted_collect_drops_everything() {
    let mut collector = Collector::<Vec<Address>>::new(16);
    for _ in 0..5 {
        assert!(collector.allocate(Vec::new()).is_ok());
    }
    assert_eq!(collector.alive_count(), 5);
    assert_eq!(collector.collect(), Ok(()));
    assert_eq!(collector.alive_count(), 0);
}

#[test]
fn unrooted_collect_on_empty_table() {
    let mut collector: Collector<Vec<Address>> = Collector::<Vec<Address>>::new(0);
    assert_eq!(collector.collect(), Ok(()));
    assert_eq!(collector.alive_count(), 0);
}

#[test]
fn full_unrooted_table_is_reclaimed_on_allocate() {
    let mut collector = Collector::<Vec<Address>>::new(3);
    for _ in 0..3 {
        assert!(collector.allocate(Vec::new()).is_ok());
    }
    assert_eq!(collector.alive_count(), 3);
    assert!(collector.allocate(Vec::new()).is_ok());
    assert_eq!(collector.alive_count(), 1);
}

#[test]
fn full_table_with_nothing_collectable_is_out_of_slots() {
    let mut collector = Collector::<Vec<Address>>::new(2);
    let a = collector.allocate(Vec::new()).unwrap();
    let b = collector.allocate(Vec::new()).unwrap();
    collector.set_root(a);
    keep(&mut collector, &a, &b);
    assert_eq!(collector.allocate(Vec::new()), Err(MemoryError::OutOfSlots));
    assert_eq!(collector.alive_count(), 2);
}

#[test]
fn partly_collectable_full_table_admits_allocation() {
    let mut collector = Collector::<Vec<Address>>::new(3);
    let a = collector.allocate(Vec::new()).unwrap();
    let _b = collector.allocate(Vec::new()).unwrap();
    let _c = collector.allocate(Vec::new()).unwrap();
    collector.set_root(a);
    let d = collector.allocate(Vec::new()).unwrap();
    assert_eq!(collector.alive_count(), 2);
    assert!(collector.replace(&d, Vec::new()).is_ok());
}

#[test]
fn zero_capacity_is_out_of_slots() {
    let mut collector = Collector::<Vec<Address>>::new(0);
    assert_eq!(collector.allocate(Vec::new()), Err(Error::OutOfSlots));
    assert_eq!(collector.alive_count(), 0);
}

#[test]
fn stale_root_fails_collect_and_changes_nothing() {
    let mut collector = Collector::<Vec<Address>>::new(4);
    let a = collector.allocate(Vec::new()).unwrap();
    assert_eq!(collector.collect(), Ok(()));
    let _b = collector.allocate(Vec::new()).unwrap();
    collector.set_root(a);
    assert_eq!(*collector.root(), Some(a));
    assert_eq!(collector.collect(), Err(MemoryError::InvalidAddress));
    assert_eq!(collector.alive_count(), 1);
}

#[test]
fn dangling_edge_fails_collect() {
    let mut collector = Collector::<Vec<Address>>::new(4);
    let gone = collector.allocate(Vec::new()).unwrap();
    assert_eq!(collector.collect(), Ok(()));
    let root = collector.allocate(vec![gone]).unwrap();
    let _other = collector.allocate(Vec::new()).unwrap();
    collector.set_root(root);
    assert_eq!(collector.collect(), Err(MemoryError::InvalidAddress));
    assert_eq!(collector.alive_count(), 2);
}

#[test]
fn allocate_passes_on_collect_error() {
    let mut unrooted = Collector::<Vec<Address>>::new(1);
    let first = unrooted.allocate(Vec::new()).unwrap();
    assert_eq!(unrooted.collect(), Ok(()));
    let second = unrooted.allocate(vec![first]).unwrap();
    unrooted.set_root(second);
    assert_eq!(unrooted.allocate(Vec::new()), Err(MemoryError::InvalidAddress));
    assert_eq!(unrooted.alive_count(), 1);
}

#[test]
fn addresses_are_never_reused() {
    let mut collector = Collector::<Vec<Address>>::new(1);
    let first = collector.allocate(Vec::new()).unwrap();
    let second = collector.allocate(Vec::new()).unwrap();
    assert_ne!(first, second);
    assert_eq!(collector.replace(&first, Vec::new()).err(), Some(MemoryError::InvalidAddress));
    assert!(collector.replace(&second, Vec::new()).is_ok());
}

#[test]
fn replace_hands_back_the_old_value() {
    let mut collector = Collector::<Vec<Address>>::new(4);
    let a = collector.allocate(Vec::new()).unwrap();
    let b = collector.allocate(vec![a]).unwrap();
    let old = collector.replace(&b, Vec::new()).unwrap();
    assert_eq!(old, vec![a]);
    let now = collector.replace(&b, vec![b]).unwrap();
    assert!(now.is_empty());
    assert_eq!(collector.alive_count(), 2);
}
