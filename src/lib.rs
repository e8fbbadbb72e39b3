//! A tracing garbage collector over an address-indirection table.
//!
//! Managed values live in a bounded table owned by a [`Collector`] and refer to each
//! other only through [`Address`] handles. A value reports the handles it holds through
//! [`Keep`]; [`Collector::collect`] keeps exactly what is reachable from the root and
//! drops the rest. The [`slot`] module adds a take/fill protocol on top of
//! [`Collector::replace`] for values that are detached and mutated by other threads.

pub mod error;
pub mod graph;
pub mod slot;

use std::collections::HashMap;
use std::collections::HashSet;
use vstd::prelude::*;

verus! {

broadcast use vstd::std_specs::hash::group_hash_axioms;

/// Virtual memory address token: a stable handle of one table entry.
#[derive(Clone, Copy, Debug, PartialEq, Eq, Structural, Hash)]
pub struct Address(usize);

impl Address {
    /// The id under which the entry is stored; ids are never reused by a collector.
    pub closed spec fn id(self) -> usize {
        self.0
    }
}

/// Required trait for the type of managed values.
///
/// A value reports the addresses of the objects it keeps alive. Whenever the value is
/// itself considered alive during a collecting pass, all of those objects are too. An
/// implementation defines `keeps` and proves that `keep_list` returns it.
pub trait Keep {
    /// The addresses this value directly holds right now: what `keep_list` returns.
    spec fn keeps(&self) -> Seq<Address>;

    /// Lists the addresses this value directly holds. Every address reported must
    /// belong to an alive object, or collecting fails with `InvalidAddress`.
    fn keep_list(&self) -> (r: Vec<Address>)
        ensures
            r@ == self.keeps(),
    ;
}

/// A plain list of addresses keeps exactly the objects it lists.
impl Keep for Vec<Address> {
    open spec fn keeps(&self) -> Seq<Address> {
        self@
    }

    fn keep_list(&self) -> (r: Vec<Address>) {
        let mut r: Vec<Address> = Vec::new();
        let mut i: usize = 0;
        while i < self.len()
            invariant
                i <= self@.len(),
                r@ == self@.take(i as int),
            decreases self.len() - i,
        {
            r.push(self[i]);
            i += 1;
            proof {
                assert(r@ =~= self@.take(i as int));
            }
        }
        proof {
            assert(r@ =~= self@);
        }
        r
    }
}

/// Errors reported by a collector.
#[derive(Clone, Copy, Debug, PartialEq, Eq, Structural)]
pub enum MemoryError {
    /// Alive objects count reaches the capacity given to `Collector::new`, and no
    /// object is collectable.
    OutOfSlots,
    /// Trying to access an object with an invalid address.
    InvalidAddress,
    /// Filling a slot that is not taken. See the `slot` module.
    DuplicatedFilling,
}

/// Memory manager for allocation and garbage collection.
///
/// The collector does no locking of its own. Shared between threads, it sits behind
/// one lock and every operation runs inside it; a value that a thread works on outside
/// the lock is detached with the take/fill protocol of the `slot` module, never with a
/// bare `replace`, so that a collecting pass on another thread still sees its edges.
#[derive(Debug)]
pub struct Collector<T> {
    slots: HashMap<usize, T>,
    slot_max: usize,
    next_id: usize,
    root: Option<Address>,
}

impl<T> Collector<T> {
    /// Well-formedness: the table stays within capacity and holds only ids already
    /// handed out.
    pub closed spec fn wf(self) -> bool {
        &&& self.slots@.dom().finite()
        &&& self.slots@.len() <= self.slot_max
        &&& forall|k: usize| #[trigger] self.slots@.contains_key(k) ==> k < self.next_id
    }

    /// The stored values, by address id.
    pub closed spec fn table(self) -> Map<usize, T> {
        self.slots@
    }

    /// The most objects that may be alive at once.
    pub closed spec fn capacity(self) -> nat {
        self.slot_max as nat
    }

    /// The id the next allocation will receive.
    pub closed spec fn next_id(self) -> nat {
        self.next_id as nat
    }

    /// The root object, if one is set.
    pub closed spec fn root_spec(self) -> Option<Address> {
        self.root
    }

    /// Creates a collector with `slot_max` slots available. Each slot stores one managed
    /// value of type `T`.
    pub fn new(slot_max: usize) -> (r: Self)
        ensures
            r.wf(),
            r.table() == Map::<usize, T>::empty(),
            r.capacity() == slot_max,
            r.next_id() == 0,
            r.root_spec() is None,
    {
        Collector { slots: HashMap::new(), slot_max, next_id: 0, root: None }
    }

    /// Capacity, id counter and root agree between the two collectors.
    pub open spec fn same_setup(self, other: Self) -> bool {
        &&& self.capacity() == other.capacity()
        &&& self.next_id() == other.next_id()
        &&& self.root_spec() == other.root_spec()
    }

    /// Replaces the value of the object at `address` with `value` and returns the value
    /// it held. Fails with `InvalidAddress`, changing nothing, when no object is alive
    /// at `address` (it may have been collected).
    pub fn replace(&mut self, address: &Address, value: T) -> (r: Result<T, MemoryError>)
        requires
            old(self).wf(),
        ensures
            final(self).wf(),
            final(self).same_setup(*old(self)),
            r is Ok <==> old(self).table().contains_key(address.id()),
            match r {
                Ok(prev) => {
                    &&& prev == old(self).table()[address.id()]
                    &&& final(self).table() == old(self).table().insert(address.id(), value)
                },
                Err(e) => e == MemoryError::InvalidAddress && final(self).table() == old(self).table(),
            },
    {
        match self.slots.remove(&address.0) {
            Some(prev) => {
                self.slots.insert(address.0, value);
                Ok(prev)
            },
            None => Err(MemoryError::InvalidAddress),
        }
    }

    /// Sets the object at `address` as the root: collecting keeps it and what it
    /// reaches.
    pub fn set_root(&mut self, address: Address)
        requires
            old(self).wf(),
        ensures
            final(self).wf(),
            final(self).table() == old(self).table(),
            final(self).capacity() == old(self).capacity(),
            final(self).next_id() == old(self).next_id(),
            final(self).root_spec() == Some(address),
    {
        self.root = Some(address);
    }

    /// The root object; without one, collecting drops every object.
    pub fn root(&self) -> (r: &Option<Address>)
        ensures
            *r == self.root_spec(),
    {
        &self.root
    }

    /// The most objects that may be alive at once, as given to `new`.
    pub fn slot_max(&self) -> (r: usize)
        ensures
            r == self.capacity(),
    {
        self.slot_max
    }

    /// The number of stored objects, including dead ones that the next collecting
    /// pass drops.
    pub fn alive_count(&self) -> (r: usize)
        ensures
            r == self.table().len(),
    {
        self.slots.len()
    }

    /// Stores `value` as a new object under a fresh id when a slot is free; fails with
    /// `OutOfSlots`, changing nothing, when the table is full. Never collects.
    pub fn try_allocate(&mut self, value: T) -> (r: Result<Address, MemoryError>)
        requires
            old(self).wf(),
            old(self).next_id() < usize::MAX,
        ensures
            final(self).wf(),
            final(self).capacity() == old(self).capacity(),
            final(self).root_spec() == old(self).root_spec(),
            r is Ok <==> old(self).table().len() < old(self).capacity(),
            match r {
                Ok(a) => {
                    &&& a.id() == old(self).next_id()
                    &&& final(self).next_id() == old(self).next_id() + 1
                    &&& final(self).table() == old(self).table().insert(a.id(), value)
                },
                Err(e) => {
                    &&& e == MemoryError::OutOfSlots
                    &&& final(self).next_id() == old(self).next_id()
                    &&& final(self).table() == old(self).table()
                },
            },
    {
        if self.slots.len() == self.slot_max {
            return Err(MemoryError::OutOfSlots);
        }
        let address = Address(self.next_id);
        self.next_id = self.next_id + 1;
        self.slots.insert(address.0, value);
        Ok(address)
    }

    /// Moves the entries under the ids of `order` into a new table and drops the rest.
    fn sweep(&mut self, order: &Vec<usize>)
        requires
            old(self).wf(),
            order@.no_duplicates(),
            order@.to_set().subset_of(old(self).table().dom()),
        ensures
            final(self).wf(),
            final(self).same_setup(*old(self)),
            final(self).table() == old(self).table().restrict(order@.to_set()),
    {
        let ghost m = self.slots@;
        let mut alive: HashMap<usize, T> = HashMap::new();
        let mut i: usize = 0;
        while i < order.len()
            invariant
                i <= order.len(),
                order@.no_duplicates(),
                order@.to_set().subset_of(m.dom()),
                self.slots@ == m.remove_keys(order@.take(i as int).to_set()),
                alive@ == m.restrict(order@.take(i as int).to_set()),
                self.slot_max == old(self).slot_max,
                self.next_id == old(self).next_id,
                self.root == old(self).root,
            decreases order.len() - i,
        {
            let id = order[i];
            let ghost done = order@.take(i as int);
            proof {
                assert(order@.take(i as int + 1) == done.push(id));
                done.lemma_push_to_set_commute(id);
                assert(order@.to_set().contains(id));
                assert(!done.to_set().contains(id)) by {
                    if done.to_set().contains(id) {
                        let j = choose|j: int| 0 <= j < done.len() && done[j] == id;
                        assert(order@[j] == order@[i as int]);
                    }
                }
            }
            match self.slots.remove(&id) {
                Some(value) => {
                    alive.insert(id, value);
                },
                None => {},
            }
            proof {
                assert(self.slots@ =~= m.remove_keys(order@.take(i as int + 1).to_set()));
                assert(alive@ =~= m.restrict(order@.take(i as int + 1).to_set()));
            }
            i += 1;
        }
        proof {
            assert(order@.take(order.len() as int) == order@);
            vstd::set_lib::lemma_len_subset(alive@.dom(), m.dom());
        }
        self.slots = alive;
    }
}

impl<T: Keep> Collector<T> {
    /// Appends the ids of `kept` to `stack`.
    fn push_ids(stack: &mut Vec<usize>, kept: &Vec<Address>)
        ensures
            final(stack)@.len() == old(stack)@.len() + kept@.len(),
            forall|j: int| 0 <= j < old(stack)@.len() ==> final(stack)@[j] == old(stack)@[j],
            forall|j: int| 0 <= j < kept@.len() ==> final(stack)@[old(stack)@.len() + j] == kept@[j].id(),
    {
        let mut i: usize = 0;
        while i < kept.len()
            invariant
                i <= kept@.len(),
                stack@.len() == old(stack)@.len() + i,
                forall|j: int| 0 <= j < old(stack)@.len() ==> stack@[j] == old(stack)@[j],
                forall|j: int| 0 <= j < i ==> stack@[old(stack)@.len() + j] == kept@[j].id(),
            decreases kept.len() - i,
        {
            stack.push(kept[i].0);
            i += 1;
        }
    }

    /// The marking phase: lists, without repeats, the ids reachable from the root, or
    /// fails with `InvalidAddress` when one of them is not in the table. The marks live
    /// in a set of this pass alone, so none of them outlasts it.
    fn mark(&self) -> (r: Result<Vec<usize>, MemoryError>)
        requires
            self.wf(),
        ensures
            r is Ok <==> graph::traceable(self.table(), self.root_spec()),
            match r {
                Ok(order) => order@.no_duplicates() && order@.to_set() == graph::reachable_set(
                    self.table(),
                    self.root_spec(),
                ),
                Err(e) => e == MemoryError::InvalidAddress,
            },
    {
        let ghost m = self.slots@;
        let ghost root = self.root;
        let ghost reach = graph::reachable_set(m, root);
        let mut stack: Vec<usize> = Vec::new();
        let mut marked: HashSet<usize> = HashSet::new();
        let mut order: Vec<usize> = Vec::new();
        match &self.root {
            Some(a) => {
                stack.push(a.0);
                proof {
                    graph::lemma_reaches_self(m, a.id());
                    assert(stack@[0] == a.id());
                }
            },
            None => {},
        }
        proof {
            assert(order@.to_set() =~= marked@);
        }
        while stack.len() > 0
            invariant
                self.wf(),
                self.slots@ == m,
                self.root == root,
                reach == graph::reachable_set(m, root),
                m.dom().finite(),
                marked@.subset_of(m.dom()),
                order@.no_duplicates(),
                order@.to_set() == marked@,
                marked@.subset_of(reach),
                forall|j: int| 0 <= j < stack@.len() ==> reach.contains(#[trigger] stack@[j]),
                root matches Some(a) ==> marked@.contains(a.id()) || stack@.contains(a.id()),
                forall|x: usize, y: usize|
                    marked@.contains(x) && #[trigger] graph::edge(m, x, y) ==> marked@.contains(y)
                        || stack@.contains(y),
            decreases m.dom().len() - marked@.len(), stack@.len(),
        {
            let ghost before = stack@;
            let id = stack.pop().unwrap();
            proof {
                assert(before == stack@.push(id));
                assert(before[before.len() - 1] == id);
                vstd::set_lib::lemma_len_subset(marked@, m.dom());
            }
            if marked.contains(&id) {
                proof {
                    assert forall|y: usize| before.contains(y) implies marked@.contains(y)
                        || stack@.contains(y) by {
                        let j = choose|j: int| 0 <= j < before.len() && before[j] == y;
                        if j < stack@.len() {
                            assert(stack@[j] == y);
                        }
                    }
                }
                continue;
            }
            match self.slots.get(&id) {
                None => {
                    return Err(MemoryError::InvalidAddress);
                },
                Some(value) => {
                    let kept = value.keep_list();
                    let ghost popped = stack@;
                    let ghost old_marked = marked@;
                    let ghost old_order = order@;
                    marked.insert(id);
                    order.push(id);
                    Self::push_ids(&mut stack, &kept);
                    proof {
                        old_order.lemma_push_to_set_commute(id);
                        assert(order@.no_duplicates()) by {
                            assert forall|j: int| 0 <= j < old_order.len() implies old_order[j] != id by {
                                if old_order[j] == id {
                                    assert(old_order.to_set().contains(id));
                                }
                            }
                        }
                        vstd::set_lib::lemma_len_subset(old_marked, m.dom());
                        assert(marked@.len() == old_marked.len() + 1);
                        vstd::set_lib::lemma_len_subset(marked@, m.dom());
                        assert forall|j: int| 0 <= j < stack@.len() implies reach.contains(#[trigger] stack@[j]) by {
                            if j >= popped.len() {
                                let k = j - popped.len();
                                assert(m[id].keeps()[k].id() == stack@[j]);
                                assert(graph::edge(m, id, stack@[j]));
                                graph::lemma_reaches_step(m, root.unwrap().id(), id, stack@[j]);
                            } else {
                                assert(before[j] == stack@[j]);
                            }
                        }
                        assert forall|y: usize| before.contains(y) implies marked@.contains(y)
                            || stack@.contains(y) by {
                            let j = choose|j: int| 0 <= j < before.len() && before[j] == y;
                            if j < popped.len() {
                                assert(stack@[j] == y);
                            }
                        }
                        assert forall|x: usize, y: usize|
                            marked@.contains(x) && #[trigger] graph::edge(m, x, y) implies marked@.contains(y)
                                || stack@.contains(y) by {
                            if x == id {
                                let k = choose|k: int| 0 <= k < m[id].keeps().len() && (#[trigger] m[id].keeps()[k]).id() == y;
                                assert(stack@[popped.len() + k] == y);
                            } else {
                                assert(old_marked.contains(x));
                                if !old_marked.contains(y) {
                                    assert(before.contains(y));
                                }
                            }
                        }
                    }
                },
            }
        }
        proof {
            match root {
                Some(a) => {
                    assert(marked@.contains(a.id()));
                    graph::lemma_closed_holds_reachable(m, marked@, a.id());
                    assert(marked@ =~= reach);
                },
                None => {
                    assert(marked@ =~= reach);
                },
            }
        }
        Ok(order)
    }

    /// The table is at capacity, so that allocating collects first.
    pub open spec fn is_full(self) -> bool {
        self.table().len() == self.capacity()
    }

    /// The table an allocation inserts into: the collected one when the table is full.
    pub open spec fn table_for_allocation(self) -> Map<usize, T> {
        if self.is_full() {
            graph::collected(self.table(), self.root_spec())
        } else {
            self.table()
        }
    }

    /// Stores `value` as a new object and returns its address, a fresh id never handed
    /// out before. When the table is full a collecting pass runs first, and its error
    /// is passed on; when it is still full afterwards, the result is `OutOfSlots`.
    pub fn allocate(&mut self, value: T) -> (r: Result<Address, MemoryError>)
        requires
            old(self).wf(),
            old(self).next_id() < usize::MAX,
        ensures
            final(self).wf(),
            final(self).capacity() == old(self).capacity(),
            final(self).root_spec() == old(self).root_spec(),
            r is Ok <==> !old(self).is_full() || (graph::traceable(old(self).table(), old(self).root_spec())
                && old(self).table_for_allocation().len() < old(self).capacity()),
            match r {
                Ok(a) => {
                    &&& a.id() == old(self).next_id()
                    &&& final(self).next_id() == old(self).next_id() + 1
                    &&& final(self).table() == old(self).table_for_allocation().insert(a.id(), value)
                },
                Err(e) => {
                    &&& final(self).next_id() == old(self).next_id()
                    &&& old(self).is_full()
                    &&& if graph::traceable(old(self).table(), old(self).root_spec()) {
                        e == MemoryError::OutOfSlots && final(self).table()
                            == old(self).table_for_allocation()
                    } else {
                        e == MemoryError::InvalidAddress && final(self).table() == old(self).table()
                    }
                },
            },
    {
        if self.slots.len() == self.slot_max {
            match self.collect() {
                Err(e) => {
                    return Err(e);
                },
                Ok(()) => {},
            }
        }
        self.try_allocate(value)
    }

    /// Drops every object that is not reachable from the root: all of them when no
    /// root is set. Fails with `InvalidAddress`, changing nothing, when the root or an
    /// address kept by a reachable object is not in the table.
    pub fn collect(&mut self) -> (r: Result<(), MemoryError>)
        requires
            old(self).wf(),
        ensures
            final(self).wf(),
            final(self).same_setup(*old(self)),
            r is Ok <==> graph::traceable(old(self).table(), old(self).root_spec()),
            r is Err ==> r == Err::<(), MemoryError>(MemoryError::InvalidAddress),
            final(self).table() == graph::after_collect(old(self).table(), old(self).root_spec()),
            final(self).table().len() <= old(self).table().len(),
            old(self).root_spec() is None ==> r is Ok && final(self).table().len() == 0,
    {
        let ghost before = self.slots@;
        match self.mark() {
            Err(e) => Err(e),
            Ok(order) => {
                self.sweep(&order);
                proof {
                    vstd::set_lib::lemma_len_subset(self.slots@.dom(), before.dom());
                    if self.root is None {
                        assert(self.slots@ =~= Map::empty());
                    }
                }
                Ok(())
            },
        }
    }
}

/// A full table with no root: the collecting pass that allocating runs first frees every
/// slot, so the allocation succeeds exactly when the capacity is not zero.
pub proof fn lemma_unrooted_full_allocation<T: Keep>(c: Collector<T>)
    requires
        c.is_full(),
        c.root_spec() is None,
    ensures
        graph::traceable(c.table(), c.root_spec()),
        c.table_for_allocation() == Map::<usize, T>::empty(),
        c.table_for_allocation().len() < c.capacity() <==> c.capacity() > 0,
{
    assert(c.table_for_allocation() =~= Map::<usize, T>::empty());
}

} // verus!
