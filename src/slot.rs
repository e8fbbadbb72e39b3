//! Slots: managed values that can be taken out of the table and filled back.
//!
//! A value stored as a `Slot` is taken out with [`Collector::take`], which leaves a
//! busy placeholder behind. The placeholder reports the edges the value had when it
//! was taken, so a collecting pass that runs meanwhile keeps everything the value
//! keeps. A second `take` of a busy slot does not hand out the value: it registers a
//! new wait handle ([`Parker`]) and returns it. [`Collector::fill`] puts a value back
//! and wakes every registered handle; the woken threads then race to take again.
//!
//! The collector notices changes to what a taken value keeps only when it is filled
//! back, so a thread that makes a taken value keep a freshly allocated object should
//! hold the collector's lock from the allocation until the fill.
use crate::{graph, Address, Collector, Keep, MemoryError};
use crossbeam::sync::Unparker;
use vstd::prelude::*;

pub use crossbeam::sync::Parker;

verus! {

#[verifier::external_type_specification]
#[verifier::external_body]
pub struct ExParker(Parker);

#[verifier::external_type_specification]
#[verifier::external_body]
pub struct ExUnparker(Unparker);

/// Relies on crossbeam's `Parker::new`: a fresh wait handle whose token is absent.
#[verifier::external_body]
fn new_parker() -> Parker {
    Parker::new()
}

/// Relies on crossbeam's `Parker::unparker` and `Unparker::clone`: an owned waker
/// paired with `parker`.
#[verifier::external_body]
fn unparker_of(parker: &Parker) -> Unparker {
    parker.unparker().clone()
}

/// Relies on crossbeam's `Unparker::unpark`: makes the paired parker's token
/// available, waking the thread parked on it if there is one.
#[verifier::external_body]
fn wake(unparker: &Unparker) {
    unparker.unpark()
}

enum SlotPriv<T> {
    Free(T),
    Busy { keep: Vec<Address>, unparkers: Vec<Unparker> },
}

/// A managed value that can be taken out of the table and filled back.
pub struct Slot<T>(SlotPriv<T>);

impl<T> Slot<T> {
    /// The slot holds its value.
    pub closed spec fn is_free(self) -> bool {
        self.0 is Free
    }

    /// The value of a free slot.
    pub closed spec fn value(self) -> T
        recommends
            self.is_free(),
    {
        match self.0 {
            SlotPriv::Free(v) => v,
            SlotPriv::Busy { .. } => arbitrary(),
        }
    }

    /// The addresses a busy slot caches for the taken value.
    pub closed spec fn cached(self) -> Seq<Address> {
        match self.0 {
            SlotPriv::Free(_) => Seq::empty(),
            SlotPriv::Busy { keep, .. } => keep@,
        }
    }

    /// The wakers of the wait handles registered on a busy slot, oldest first.
    pub closed spec fn waiter_list(self) -> Seq<Unparker> {
        match self.0 {
            SlotPriv::Free(_) => Seq::empty(),
            SlotPriv::Busy { unparkers, .. } => unparkers@,
        }
    }

    /// The free slot holding `value`.
    pub closed spec fn free_of(value: T) -> Self {
        Slot(SlotPriv::Free(value))
    }

    /// The free slot holding `value` is free and holds `value`.
    pub proof fn lemma_free_of(value: T)
        ensures
            Self::free_of(value).is_free(),
            Self::free_of(value).value() == value,
    {
    }

    /// A free slot is fixed by its value.
    pub proof fn lemma_free_slot_is_free_of(s: Self)
        requires
            s.is_free(),
        ensures
            s == Self::free_of(s.value()),
    {
    }

    /// Creates a free slot holding `value`.
    pub fn new(value: T) -> (r: Self)
        ensures
            r == Self::free_of(value),
            r.is_free(),
            r.value() == value,
    {
        Slot(SlotPriv::Free(value))
    }
}

impl<T: Keep> Keep for Slot<T> {
    /// A free slot reports its value's edges; a busy one the edges cached at take time.
    open spec fn keeps(&self) -> Seq<Address> {
        if self.is_free() {
            self.value().keeps()
        } else {
            self.cached()
        }
    }

    fn keep_list(&self) -> (r: Vec<Address>) {
        match &self.0 {
            SlotPriv::Free(value) => value.keep_list(),
            SlotPriv::Busy { keep, .. } => {
                let mut r: Vec<Address> = Vec::new();
                let mut i: usize = 0;
                while i < keep.len()
                    invariant
                        i <= keep@.len(),
                        r@ == keep@.take(i as int),
                    decreases keep.len() - i,
                {
                    r.push(keep[i]);
                    i += 1;
                    proof {
                        assert(r@ =~= keep@.take(i as int));
                    }
                }
                proof {
                    assert(r@ =~= keep@);
                }
                r
            },
        }
    }
}

/// The result of trying to take an object out.
pub enum Take<T> {
    /// The object was free: here it is.
    Free(T),
    /// The object is in use by someone else. `Parker::park` blocks the current thread
    /// until the object is filled back.
    Busy(Parker),
}

/// One `take` turns slot `before` into `after` and answers `t`. A free slot hands out
/// its value and becomes busy, caching the value's edges, with no waiter. A busy one
/// keeps its cached edges and earlier waiters, registers one more waiter and answers
/// with a wait handle. Either way the reported edges stay the same.
pub open spec fn taken<T: Keep>(before: Slot<T>, after: Slot<T>, t: Take<T>) -> bool {
    &&& !after.is_free()
    &&& after.keeps() == before.keeps()
    &&& if before.is_free() {
        &&& before == Slot::free_of(before.value())
        &&& t == Take::Free(before.value())
        &&& after.cached() == before.value().keeps()
        &&& after.waiter_list() == Seq::<Unparker>::empty()
    } else {
        &&& t is Busy
        &&& after.cached() == before.cached()
        &&& after.waiter_list().len() == before.waiter_list().len() + 1
        &&& after.waiter_list().drop_last() == before.waiter_list()
    }
}

/// One `fill` with `value` turns slot `before` into `after` and answers `r`. A taken
/// slot becomes the free slot holding `value`. Filling a slot that was not taken is a
/// duplicate and leaves it as it was.
pub open spec fn filled<T>(before: Slot<T>, value: T, after: Slot<T>, r: Result<(), MemoryError>) -> bool {
    if before.is_free() {
        &&& r == Err::<(), MemoryError>(MemoryError::DuplicatedFilling)
        &&& after == before
    } else {
        &&& r is Ok
        &&& after == Slot::free_of(value)
        &&& after.is_free()
        &&& after.value() == value
    }
}

/// The take/fill protocol on one slot. Taking a free slot hands out its value and
/// leaves a busy slot that reports the value's edges; taking it again answers with a
/// wait handle, never the value; filling it with `v2` succeeds and frees it, and the
/// next take hands out `v2` and caches its edges. Filling with the value that was taken
/// restores the slot. Filling a slot that was never taken is a duplicate and changes
/// nothing.
pub proof fn lemma_take_fill_protocol<T: Keep>(
    s0: Slot<T>,
    s1: Slot<T>,
    s2: Slot<T>,
    s3: Slot<T>,
    s4: Slot<T>,
    t1: Take<T>,
    t2: Take<T>,
    t4: Take<T>,
    v2: T,
    r3: Result<(), MemoryError>,
    v: T,
    s5: Slot<T>,
    r5: Result<(), MemoryError>,
)
    requires
        s0.is_free(),
        taken(s0, s1, t1),
        taken(s1, s2, t2),
        filled(s2, v2, s3, r3),
        taken(s3, s4, t4),
        filled(s0, v, s5, r5),
    ensures
        t1 == Take::Free(s0.value()),
        !s1.is_free(),
        s1.keeps() == s0.value().keeps(),
        t2 is Busy,
        s2.keeps() == s0.value().keeps(),
        r3 is Ok,
        s3.is_free(),
        v2 == s0.value() ==> s3 == s0,
        t4 == Take::Free(v2),
        s4.keeps() == v2.keeps(),
        r5 == Err::<(), MemoryError>(MemoryError::DuplicatedFilling),
        s5 == s0,
{
}

/// Taking an object out changes nothing a collecting pass sees: the busy placeholder
/// reports the taken value's edges, so the same objects stay reachable, the taken
/// value's among them, and the pass succeeds exactly when it did before.
pub proof fn lemma_take_keeps_reachable<T: Keep>(
    m: Map<usize, Slot<T>>,
    id: usize,
    after: Slot<T>,
    t: Take<T>,
    root: Option<Address>,
)
    requires
        m.contains_key(id),
        taken(m[id], after, t),
    ensures
        graph::reachable_set(m.insert(id, after), root) == graph::reachable_set(m, root),
        graph::traceable(m.insert(id, after), root) == graph::traceable(m, root),
{
    let m2 = m.insert(id, after);
    assert(m.dom() =~= m2.dom());
    graph::lemma_same_edges_same_reachable(m, m2, root);
}

/// Wakes each of `unparkers` once.
fn wake_all(unparkers: &Vec<Unparker>) {
    let mut i: usize = 0;
    while i < unparkers.len()
        invariant
            i <= unparkers@.len(),
        decreases unparkers.len() - i,
    {
        wake(&unparkers[i]);
        i += 1;
    }
}

impl<T: Keep> Collector<Slot<T>> {
    /// Takes the object at `address` out and leaves a busy placeholder that reports the
    /// object's edges, or, when the object is already taken, registers and returns a
    /// wait handle. Never blocks. Fails with `InvalidAddress`, changing nothing, when no
    /// object is alive at `address`.
    pub fn take(&mut self, address: &Address) -> (r: Result<Take<T>, MemoryError>)
        requires
            old(self).wf(),
        ensures
            final(self).wf(),
            final(self).same_setup(*old(self)),
            r is Ok <==> old(self).table().contains_key(address.id()),
            match r {
                Ok(t) => {
                    &&& final(self).table() == old(self).table().insert(
                        address.id(),
                        final(self).table()[address.id()],
                    )
                    &&& taken(old(self).table()[address.id()], final(self).table()[address.id()], t)
                },
                Err(e) => e == MemoryError::InvalidAddress && final(self).table() == old(self).table(),
            },
    {
        let placeholder = Slot(SlotPriv::Busy { keep: Vec::new(), unparkers: Vec::new() });
        match self.replace(address, placeholder) {
            Err(e) => Err(e),
            Ok(current) => match current.0 {
                SlotPriv::Free(value) => {
                    let keep = value.keep_list();
                    let busy = Slot(SlotPriv::Busy { keep, unparkers: Vec::new() });
                    let _ = self.replace(address, busy);
                    Ok(Take::Free(value))
                },
                SlotPriv::Busy { keep, mut unparkers } => {
                    let parker = new_parker();
                    let ghost earlier = unparkers@;
                    unparkers.push(unparker_of(&parker));
                    proof {
                        assert(unparkers@.drop_last() =~= earlier);
                    }
                    let _ = self.replace(address, Slot(SlotPriv::Busy { keep, unparkers }));
                    Ok(Take::Busy(parker))
                },
            },
        }
    }
}

impl<T> Collector<Slot<T>> {
    /// Fills the taken slot at `address` with `value` and wakes every wait handle
    /// registered on it. A slot that was not taken keeps its value, and the result is
    /// `DuplicatedFilling`. Fails with `InvalidAddress`, changing nothing, when no
    /// object is alive at `address`.
    pub fn fill(&mut self, address: &Address, value: T) -> (r: Result<(), MemoryError>)
        requires
            old(self).wf(),
        ensures
            final(self).wf(),
            final(self).same_setup(*old(self)),
            !old(self).table().contains_key(address.id()) ==> r == Err::<(), MemoryError>(
                MemoryError::InvalidAddress,
            ) && final(self).table() == old(self).table(),
            old(self).table().contains_key(address.id()) ==> {
                &&& final(self).table() == old(self).table().insert(
                    address.id(),
                    final(self).table()[address.id()],
                )
                &&& filled(old(self).table()[address.id()], value, final(self).table()[address.id()], r)
            },
            r == Err::<(), MemoryError>(MemoryError::DuplicatedFilling) ==> final(self).table()
                == old(self).table(),
    {
        match self.replace(address, Slot(SlotPriv::Free(value))) {
            Err(e) => Err(e),
            Ok(prev) => match prev.0 {
                SlotPriv::Free(held) => {
                    let _ = self.replace(address, Slot(SlotPriv::Free(held)));
                    Err(MemoryError::DuplicatedFilling)
                },
                SlotPriv::Busy { unparkers, .. } => {
                    wake_all(&unparkers);
                    Ok(())
                },
            },
        }
    }
}

} // verus!
