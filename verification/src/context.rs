//! JS contexts, their states, and the JS-managed data they give access to.
use vstd::prelude::*;
use std::marker::PhantomData;

use crate::class::{HasClass, HasInstance};
use crate::roots::JSPinnedRoots;
use crate::trace::{JSTraceable, JSTracer};

verus! {

/// The type for JS contexts whose current state is `S`, over a heap of native values of type `V`.
///
/// The heap holds one cell per piece of JS-managed data; a cell is `None` while the data
/// it was reserved for is not yet initialized (the global, during initialization).
pub struct JSContext<S, V> {
    global_raw: Option<usize>,
    heap: Vec<Option<V>>,
    roots: JSPinnedRoots,
    marker: PhantomData<S>,
}

/// A context state in an initialized compartment `C`.
pub struct Initialized<C>(PhantomData<C>);

/// A context state which can initialize compartment `C`.
pub struct Uninitialized<C>(PhantomData<C>);

/// A context state in the middle of initializing a compartment `C`.
pub struct Initializing<C>(PhantomData<C>);

/// A context state in snapshotted compartment in underlying state `S`,
/// which guarantees that no GC will happen during the lifetime `'a`.
pub struct Snapshotted<'a, S>(PhantomData<(&'a (), S)>);

/// A marker trait for JS contexts in compartment `C`
pub trait InCompartment<C> {}

impl<C> InCompartment<C> for Initializing<C> {}

impl<C> InCompartment<C> for Initialized<C> {}

impl<'a, C, S> InCompartment<C> for Snapshotted<'a, S> where S: InCompartment<C> {}

/// A marker trait for JS contexts that can access native state
pub trait CanAccess {}

impl<C> CanAccess for Initialized<C> {}

impl<'a, S> CanAccess for Snapshotted<'a, S> where S: CanAccess {}

/// A marker trait for JS contexts that can extend the lifetime of objects
pub trait CanExtend<'a> {}

impl<'a, S> CanExtend<'a> for Snapshotted<'a, S> {}

/// A marker trait for JS contexts that can allocate objects
pub trait CanAlloc {}

impl<G> CanAlloc for Initialized<G> {}

impl<G> CanAlloc for Initializing<G> {}

/// A marker trait for JS contexts that can create compartment `C`.
pub trait CanCreate<C> {}

impl<C> CanCreate<C> for Uninitialized<C> {}

/// A marker trait for JS contexts that are in the middle of initializing
pub trait IsInitializing {}

impl<C> IsInitializing for Initializing<C> {}

/// A marker trait for JS compartments that have a global of class `K`.
pub trait HasGlobal<K> {}

impl<S, V> JSContext<S, V> {
    /// The global, once reserved, has a cell in the heap.
    #[verifier::type_invariant]
    spec fn global_in_heap(self) -> bool {
        self.global_raw is Some ==> self.global_raw->0 < self.heap@.len()
    }

    /// The cells of the heap, by address.
    pub closed spec fn heap(&self) -> Seq<Option<V>> {
        self.heap@
    }

    /// The address of the compartment's global, once the compartment has been created.
    pub closed spec fn global_addr(&self) -> Option<usize> {
        self.global_raw
    }

    /// The slots of the pinned roots, most recently pinned first.
    pub closed spec fn roots(&self) -> Seq<usize> {
        self.roots@
    }

    /// The number of roots created in this context.
    pub closed spec fn root_slots(&self) -> nat {
        self.roots.slots()
    }

    /// The reflectors that the root in `slot` keeps alive: while it is pinned, those that
    /// tracing its value reported when it was pinned; none otherwise.
    pub closed spec fn root_keeps(&self, slot: usize) -> Seq<usize> {
        self.roots.kept_by(slot)
    }

    /// Some pinned root keeps the data at `addr` alive.
    pub open spec fn kept_alive(&self, addr: usize) -> bool {
        exists|i: int| 0 <= i < self.roots().len() && #[trigger] self.root_keeps(self.roots()[i]).contains(addr)
    }

    /// Every pinned root is pinned once and was created in this context.
    pub open spec fn roots_distinct(&self) -> bool {
        &&& self.roots().no_duplicates()
        &&& forall|i: int| 0 <= i < self.roots().len() ==> #[trigger] self.roots()[i] < self.root_slots()
    }

    /// `other` holds the same heap, global and roots as `self`, whatever the states.
    pub open spec fn same_contents<S2>(&self, other: &JSContext<S2, V>) -> bool {
        &&& other.heap() == self.heap()
        &&& other.global_addr() == self.global_addr()
        &&& other.roots() == self.roots()
        &&& other.root_slots() == self.root_slots()
        &&& forall|k: usize| #[trigger] other.root_keeps(k) == self.root_keeps(k)
    }

    /// Address `addr` holds initialized data.
    pub open spec fn live(&self, addr: usize) -> bool {
        &&& addr < self.heap().len()
        &&& self.heap()[addr as int] is Some
    }

    /// `after` is `self` once `value` has been handed over to JS at the address `addr`.
    pub open spec fn manages<S2>(&self, after: &JSContext<S2, V>, addr: usize, value: V) -> bool {
        &&& addr == self.heap().len()
        &&& after.heap() == self.heap().push(Some(value))
        &&& after.global_addr() == self.global_addr()
        &&& after.roots() == self.roots()
        &&& after.root_slots() == self.root_slots()
        &&& forall|k: usize| #[trigger] after.root_keeps(k) == self.root_keeps(k)
    }

    /// Get a snapshot of the JS state.
    /// The snapshot only allows access to the methods that are guaranteed not to call GC,
    /// so we don't need to root JS-managed pointers during the lifetime of a snapshot.
    /// The snapshot takes the context over; `release` hands it back.
    pub fn snapshot<'a>(self) -> (r: JSContext<Snapshotted<'a, S>, V>)
        ensures
            self.same_contents(&r),
    {
        proof {
            use_type_invariant(&self);
        }
        JSContext { global_raw: self.global_raw, heap: self.heap, roots: self.roots, marker: PhantomData }
    }

    /// Give ownership of data to JS.
    /// This allocates JS heap, which may trigger GC.
    pub fn manage<'a, 'b, C, K>(&'a mut self, value: V) -> (r: JSManaged<'a, C, K>) where
        S: CanAlloc + InCompartment<C>,
        V: HasClass<Class = K>,
        K: HasInstance<'b, C, Instance = V>,

        ensures
            old(self).manages(final(self), r.addr(), value),
            final(self).global_addr() != Some(r.addr()),
    {
        proof {
            use_type_invariant(&*self);
        }
        let raw: usize = self.push_cell(Some(value));
        JSManaged { raw, marker: PhantomData }
    }

    /// Give ownership of data to JS, then take a snapshot.
    /// This allocates JS heap, which may trigger GC.
    pub fn snapshot_manage<'a, 'b, C, K>(self, value: V) -> (r: (
        JSContext<Snapshotted<'a, S>, V>,
        JSManaged<'a, C, K>,
    )) where
        S: CanAlloc + InCompartment<C>,
        V: HasClass<Class = K>,
        K: HasInstance<'b, C, Instance = V>,

        ensures
            self.manages(&r.0, r.1.addr(), value),
            r.0.global_addr() != Some(r.1.addr()),
    {
        proof {
            use_type_invariant(&self);
        }
        let mut heap = self.heap;
        let raw: usize = heap.len();
        heap.push(Some(value));
        let managed = JSManaged { raw, marker: PhantomData };
        let snapshot = JSContext {
            global_raw: self.global_raw,
            heap,
            roots: self.roots,
            marker: PhantomData,
        };
        (snapshot, managed)
    }

    /// Create a compartment: its global gets a cell, which stays uninitialized
    /// until `global_manage` fills it.
    pub fn create_compartment<'a, C, K>(self) -> (r: JSContext<Initializing<C>, V>) where
        S: CanCreate<C>,
        C: HasGlobal<K>,
        K: HasInstance<'a, C>,
        V: HasClass<Class = K>,

        ensures
            r.heap() == self.heap().push(None),
            r.global_addr() is Some,
            r.global_addr()->0 == self.heap().len(),
            r.roots() == self.roots(),
            r.root_slots() == self.root_slots(),
            forall|k: usize| #[trigger] r.root_keeps(k) == self.root_keeps(k),
    {
        proof {
            use_type_invariant(&self);
        }
        let mut heap = self.heap;
        let raw: usize = heap.len();
        heap.push(None);
        JSContext { global_raw: Some(raw), heap, roots: self.roots, marker: PhantomData }
    }

    /// Finish initializing a JS Context
    pub fn global_manage<'a, 'b, C, K>(self, value: V) -> (r: JSContext<Initialized<C>, V>) where
        S: IsInitializing + InCompartment<C>,
        C: HasGlobal<K>,
        K: HasInstance<'b, C, Instance = V>,
        V: HasClass<Class = K>,

        requires
            self.global_addr() is Some,
        ensures
            self.global_addr()->0 < self.heap().len(),
            r.heap() == self.heap().update(self.global_addr()->0 as int, Some(value)),
            r.global_addr() == self.global_addr(),
            r.roots() == self.roots(),
            r.root_slots() == self.root_slots(),
            forall|k: usize| #[trigger] r.root_keeps(k) == self.root_keeps(k),
    {
        proof {
            use_type_invariant(&self);
        }
        let raw: usize = self.global_raw.unwrap();
        let mut heap = self.heap;
        heap.set(raw, Some(value));
        JSContext { global_raw: self.global_raw, heap, roots: self.roots, marker: PhantomData }
    }

    /// Get the global of an initialized context.
    pub fn global<'a, 'b, C, G>(&'a self) -> (r: JSManaged<'b, C, G>) where
        S: InCompartment<C>,
        C: HasGlobal<G>,
        V: HasClass<Class = G>,

        requires
            self.global_addr() is Some,
        ensures
            r.addr() == self.global_addr()->0,
            r.addr() < self.heap().len(),
    {
        proof {
            use_type_invariant(self);
        }
        JSManaged { raw: self.global_raw.unwrap(), marker: PhantomData }
    }

    /// The slots of the pinned roots, most recently pinned first.
    pub fn pinned_roots(&self) -> (r: Vec<usize>)
        ensures
            r@ == self.roots(),
    {
        self.roots.to_vec()
    }

    /// Create a new root, not yet pinned.
    pub fn new_root<T>(&mut self) -> (r: JSRoot<T>)
        ensures
            r.value() is None,
            r.slot() == old(self).root_slots(),
            !final(self).roots().contains(r.slot()),
            final(self).root_slots() == old(self).root_slots() + 1,
            final(self).roots() == old(self).roots(),
            final(self).heap() == old(self).heap(),
            final(self).global_addr() == old(self).global_addr(),
            final(self).roots_distinct(),
            final(self).root_keeps(r.slot()) == Seq::<usize>::empty(),
            forall|k: usize| k < old(self).root_slots() ==> #[trigger] final(self).root_keeps(k) == old(self).root_keeps(k),
    {
        let pin: usize = self.add_root_slot();
        JSRoot { value: None, pin }
    }

    /// Appends `cell` to the heap, returning its address.
    fn push_cell(&mut self, cell: Option<V>) -> (addr: usize)
        ensures
            final(self).heap() == old(self).heap().push(cell),
            addr == old(self).heap().len(),
            final(self).global_addr() == old(self).global_addr(),
            final(self).roots() == old(self).roots(),
            final(self).root_slots() == old(self).root_slots(),
            forall|k: usize| #[trigger] final(self).root_keeps(k) == old(self).root_keeps(k),
    {
        proof {
            use_type_invariant(&*self);
        }
        let global = self.global_raw;
        self.global_raw = None;
        let mut heap: Vec<Option<V>> = Vec::new();
        std::mem::swap(&mut heap, &mut self.heap);
        let addr: usize = heap.len();
        heap.push(cell);
        self.heap = heap;
        self.global_raw = global;
        addr
    }

    /// Hands out a fresh root slot.
    fn add_root_slot(&mut self) -> (id: usize)
        ensures
            final(self).roots() == old(self).roots(),
            final(self).root_slots() == old(self).root_slots() + 1,
            id == old(self).root_slots(),
            !final(self).roots().contains(id),
            final(self).roots_distinct(),
            final(self).heap() == old(self).heap(),
            final(self).global_addr() == old(self).global_addr(),
            final(self).root_keeps(id) == Seq::<usize>::empty(),
            forall|k: usize| k < old(self).root_slots() ==> #[trigger] final(self).root_keeps(k) == old(self).root_keeps(k),
    {
        proof {
            use_type_invariant(&*self);
        }
        let mut roots = JSPinnedRoots::new();
        std::mem::swap(&mut roots, &mut self.roots);
        let id: usize = roots.add_slot();
        self.roots = roots;
        id
    }

    /// Links the slot `id` at the head of the pinned roots.
    fn link_root(&mut self, id: usize, reflectors: Vec<usize>)
        requires
            id < old(self).root_slots(),
            !old(self).roots().contains(id),
        ensures
            final(self).root_keeps(id) == reflectors@,
            forall|k: usize| k < old(self).root_slots() && k != id ==> #[trigger] final(self).root_keeps(k) == old(self).root_keeps(k),
            final(self).roots() == seq![id] + old(self).roots(),
            final(self).root_slots() == old(self).root_slots(),
            final(self).roots_distinct(),
            final(self).heap() == old(self).heap(),
            final(self).global_addr() == old(self).global_addr(),
    {
        proof {
            use_type_invariant(&*self);
        }
        let mut roots = JSPinnedRoots::new();
        std::mem::swap(&mut roots, &mut self.roots);
        roots.push_front(id, reflectors);
        self.roots = roots;
    }

    /// Records `reflectors` as what the pinned root in slot `id` keeps alive.
    fn rekeep_root(&mut self, id: usize, reflectors: Vec<usize>)
        requires
            old(self).roots().contains(id),
        ensures
            final(self).roots() == old(self).roots(),
            final(self).root_slots() == old(self).root_slots(),
            final(self).roots_distinct(),
            final(self).heap() == old(self).heap(),
            final(self).global_addr() == old(self).global_addr(),
            final(self).root_keeps(id) == reflectors@,
            forall|k: usize| k < old(self).root_slots() && k != id ==> #[trigger] final(self).root_keeps(k) == old(self).root_keeps(k),
    {
        proof {
            use_type_invariant(&*self);
        }
        let mut roots = JSPinnedRoots::new();
        std::mem::swap(&mut roots, &mut self.roots);
        roots.set_kept(id, reflectors);
        self.roots = roots;
    }

    /// Unlinks the slot `id` from the pinned roots.
    fn unlink_root(&mut self, id: usize)
        requires
            old(self).roots().contains(id),
        ensures
            final(self).root_keeps(id) == Seq::<usize>::empty(),
            forall|k: usize| k < old(self).root_slots() && k != id ==> #[trigger] final(self).root_keeps(k) == old(self).root_keeps(k),
            final(self).roots() == old(self).roots().remove(old(self).roots().index_of(id)),
            final(self).root_slots() == old(self).root_slots(),
            final(self).roots_distinct(),
            final(self).heap() == old(self).heap(),
            final(self).global_addr() == old(self).global_addr(),
    {
        proof {
            use_type_invariant(&*self);
        }
        let mut roots = JSPinnedRoots::new();
        std::mem::swap(&mut roots, &mut self.roots);
        roots.remove(id);
        self.roots = roots;
    }
}

impl<'a, S, V> JSContext<Snapshotted<'a, S>, V> {
    /// End a snapshot: the context returns to the state it was in before.
    pub fn release(self) -> (r: JSContext<S, V>)
        ensures
            self.same_contents(&r),
    {
        proof {
            use_type_invariant(&self);
        }
        JSContext { global_raw: self.global_raw, heap: self.heap, roots: self.roots, marker: PhantomData }
    }
}

/// The type of JS-managed data in a JS compartment `C`, with lifetime `'a` and class `K`.
///
/// If the user has access to a `JSManaged`, then the JS-managed
/// data is live for the given lifetime.
pub struct JSManaged<'a, C, K> {
    raw: usize,
    marker: PhantomData<(&'a (), C, K)>,
}

impl<'a, C, K> Clone for JSManaged<'a, C, K> {
    fn clone(&self) -> (r: Self)
        ensures
            r.addr() == self.addr(),
    {
        JSManaged { raw: self.raw, marker: PhantomData }
    }
}

impl<'a, C, K> Copy for JSManaged<'a, C, K> {}

impl<'a, C, K> JSManaged<'a, C, K> {
    /// The address of the data in the heap of its context.
    pub closed spec fn addr(&self) -> usize {
        self.raw
    }

    /// Read-only access to JS-managed data.
    pub fn get<'b, S, V>(self, cx: &'b JSContext<S, V>) -> (r: &'b V) where
        S: CanAccess + InCompartment<C>,
        K: HasInstance<'b, C>,
        'a: 'b,

        requires
            cx.live(self.addr()),
        ensures
            cx.heap()[self.addr() as int] == Some(*r),
    {
        match &cx.heap[self.raw] {
            Some(v) => v,
            None => vstd::pervasive::unreached(),
        }
    }

    /// Read-write access to JS-managed data.
    pub fn get_mut<'b, S, V>(self, cx: &'b mut JSContext<S, V>) -> (r: &'b mut V) where
        S: CanAccess + InCompartment<C>,
        K: HasInstance<'b, C>,
        'a: 'b,

        requires
            old(cx).live(self.addr()),
        ensures
            old(cx).heap()[self.addr() as int] == Some(*r),
            final(cx).heap() == old(cx).heap().update(self.addr() as int, Some(*final(r))),
            final(cx).global_addr() == old(cx).global_addr(),
            final(cx).roots() == old(cx).roots(),
            final(cx).root_slots() == old(cx).root_slots(),
            forall|k: usize| #[trigger] final(cx).root_keeps(k) == old(cx).root_keeps(k),
    {
        proof {
            use_type_invariant(&*cx);
        }
        match &mut cx.heap[self.raw] {
            Some(v) => v,
            None => vstd::pervasive::unreached(),
        }
    }

    /// Change the lifetime of JS-managed data.
    pub fn change_lifetime<'b>(self) -> (r: JSManaged<'b, C, K>)
        ensures
            r.addr() == self.addr(),
    {
        JSManaged { raw: self.raw, marker: PhantomData }
    }

    /// It's safe to extend the lifetime of JS-managed data if it has been snapshotted.
    pub fn extend_lifetime<'b, 'c, S, V>(self, cx: &'c JSContext<S, V>) -> (r: JSManaged<'b, C, K>) where
        S: CanExtend<'b>,

        ensures
            r.addr() == self.addr(),
    {
        self.change_lifetime()
    }
}

impl<'a, C, K> JSTraceable for JSManaged<'a, C, K> where
    K: HasInstance<'a, C>,
    K::Instance: JSTraceable,
 {
    /// JS-managed data refers to its own reflector.
    open spec fn traced(&self) -> Seq<usize> {
        seq![self.addr()]
    }

    /// Trace the reflector.
    fn trace(&self, trc: &mut JSTracer) {
        trc.trace_reflector(self.raw);
    }
}

/// Data which can be rooted: it can be given the lifetime of the root that holds it.
pub trait JSRootable<'a>: Sized {
    type Aged;

    /// The same data, with the lifetime changed.
    spec fn aged(self) -> Self::Aged;

    /// Change the lifetime of the data.
    fn change_lifetime(self) -> (r: Self::Aged)
        ensures
            r == self.aged(),
    ;

    /// Contract the lifetime of the data to `'a`.
    fn contract_lifetime(self) -> (r: Self::Aged) where Self: 'a
        ensures
            r == self.aged(),
    {
        self.change_lifetime()
    }
}

impl<'a, 'b, C, K> JSRootable<'a> for JSManaged<'b, C, K> {
    type Aged = JSManaged<'a, C, K>;

    open spec fn aged(self) -> JSManaged<'a, C, K> {
        JSManaged::<'a, C, K>::at(self.addr())
    }

    fn change_lifetime(self) -> (r: JSManaged<'a, C, K>)
        ensures
            r.addr() == self.addr(),
    {
        JSManaged { raw: self.raw, marker: PhantomData }
    }
}

impl<'a, C, K> JSManaged<'a, C, K> {
    /// The handle to the data at address `addr`.
    pub closed spec fn at(addr: usize) -> Self {
        JSManaged { raw: addr, marker: PhantomData }
    }

    /// The handle at address `addr` names the data at `addr`.
    pub proof fn lemma_at(addr: usize)
        ensures
            Self::at(addr).addr() == addr,
    {
    }

    /// A handle is determined by its address.
    pub proof fn lemma_at_addr(self)
        ensures
            Self::at(self.addr()) == self,
            Self::at(self.addr()).addr() == self.addr(),
    {
    }
}

/// A stack allocated root containing data of type `T`.
pub struct JSRoot<T> {
    value: Option<T>,
    pin: usize,
}

impl<T> JSRoot<T> {
    /// The data the root holds, while it is pinned.
    pub closed spec fn value(&self) -> Option<T> {
        self.value
    }

    /// The slot of this root in the registry of its context.
    pub closed spec fn slot(&self) -> usize {
        self.pin
    }

    /// Pin `value` in this root: the root is linked at the head of the context's roots.
    pub fn pin<'a, U, S, V>(&'a mut self, cx: &mut JSContext<S, V>, value: U) -> (r: JSPinnedRoot<'a, T>) where
        T: JSTraceable,
        U: JSRootable<'a, Aged = T>,

        requires
            old(self).slot() < old(cx).root_slots(),
            !old(cx).roots().contains(old(self).slot()),
        ensures
            final(cx).roots() == seq![old(self).slot()] + old(cx).roots(),
            final(cx).roots().contains(old(self).slot()),
            final(cx).root_slots() == old(cx).root_slots(),
            final(cx).heap() == old(cx).heap(),
            final(cx).global_addr() == old(cx).global_addr(),
            final(cx).roots_distinct(),
            final(cx).root_keeps(old(self).slot()) == value.aged().traced(),
            forall|k: usize| k < old(cx).root_slots() && k != old(self).slot() ==> #[trigger] final(cx).root_keeps(k) == old(cx).root_keeps(k),
            r.root().value() == Some(value.aged()),
            r.root().slot() == old(self).slot(),
            r.keeps_its_value(final(cx)),
    {
        let aged = value.change_lifetime();
        let mut trc = JSTracer::new();
        aged.trace(&mut trc);
        assert(trc@ =~= aged.traced());
        self.value = Some(aged);
        cx.link_root(self.pin, trc.into_reflectors());
        assert(cx.roots()[0] == self.pin);
        JSPinnedRoot(self)
    }

    /// Read-write access to the data of a root that holds some.
    fn value_mut(&mut self) -> (r: &mut T)
        requires
            old(self).value() is Some,
        ensures
            old(self).value() == Some(*r),
            final(self).value() == Some(*final(r)),
            final(self).slot() == old(self).slot(),
        no_unwind
    {
        match &mut self.value {
            Some(v) => v,
            None => vstd::pervasive::unreached(),
        }
    }

    /// Unpin this root: it is unlinked from the context's roots, and its data dropped.
    pub fn unpin<S, V>(&mut self, cx: &mut JSContext<S, V>)
        requires
            old(cx).roots().contains(old(self).slot()),
        ensures
            final(cx).roots() == old(cx).roots().remove(old(cx).roots().index_of(old(self).slot())),
            final(cx).root_slots() == old(cx).root_slots(),
            final(cx).heap() == old(cx).heap(),
            final(cx).global_addr() == old(cx).global_addr(),
            final(cx).roots_distinct(),
            final(cx).root_keeps(old(self).slot()) == Seq::<usize>::empty(),
            forall|k: usize| k < old(cx).root_slots() && k != old(self).slot() ==> #[trigger] final(cx).root_keeps(k) == old(cx).root_keeps(k),
            final(self).value() is None,
            final(self).slot() == old(self).slot(),
    {
        cx.unlink_root(self.pin);
        self.value = None;
    }
}

/// A stack allocated root that has been pinned, so the backing store can't move.
pub struct JSPinnedRoot<'a, T: 'a>(&'a mut JSRoot<T>);

impl<'a, T> JSPinnedRoot<'a, T> {
    #[verifier::type_invariant]
    spec fn holds_value(self) -> bool {
        self.0.value is Some
    }

    /// The root that is pinned.
    pub closed spec fn root(&self) -> JSRoot<T> {
        *self.0
    }

    /// In `cx`, this root is pinned and keeps alive what its current value refers to.
    pub open spec fn keeps_its_value<S, V>(&self, cx: &JSContext<S, V>) -> bool where T: JSTraceable {
        &&& cx.roots().contains(self.root().slot())
        &&& self.root().value() is Some
        &&& cx.root_keeps(self.root().slot()) == self.root().value()->0.traced()
    }

    /// Store `value` in the pinned root: the context's roots now keep alive what it refers to.
    pub fn set<S, V>(&mut self, cx: &mut JSContext<S, V>, value: T) where T: JSTraceable
        requires
            old(cx).roots().contains(old(self).root().slot()),
        ensures
            final(self).root().value() == Some(value),
            final(self).root().slot() == old(self).root().slot(),
            final(cx).root_keeps(old(self).root().slot()) == value.traced(),
            forall|k: usize| k < old(cx).root_slots() && k != old(self).root().slot()
                ==> #[trigger] final(cx).root_keeps(k) == old(cx).root_keeps(k),
            final(cx).roots() == old(cx).roots(),
            final(cx).root_slots() == old(cx).root_slots(),
            final(cx).heap() == old(cx).heap(),
            final(cx).global_addr() == old(cx).global_addr(),
            final(cx).roots_distinct(),
            final(self).keeps_its_value(final(cx)),
    {
        proof {
            use_type_invariant(&*self);
        }
        let mut trc = JSTracer::new();
        value.trace(&mut trc);
        assert(trc@ =~= value.traced());
        cx.rekeep_root(self.0.pin, trc.into_reflectors());
        *self.0.value_mut() = value;
    }

    /// Unpin the root when its pinning ends: it is unlinked from the context's roots,
    /// and handed back, holding no value.
    pub fn unpin<S, V>(self, cx: &mut JSContext<S, V>) -> (r: &'a mut JSRoot<T>)
        requires
            old(cx).roots().contains(self.root().slot()),
        ensures
            final(cx).roots() == old(cx).roots().remove(old(cx).roots().index_of(self.root().slot())),
            final(cx).root_slots() == old(cx).root_slots(),
            final(cx).heap() == old(cx).heap(),
            final(cx).global_addr() == old(cx).global_addr(),
            final(cx).roots_distinct(),
            final(cx).root_keeps(self.root().slot()) == Seq::<usize>::empty(),
            forall|k: usize| k < old(cx).root_slots() && k != self.root().slot() ==> #[trigger] final(cx).root_keeps(k) == old(cx).root_keeps(k),
            r.value() is None,
            r.slot() == self.root().slot(),
    {
        let JSPinnedRoot(root) = self;
        root.unpin(cx);
        root
    }
}

impl<'a, T> std::ops::Deref for JSPinnedRoot<'a, T> {
    type Target = T;

    fn deref(&self) -> (r: &T)
        ensures
            self.root().value() == Some(*r),
    {
        proof {
            use_type_invariant(self);
        }
        match &self.0.value {
            Some(v) => v,
            None => vstd::pervasive::unreached(),
        }
    }
}

/// The compartment that `start` hands to `run`.
pub struct JSCompartmentImpl;

impl<K> HasGlobal<K> for JSCompartmentImpl {}

/// A user of a JS runtime implements `JSRunnable`.
///
/// The heap of the compartment that `start` creates holds native values of type `V`;
/// `V` may refer to JS-managed data of that compartment, `JSCompartmentImpl`.
pub trait JSRunnable<K, V>: Sized {
    /// This callback is called with the compartment `JSCompartmentImpl`,
    /// and a context whose heap, global and roots are empty.
    fn run<S>(self, cx: JSContext<S, V>) where
        S: CanCreate<JSCompartmentImpl>,

        requires
            cx.heap().len() == 0,
            cx.global_addr() is None,
            cx.roots().len() == 0,
            cx.root_slots() == 0,
    ;

    /// To trigger the callback, call `rt.start()`: `run` is called on `self`, with a context
    /// whose heap, global and roots are empty.
    fn start(self)
        ensures
            exists|cx: JSContext<Uninitialized<JSCompartmentImpl>, V>|
                cx.heap().len() == 0 && cx.global_addr() is None && cx.roots().len() == 0
                    && cx.root_slots() == 0
                    && #[trigger] call_ensures(Self::run::<Uninitialized<JSCompartmentImpl>>, (self, cx), ()),
    {
        let cx: JSContext<Uninitialized<JSCompartmentImpl>, V> = JSContext {
            global_raw: None,
            heap: Vec::new(),
            roots: JSPinnedRoots::new(),
            marker: PhantomData,
        };
        self.run::<Uninitialized<JSCompartmentImpl>>(cx);
    }
}

} // verus!
