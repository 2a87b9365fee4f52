//! The registry of pinned roots: a doubly linked list whose nodes live in an arena.
//!
//! Every root that has been created has a slot in the arena. A root that is pinned
//! is linked into the list; the most recently pinned root is at the head. Unpinning
//! unlinks a root in constant time, wherever it stands in the list.
use vstd::prelude::*;

verus! {

/// A slot for one root: while the root is pinned, the reflectors of the value it holds
/// (what tracing the roots reaches through it); and its neighbours in the list.
struct JSUntypedPinnedRoot {
    value: Option<Vec<usize>>,
    next: Option<usize>,
    prev: Option<usize>,
}

/// The arena and the links, with the order of the list kept as a ghost sequence.
struct RootList {
    nodes: Vec<JSUntypedPinnedRoot>,
    head: Option<usize>,
    order: Ghost<Seq<usize>>,
}

/// The neighbour that follows position `i` of `order`, if any.
spec fn next_of(order: Seq<usize>, i: int) -> Option<usize> {
    if i + 1 < order.len() {
        Some(order[i + 1])
    } else {
        None
    }
}

/// The neighbour that precedes position `i` of `order`, if any.
spec fn prev_of(order: Seq<usize>, i: int) -> Option<usize> {
    if i > 0 {
        Some(order[i - 1])
    } else {
        None
    }
}

/// The head that a list in the given order has.
spec fn head_of(order: Seq<usize>) -> Option<usize> {
    if order.len() > 0 {
        Some(order[0])
    } else {
        None
    }
}

impl RootList {
    spec fn linked_at(&self, i: int) -> bool {
        let id: usize = self.order@[i];
        &&& id < self.nodes@.len()
        &&& self.nodes@[id as int].value is Some
        &&& self.nodes@[id as int].next == next_of(self.order@, i)
        &&& self.nodes@[id as int].prev == prev_of(self.order@, i)
    }

    spec fn unlinked(&self, id: usize) -> bool {
        &&& self.nodes@[id as int].value is None
        &&& self.nodes@[id as int].next is None
        &&& self.nodes@[id as int].prev is None
    }

    /// What each slot holds, by slot.
    spec fn values(&self) -> Seq<Option<Vec<usize>>> {
        self.nodes@.map_values(|n: JSUntypedPinnedRoot| n.value)
    }

    spec fn wf(&self) -> bool {
        &&& self.order@.no_duplicates()
        &&& self.head == head_of(self.order@)
        &&& forall|i: int| 0 <= i < self.order@.len() ==> #[trigger] self.linked_at(i)
        &&& forall|id: usize|
            id < self.nodes@.len() && !self.order@.contains(id) ==> #[trigger] self.unlinked(id)
    }

    fn new() -> (r: Self)
        ensures
            r.wf(),
            r.order@ == Seq::<usize>::empty(),
            r.nodes@.len() == 0,
    {
        RootList { nodes: Vec::new(), head: None, order: Ghost(Seq::empty()) }
    }

    fn add_slot(&mut self) -> (id: usize)
        requires
            old(self).wf(),
        ensures
            final(self).wf(),
            final(self).order@ == old(self).order@,
            final(self).nodes@.len() == old(self).nodes@.len() + 1,
            id == old(self).nodes@.len(),
            final(self).values() == old(self).values().push(None),
    {
        let id: usize = self.nodes.len();
        self.nodes.push(JSUntypedPinnedRoot { value: None, next: None, prev: None });
        proof {
            assert forall|i: int| 0 <= i < self.order@.len() implies #[trigger] self.linked_at(i) by {
                assert(old(self).linked_at(i));
            }
            assert forall|k: usize|
                k < self.nodes@.len() && !self.order@.contains(k)
                implies #[trigger] self.unlinked(k) by {
                if k < id {
                    assert(old(self).unlinked(k));
                }
            }
        }
        id
    }

    fn push_front(&mut self, id: usize, reflectors: Vec<usize>)
        requires
            old(self).wf(),
            id < old(self).nodes@.len(),
            !old(self).order@.contains(id),
        ensures
            final(self).wf(),
            final(self).order@ == seq![id] + old(self).order@,
            final(self).nodes@.len() == old(self).nodes@.len(),
            final(self).values() == old(self).values().update(id as int, Some(reflectors)),
    {
        let ghost old_order = self.order@;
        let ghost new_order = seq![id] + old_order;
        let old_head = self.head;
        proof {
            assert(self.unlinked(id));
        }
        match old_head {
            Some(h) => {
                assert(self.linked_at(0));
                self.nodes[h].prev = Some(id);
            },
            None => {},
        }
        self.nodes.set(id, JSUntypedPinnedRoot { value: Some(reflectors), next: old_head, prev: None });
        self.head = Some(id);
        self.order = Ghost(new_order);
        proof {
            assert forall|i: int| 0 <= i < new_order.len() implies #[trigger] self.linked_at(i) by {
                if i == 0 {
                } else {
                    assert(old(self).linked_at(i - 1));
                    assert(new_order[i] == old_order[i - 1]);
                    assert(new_order[i] != id);
                }
            }
            assert forall|k: usize|
                k < self.nodes@.len() && !new_order.contains(k)
                implies #[trigger] self.unlinked(k) by {
                assert(new_order[0] == id);
                assert(!old_order.contains(k)) by {
                    if old_order.contains(k) {
                        let j: int = choose|j: int| 0 <= j < old_order.len() && old_order[j] == k;
                        assert(new_order[j + 1] == k);
                    }
                }
                assert(old(self).unlinked(k));
                if old_head is Some {
                    assert(old_order[0] == old_head->0);
                }
            }
            assert(new_order.no_duplicates()) by {
                assert forall|a: int, b: int|
                    0 <= a < new_order.len() && 0 <= b < new_order.len() && a != b
                    implies new_order[a] != new_order[b] by {
                    if a == 0 && b > 0 {
                        assert(old_order[b - 1] == new_order[b]);
                    } else if b == 0 && a > 0 {
                        assert(old_order[a - 1] == new_order[a]);
                    }
                }
            }
        }
    }

    fn set_value(&mut self, id: usize, reflectors: Vec<usize>)
        requires
            old(self).wf(),
            old(self).order@.contains(id),
        ensures
            final(self).wf(),
            final(self).order@ == old(self).order@,
            final(self).nodes@.len() == old(self).nodes@.len(),
            final(self).values() == old(self).values().update(id as int, Some(reflectors)),
    {
        let ghost pos: int = old(self).order@.index_of(id);
        proof {
            assert(self.linked_at(pos));
        }
        self.nodes[id].value = Some(reflectors);
        proof {
            assert forall|i: int| 0 <= i < self.order@.len() implies #[trigger] self.linked_at(i) by {
                assert(old(self).linked_at(i));
            }
            assert forall|k: usize|
                k < self.nodes@.len() && !self.order@.contains(k)
                implies #[trigger] self.unlinked(k) by {
                assert(old(self).unlinked(k));
            }
        }
    }

    fn remove(&mut self, id: usize)
        requires
            old(self).wf(),
            old(self).order@.contains(id),
        ensures
            final(self).wf(),
            final(self).order@ == old(self).order@.remove(old(self).order@.index_of(id)),
            final(self).nodes@.len() == old(self).nodes@.len(),
            final(self).values() == old(self).values().update(id as int, None),
    {
        let ghost old_order = self.order@;
        let ghost pos: int = old_order.index_of(id);
        let ghost new_order = old_order.remove(pos);
        proof {
            assert(old_order[pos] == id);
            assert(self.linked_at(pos));
            if pos > 0 {
                assert(self.linked_at(pos - 1));
            }
            if pos + 1 < old_order.len() {
                assert(self.linked_at(pos + 1));
            }
        }
        let next = self.nodes[id].next;
        let prev = self.nodes[id].prev;
        match next {
            Some(n) => {
                self.nodes[n].prev = prev;
            },
            None => {},
        }
        match prev {
            Some(p) => {
                assert(old(self).linked_at(pos - 1));
                assert(old_order[pos - 1] != old_order[pos + 1] || next is None);
                self.nodes[p].next = next;
            },
            None => {
                self.head = next;
            },
        }
        self.nodes.set(id, JSUntypedPinnedRoot { value: None, next: None, prev: None });
        self.order = Ghost(new_order);
        proof {
            old_order.remove_ensures(pos);
            assert forall|i: int| 0 <= i < new_order.len() implies #[trigger] self.linked_at(i) by {
                if i < pos {
                    assert(old(self).linked_at(i));
                    assert(old_order[i] != id);
                } else {
                    assert(old(self).linked_at(i + 1));
                    assert(old_order[i + 1] != id);
                }
            }
            assert forall|k: usize|
                k < self.nodes@.len() && !new_order.contains(k)
                implies #[trigger] self.unlinked(k) by {
                if k != id {
                    assert(!old_order.contains(k)) by {
                        if old_order.contains(k) {
                            let j: int = choose|j: int| 0 <= j < old_order.len() && old_order[j] == k;
                            if j < pos {
                                assert(old_order.remove(pos)[j] == old_order[j]);
                                assert(new_order[j] == k);
                            } else if j > pos {
                                assert(old_order.remove(pos)[j - 1] == old_order[j]);
                                assert(new_order[j - 1] == k);
                            }
                        }
                    }
                    assert(old(self).unlinked(k));
                }
            }
            assert(new_order.no_duplicates()) by {
                assert forall|a: int, b: int|
                    0 <= a < new_order.len() && 0 <= b < new_order.len() && a != b
                    implies new_order[a] != new_order[b] by {
                    let oa: int = if a < pos { a } else { a + 1 };
                    let ob: int = if b < pos { b } else { b + 1 };
                    assert(new_order[a] == old_order[oa]);
                    assert(new_order[b] == old_order[ob]);
                }
            }
            if new_order.len() > 0 {
                if pos == 0 {
                    assert(new_order[0] == old_order[1]);
                } else {
                    assert(new_order[0] == old_order[0]);
                }
            }
        }
    }
}

/// The registry of all roots of a context: which roots are pinned, most recent first.
pub struct JSPinnedRoots {
    list: RootList,
}

impl View for JSPinnedRoots {
    type V = Seq<usize>;

    /// The slots of the pinned roots, in list order: the most recently pinned first.
    closed spec fn view(&self) -> Seq<usize> {
        self.list.order@
    }
}

impl JSPinnedRoots {
    #[verifier::type_invariant]
    spec fn inv(self) -> bool {
        self.list.wf()
    }

    /// The number of root slots handed out so far.
    pub closed spec fn slots(&self) -> nat {
        self.list.nodes@.len()
    }

    /// The reflectors that the root in slot `id` keeps alive: those of the value it held
    /// when it was pinned, while it is pinned; none otherwise.
    pub closed spec fn kept_by(&self, id: usize) -> Seq<usize> {
        match self.list.values()[id as int] {
            Some(v) => v@,
            None => Seq::empty(),
        }
    }

    /// Every pinned root is pinned once, and names a slot that was handed out.
    pub open spec fn pinned_distinct(&self) -> bool {
        &&& self@.no_duplicates()
        &&& forall|i: int| 0 <= i < self@.len() ==> #[trigger] self@[i] < self.slots()
    }

    proof fn lemma_inv_pinned_distinct(&self)
        requires
            self.list.wf(),
        ensures
            self.pinned_distinct(),
    {
        assert forall|i: int| 0 <= i < self@.len() implies #[trigger] self@[i] < self.slots() by {
            assert(self.list.linked_at(i));
        }
    }

    pub(crate) fn new() -> (r: Self)
        ensures
            r@ == Seq::<usize>::empty(),
            r.slots() == 0,
            r.pinned_distinct(),
    {
        let r = JSPinnedRoots { list: RootList::new() };
        proof {
            r.lemma_inv_pinned_distinct();
        }
        r
    }

    /// The slots of the pinned roots, read by walking the list from its head.
    pub fn to_vec(&self) -> (r: Vec<usize>)
        ensures
            r@ == self@,
    {
        proof {
            use_type_invariant(self);
        }
        let ghost order = self.list.order@;
        let mut out: Vec<usize> = Vec::new();
        let mut cur = self.list.head;
        let mut i: usize = 0;
        while cur.is_some()
            invariant
                self.list.wf(),
                order == self.list.order@,
                i <= order.len(),
                out@ == order.take(i as int),
                cur == (if i < order.len() { Some(order[i as int]) } else { None::<usize> }),
            decreases order.len() - i,
        {
            let id: usize = cur.unwrap();
            proof {
                assert(self.list.linked_at(i as int));
            }
            out.push(id);
            cur = self.list.nodes[id].next;
            proof {
                assert(order.take(i as int + 1) =~= order.take(i as int).push(id));
            }
            i = out.len();
        }
        proof {
            assert(order.take(i as int) =~= order);
        }
        out
    }

    /// Hands out a fresh slot, not yet pinned.
    pub(crate) fn add_slot(&mut self) -> (id: usize)
        ensures
            final(self)@ == old(self)@,
            final(self).slots() == old(self).slots() + 1,
            id == old(self).slots(),
            !final(self)@.contains(id),
            final(self).pinned_distinct(),
            final(self).kept_by(id) == Seq::<usize>::empty(),
            forall|k: usize| k < old(self).slots() ==> #[trigger] final(self).kept_by(k) == old(self).kept_by(k),
    {
        proof {
            use_type_invariant(&*self);
            self.lemma_inv_pinned_distinct();
        }
        let mut list = RootList::new();
        std::mem::swap(&mut list, &mut self.list);
        let ghost old_values = list.values();
        let id: usize = list.add_slot();
        self.list = list;
        proof {
            self.lemma_inv_pinned_distinct();
            assert(self.list.values()[id as int] is None);
            assert forall|k: usize| k < old(self).slots() implies #[trigger] self.kept_by(k) == old(self).kept_by(k) by {
                assert(self.list.values()[k as int] == old_values[k as int]);
            }
        }
        id
    }

    /// Links the slot `id` at the head of the list.
    pub(crate) fn push_front(&mut self, id: usize, reflectors: Vec<usize>)
        requires
            id < old(self).slots(),
            !old(self)@.contains(id),
        ensures
            final(self)@ == seq![id] + old(self)@,
            final(self).slots() == old(self).slots(),
            final(self).pinned_distinct(),
            final(self).kept_by(id) == reflectors@,
            forall|k: usize| k < old(self).slots() && k != id ==> #[trigger] final(self).kept_by(k) == old(self).kept_by(k),
    {
        proof {
            use_type_invariant(&*self);
        }
        let mut list = RootList::new();
        std::mem::swap(&mut list, &mut self.list);
        let ghost old_values = list.values();
        list.push_front(id, reflectors);
        self.list = list;
        proof {
            self.lemma_inv_pinned_distinct();
            assert forall|k: usize| k < old(self).slots() && k != id implies #[trigger] self.kept_by(k) == old(self).kept_by(k) by {
                assert(self.list.values()[k as int] == old_values[k as int]);
            }
        }
    }

    /// Records `reflectors` as what the pinned slot `id` keeps alive.
    pub(crate) fn set_kept(&mut self, id: usize, reflectors: Vec<usize>)
        requires
            old(self)@.contains(id),
        ensures
            final(self)@ == old(self)@,
            final(self).slots() == old(self).slots(),
            final(self).pinned_distinct(),
            final(self).kept_by(id) == reflectors@,
            forall|k: usize| k < old(self).slots() && k != id ==> #[trigger] final(self).kept_by(k) == old(self).kept_by(k),
    {
        proof {
            use_type_invariant(&*self);
            self.lemma_inv_pinned_distinct();
            let j: int = choose|j: int| 0 <= j < self@.len() && self@[j] == id;
            assert(self@[j] < self.slots());
        }
        let mut list = RootList::new();
        std::mem::swap(&mut list, &mut self.list);
        let ghost old_values = list.values();
        list.set_value(id, reflectors);
        self.list = list;
        proof {
            self.lemma_inv_pinned_distinct();
            assert forall|k: usize| k < old(self).slots() && k != id implies #[trigger] self.kept_by(k) == old(self).kept_by(k) by {
                assert(self.list.values()[k as int] == old_values[k as int]);
            }
        }
    }

    /// Unlinks the slot `id`, wherever it stands in the list.
    pub(crate) fn remove(&mut self, id: usize)
        requires
            old(self)@.contains(id),
        ensures
            final(self)@ == old(self)@.remove(old(self)@.index_of(id)),
            final(self).slots() == old(self).slots(),
            final(self).pinned_distinct(),
            final(self).kept_by(id) == Seq::<usize>::empty(),
            forall|k: usize| k < old(self).slots() && k != id ==> #[trigger] final(self).kept_by(k) == old(self).kept_by(k),
    {
        proof {
            use_type_invariant(&*self);
            self.lemma_inv_pinned_distinct();
            let j: int = choose|j: int| 0 <= j < self@.len() && self@[j] == id;
            assert(self@[j] < self.slots());
        }
        let mut list = RootList::new();
        std::mem::swap(&mut list, &mut self.list);
        let ghost old_values = list.values();
        list.remove(id);
        self.list = list;
        proof {
            self.lemma_inv_pinned_distinct();
            assert(self.list.values()[id as int] is None);
            assert forall|k: usize| k < old(self).slots() && k != id implies #[trigger] self.kept_by(k) == old(self).kept_by(k) by {
                assert(self.list.values()[k as int] == old_values[k as int]);
            }
        }
    }
}

} // verus!
