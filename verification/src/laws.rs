//! Laws that relate the operations of contexts and roots to one another.
use vstd::prelude::*;

use crate::class::HasInstance;
use crate::context::{JSContext, JSManaged, JSPinnedRoot, JSRootable};
use crate::trace::{traced_all, JSTraceable};

verus! {

/// Data handed to JS by `manage` is live, and reading it back gives the data that was handed
/// over. The address is fresh, and everything that was live before keeps its contents.
pub proof fn law_manage_then_get<S, V>(
    before: JSContext<S, V>,
    after: JSContext<S, V>,
    addr: usize,
    value: V,
)
    requires
        before.manages(&after, addr, value),
    ensures
        after.live(addr),
        after.heap()[addr as int] == Some(value),
        !before.live(addr),
        forall|a: usize| #[trigger] before.live(a) ==> after.live(a) && after.heap()[a as int] == before.heap()[a as int],
{
}

/// `later` was reached from `earlier` by handing data to JS: the heap only grew,
/// and the global stayed where it was.
pub open spec fn grows_into<S1, S2, V>(earlier: JSContext<S1, V>, later: JSContext<S2, V>) -> bool {
    &&& earlier.heap().len() <= later.heap().len()
    &&& later.heap().subrange(0, earlier.heap().len() as int) == earlier.heap()
    &&& later.global_addr() == earlier.global_addr()
}

/// Each call of `manage` grows the heap, and growing is transitive: whatever sequence of
/// allocations separates two contexts, the older one's cells are unchanged in the newer.
pub proof fn law_manage_grows<S1, S2, S3, V>(
    a: JSContext<S1, V>,
    b: JSContext<S2, V>,
    c: JSContext<S3, V>,
    addr: usize,
    value: V,
)
    requires
        a.manages(&b, addr, value),
        grows_into(b, c),
    ensures
        grows_into(a, b),
        grows_into(a, c),
{
    assert(b.heap().subrange(0, a.heap().len() as int) =~= a.heap());
    assert(c.heap().subrange(0, a.heap().len() as int) =~= a.heap()) by {
        assert forall|i: int| 0 <= i < a.heap().len() implies c.heap()[i] == a.heap()[i] by {
            assert(c.heap().subrange(0, b.heap().len() as int)[i] == c.heap()[i]);
        }
    }
}

/// The global that `create_compartment` reserves is the cell that `global_manage` fills,
/// whatever was allocated in between: afterwards the global reads back the data given to
/// `global_manage`, and every other cell is as it was.
pub proof fn law_global_manage_then_get<S0, S1, S2, S3, V>(
    fresh: JSContext<S0, V>,
    created: JSContext<S1, V>,
    filled_in: JSContext<S2, V>,
    done: JSContext<S3, V>,
    value: V,
)
    requires
        created.heap() == fresh.heap().push(None),
        created.global_addr() is Some,
        created.global_addr()->0 == fresh.heap().len(),
        grows_into(created, filled_in),
        done.heap() == filled_in.heap().update(filled_in.global_addr()->0 as int, Some(value)),
        done.global_addr() == filled_in.global_addr(),
    ensures
        done.global_addr() == created.global_addr(),
        done.live(created.global_addr()->0),
        done.heap()[fresh.heap().len() as int] == Some(value),
        forall|a: int|
            0 <= a < filled_in.heap().len() && a != fresh.heap().len() ==> done.heap()[a] == filled_in.heap()[a],
{
    let g: int = fresh.heap().len() as int;
    assert(filled_in.heap().subrange(0, created.heap().len() as int)[g] == filled_in.heap()[g]);
}

/// Ending a snapshot gives back a context with everything the context had when the
/// snapshot was taken.
pub proof fn law_release_undoes_snapshot<S, T, V>(
    before: JSContext<S, V>,
    snapshot: JSContext<T, V>,
    released: JSContext<S, V>,
)
    requires
        before.same_contents(&snapshot),
        snapshot.same_contents(&released),
    ensures
        before.same_contents(&released),
{
}

/// `after` keeps alive, with the same length of heap, everything that was live in `before`.
pub open spec fn keeps_live<S1, S2, V>(before: JSContext<S1, V>, after: JSContext<S2, V>) -> bool {
    &&& after.heap().len() == before.heap().len()
    &&& forall|a: usize| #[trigger] before.live(a) ==> after.live(a)
}

/// Any data which is live at the beginning of a snapshot is live at its end: a snapshotted
/// context cannot allocate, and writing through `get_mut` keeps every live cell live,
/// however many writes happen in turn.
pub proof fn law_writes_keep_live<S, V>(
    before: JSContext<S, V>,
    after: JSContext<S, V>,
    later: JSContext<S, V>,
    addr: usize,
    value: V,
)
    requires
        before.live(addr),
        after.heap() == before.heap().update(addr as int, Some(value)),
        keeps_live(after, later),
    ensures
        keeps_live(before, after),
        keeps_live(before, later),
        after.heap()[addr as int] == Some(value),
{
    assert forall|a: usize| #[trigger] before.live(a) implies after.live(a) by {
        if a != addr {
            assert(after.heap()[a as int] == before.heap()[a as int]);
        }
    }
}

/// What a context holds of JS-managed data, whatever its state: its heap and its global.
pub open spec fn heap_model<S, V>(cx: JSContext<S, V>) -> (Seq<Option<V>>, Option<usize>) {
    (cx.heap(), cx.global_addr())
}

/// `later` was reached from `earlier` by calls that keep the global where it is and keep
/// every live piece of data live.
pub open spec fn model_evolves<V>(earlier: (Seq<Option<V>>, Option<usize>), later: (Seq<Option<V>>, Option<usize>)) -> bool {
    &&& later.1 == earlier.1
    &&& earlier.0.len() <= later.0.len()
    &&& forall|a: int| 0 <= a < earlier.0.len() && (#[trigger] earlier.0[a]) is Some ==> later.0[a] is Some
}

/// `evolves` over contexts of any two states.
pub open spec fn evolves<S1, S2, V>(earlier: JSContext<S1, V>, later: JSContext<S2, V>) -> bool {
    model_evolves(heap_model(earlier), heap_model(later))
}

/// Every call on a context evolves it, whatever the states before and after: `manage`
/// (and `snapshot_manage`), a write through `get_mut`, `snapshot` and `release`, and the root
/// calls, which leave heap and global alone.
pub proof fn law_calls_evolve<S1, S2, V>(before: JSContext<S1, V>, after: JSContext<S2, V>, addr: usize, value: V)
    ensures
        before.manages(&after, addr, value) ==> evolves(before, after),
        (before.live(addr) && after.heap() == before.heap().update(addr as int, Some(value))
            && after.global_addr() == before.global_addr()) ==> evolves(before, after),
        before.same_contents(&after) ==> evolves(before, after),
        (after.heap() == before.heap() && after.global_addr() == before.global_addr()) ==> evolves(before, after),
{
    if before.manages(&after, addr, value) {
        assert forall|a: int| 0 <= a < before.heap().len() && (#[trigger] before.heap()[a]) is Some
            implies after.heap()[a] is Some by {
            assert(after.heap()[a] == before.heap()[a]);
        }
    }
    if before.live(addr) && after.heap() == before.heap().update(addr as int, Some(value)) {
        assert forall|a: int| 0 <= a < before.heap().len() && (#[trigger] before.heap()[a]) is Some
            implies after.heap()[a] is Some by {
            if a != addr {
                assert(after.heap()[a] == before.heap()[a]);
            }
        }
    }
}

/// Evolving is transitive.
pub proof fn law_evolves_trans<V>(
    a: (Seq<Option<V>>, Option<usize>),
    b: (Seq<Option<V>>, Option<usize>),
    c: (Seq<Option<V>>, Option<usize>),
)
    requires
        model_evolves(a, b),
        model_evolves(b, c),
    ensures
        model_evolves(a, c),
{
    assert forall|x: int| 0 <= x < a.0.len() && (#[trigger] a.0[x]) is Some implies c.0[x] is Some by {
        assert(b.0[x] is Some);
    }
}

/// Over any chain of calls, through contexts of any states (a context, its snapshots, the
/// context they are released to), the global never moves and data that is live stays live:
/// the global handle refers to the same data throughout, and data live when a snapshot is
/// taken is live until the snapshot ends.
pub proof fn law_evolves_over_calls<V>(ms: Seq<(Seq<Option<V>>, Option<usize>)>)
    requires
        ms.len() > 0,
        forall|i: int| 0 <= i < ms.len() - 1 ==> model_evolves(#[trigger] ms[i], ms[i + 1]),
    ensures
        model_evolves(ms[0], ms.last()),
        forall|i: int| 0 <= i < ms.len() ==> (#[trigger] ms[i]).1 == ms[0].1,
    decreases ms.len(),
{
    if ms.len() == 1 {
    } else {
        let front = ms.drop_last();
        assert forall|i: int| 0 <= i < front.len() - 1 implies model_evolves(#[trigger] front[i], front[i + 1]) by {
            assert(front[i] == ms[i] && front[i + 1] == ms[i + 1]);
        }
        law_evolves_over_calls(front);
        assert(model_evolves(ms[ms.len() - 2], ms[ms.len() - 1]));
        law_evolves_trans(ms[0], front.last(), ms.last());
        assert forall|i: int| 0 <= i < ms.len() implies (#[trigger] ms[i]).1 == ms[0].1 by {
            if i < ms.len() - 1 {
                assert(front[i] == ms[i]);
            }
        }
    }
}

/// A write through `get_mut` changes only the cell written, and reading it back gives what
/// was written, whatever the type of the native data.
pub proof fn law_write_then_read<S1, S2, V>(before: JSContext<S1, V>, after: JSContext<S2, V>, addr: usize, value: V)
    requires
        before.live(addr),
        after.heap() == before.heap().update(addr as int, Some(value)),
    ensures
        after.live(addr),
        after.heap()[addr as int] == Some(value),
        forall|a: int| 0 <= a < before.heap().len() && a != addr ==> after.heap()[a] == before.heap()[a],
{
}

/// A snapshot reads the same data and the same global as the context it was taken of.
pub proof fn law_snapshot_reads_same<S1, S2, V>(before: JSContext<S1, V>, snapshot: JSContext<S2, V>, addr: usize)
    requires
        before.same_contents(&snapshot),
    ensures
        before.live(addr) ==> snapshot.live(addr) && snapshot.heap()[addr as int] == before.heap()[addr as int],
        snapshot.global_addr() == before.global_addr(),
        forall|k: usize| #[trigger] snapshot.root_keeps(k) == before.root_keeps(k),
{
}

/// A call that does not touch a pinned root leaves it keeping its value alive: pinning or
/// unpinning another root, and every call that keeps the roots and what they keep.
pub proof fn law_other_calls_keep_pinned<'a, S1, S2, V, T: JSTraceable>(
    before: JSContext<S1, V>,
    after: JSContext<S2, V>,
    pinned: JSPinnedRoot<'a, T>,
    other: usize,
)
    requires
        pinned.keeps_its_value(&before),
        before.roots_distinct(),
        other != pinned.root().slot(),
        forall|k: usize| k < before.root_slots() && k != other ==> #[trigger] after.root_keeps(k) == before.root_keeps(k),
        (!before.roots().contains(other) && after.roots() == seq![other] + before.roots())
            || (before.roots().contains(other)
                && after.roots() == before.roots().remove(before.roots().index_of(other)))
            || after.roots() == before.roots(),
    ensures
        pinned.keeps_its_value(&after),
{
    let slot = pinned.root().slot();
    let i: int = choose|i: int| 0 <= i < before.roots().len() && before.roots()[i] == slot;
    assert(slot < before.root_slots());
    if !before.roots().contains(other) && after.roots() == seq![other] + before.roots() {
        assert(after.roots()[i + 1] == slot);
    } else if before.roots().contains(other)
        && after.roots() == before.roots().remove(before.roots().index_of(other)) {
        law_unpin_keeps_others(before.roots(), after.roots(), other);
    }
}

/// A pinned root keeps alive the data its current value refers to: whatever `pin` stored
/// or `set` stored last, for as long as the root stays pinned.
pub proof fn law_pinned_root_keeps_its_data<'a, S, V, T: JSTraceable>(
    cx: JSContext<S, V>,
    pinned: JSPinnedRoot<'a, T>,
    addr: usize,
)
    requires
        pinned.keeps_its_value(&cx),
        pinned.root().value()->0.traced().contains(addr),
    ensures
        cx.kept_alive(addr),
{
    let slot = pinned.root().slot();
    let i: int = choose|i: int| 0 <= i < cx.roots().len() && cx.roots()[i] == slot;
    assert(cx.root_keeps(cx.roots()[i]).contains(addr));
}

/// A handle pinned in a root is kept alive: tracing a handle reports its own reflector.
pub proof fn law_pinned_handle_kept_alive<'a, 'b, S, V, C, K>(
    cx: JSContext<S, V>,
    pinned: JSPinnedRoot<'a, JSManaged<'b, C, K>>,
) where
    K: HasInstance<'b, C>,
    K::Instance: JSTraceable,

    requires
        pinned.keeps_its_value(&cx),
    ensures
        cx.kept_alive(pinned.root().value()->0.addr()),
{
    let h = pinned.root().value()->0;
    assert(h.traced()[0] == h.addr());
    law_pinned_root_keeps_its_data(cx, pinned, h.addr());
}

/// Unpinning a root undoes pinning it: the list of pinned roots is as it was before.
pub proof fn law_unpin_undoes_pin(before: Seq<usize>, pinned: Seq<usize>, unpinned: Seq<usize>, slot: usize)
    requires
        !before.contains(slot),
        pinned == seq![slot] + before,
        unpinned == pinned.remove(pinned.index_of(slot)),
    ensures
        unpinned == before,
{
    let i: int = pinned.index_of(slot);
    assert(pinned[0] == slot);
    assert(pinned.contains(slot));
    if i != 0 {
        assert(pinned[i] == before[i - 1]);
        assert(before.contains(slot));
    }
    assert(pinned.remove(0) =~= before);
}

/// Unpinning a root unpins that root alone: the others stay pinned, in the same order,
/// each still pinned once.
pub proof fn law_unpin_keeps_others(before: Seq<usize>, after: Seq<usize>, slot: usize)
    requires
        before.no_duplicates(),
        before.contains(slot),
        after == before.remove(before.index_of(slot)),
    ensures
        !after.contains(slot),
        after.no_duplicates(),
        forall|x: usize| x != slot ==> (before.contains(x) <==> after.contains(x)),
        after.len() == before.len() - 1,
{
    let i: int = before.index_of(slot);
    before.remove_ensures(i);
    if after.contains(slot) {
        let j: int = choose|j: int| 0 <= j < after.len() && after[j] == slot;
        if j < i {
            assert(before[j] == slot);
        } else {
            assert(before[j + 1] == slot);
        }
    }
    assert forall|a: int, b: int| 0 <= a < after.len() && 0 <= b < after.len() && a != b implies after[a] != after[b] by {
        let oa: int = if a < i { a } else { a + 1 };
        let ob: int = if b < i { b } else { b + 1 };
        assert(after[a] == before[oa]);
        assert(after[b] == before[ob]);
    }
    assert forall|x: usize| x != slot implies (before.contains(x) <==> after.contains(x)) by {
        if before.contains(x) {
            let j: int = choose|j: int| 0 <= j < before.len() && before[j] == x;
            if j < i {
                assert(after[j] == x);
            } else {
                assert(j != i);
                assert(after[j - 1] == x);
            }
        }
        if after.contains(x) {
            let j: int = choose|j: int| 0 <= j < after.len() && after[j] == x;
            if j < i {
                assert(before[j] == x);
            } else {
                assert(before[j + 1] == x);
            }
        }
    }
}

/// Tracing the values of two sequences in turn reports what tracing the values of their
/// concatenation reports.
pub proof fn law_trace_concat<T: JSTraceable>(a: Seq<T>, b: Seq<T>)
    ensures
        traced_all(a + b) == traced_all(a) + traced_all(b),
    decreases b.len(),
{
    if b.len() == 0 {
        assert(a + b =~= a);
        assert(traced_all(a) + Seq::<usize>::empty() =~= traced_all(a));
    } else {
        law_trace_concat(a, b.drop_last());
        assert((a + b).drop_last() =~= a + b.drop_last());
        assert((a + b).last() == b.last());
        assert(traced_all(a) + traced_all(b.drop_last()) + b.last().traced()
            =~= traced_all(a) + (traced_all(b.drop_last()) + b.last().traced()));
    }
}

/// Giving a handle another lifetime keeps its address: what `change_lifetime` and
/// `contract_lifetime` return, and what `pin` stores in a root, names the same data as the
/// handle given.
pub proof fn law_aging_keeps_address<'a, 'b, C, K>(h: JSManaged<'b, C, K>)
    ensures
        <JSManaged<'b, C, K> as JSRootable<'a>>::aged(h).addr() == h.addr(),
{
    JSManaged::<'a, C, K>::lemma_at(h.addr());
}

/// Tracing a handle reports its own reflector, and nothing else.
pub proof fn law_handle_traces_its_reflector<'a, C, K>(h: JSManaged<'a, C, K>) where
    K: HasInstance<'a, C>,
    K::Instance: JSTraceable,

    ensures
        h.traced() == seq![h.addr()],
{
}

/// Strings and integers refer to no JS-managed data.
pub proof fn law_plain_data_traces_nothing(s: String, n: usize)
    ensures
        s.traced() == Seq::<usize>::empty(),
        n.traced() == Seq::<usize>::empty(),
{
}

/// Tracing `Some(x)` reports exactly what tracing `x` reports; tracing `None` reports nothing.
pub proof fn law_option_traces_contents<T: JSTraceable>(x: T)
    ensures
        Some(x).traced() == x.traced(),
        None::<T>.traced() == Seq::<usize>::empty(),
{
}

/// An empty vector reports nothing, a vector of one element reports what that element
/// reports, and a vector that is `a` followed by `b` reports what `a` reports followed by what
/// `b` reports: tracing a vector reports every element's reflectors, in order.
pub proof fn law_vec_traces_its_elements<T: JSTraceable>(v: Vec<T>, a: Vec<T>, b: Vec<T>, x: T)
    ensures
        v@.len() == 0 ==> v.traced() == Seq::<usize>::empty(),
        v@ == seq![x] ==> v.traced() == x.traced(),
        v@ == a@ + b@ ==> v.traced() == a.traced() + b.traced(),
{
    if v@ == seq![x] {
        assert(v@.drop_last() =~= Seq::<T>::empty());
        assert(traced_all(v@.drop_last()) == Seq::<usize>::empty());
        assert(v@.last() == x);
        assert(traced_all(v@) == traced_all(v@.drop_last()) + v@.last().traced());
        assert(Seq::<usize>::empty() + x.traced() =~= x.traced());
    }
    if v@ == a@ + b@ {
        law_trace_concat(a@, b@);
    }
}

} // verus!
