use linjs::{CanAccess, CanAlloc, CanCreate, InCompartment};
use linjs::{JSCompartmentImpl, JSContext, JSManaged, JSRunnable, JSTraceable, JSTracer};

// Runs `f` on an initialized context whose global is the string "global".
struct WithStrings<F>(F);

impl<F: FnOnce(JSContext<linjs::Initialized<JSCompartmentImpl>, String>)> JSRunnable<String, String>
    for WithStrings<F>
{
    fn run<S>(self, cx: JSContext<S, String>)
    where
        S: CanCreate<JSCompartmentImpl>,
    {
        let cx = cx.create_compartment();
        let cx = cx.global_manage(String::from("global"));
        (self.0)(cx);
    }
}

fn rooted_manage<C, S>(cx: &mut JSContext<S, String>, s: &str) -> JSManaged<'static, C, String>
where
    S: CanAccess + CanAlloc + InCompartment<C>,
{
    cx.manage(String::from(s)).change_lifetime()
}

#[test]
fn managed_data_is_fresh_and_reads_back() {
    WithStrings(|mut cx: JSContext<_, String>| {
        let a: JSManaged<JSCompartmentImpl, String> = rooted_manage(&mut cx, "a");
        let b: JSManaged<JSCompartmentImpl, String> = rooted_manage(&mut cx, "b");
        assert_eq!(a.get(&cx), "a");
        assert_eq!(b.get(&cx), "b");
        let mut trc = JSTracer::new();
        a.trace(&mut trc);
        b.trace(&mut trc);
        let r = trc.reflectors();
        assert_eq!(r.len(), 2);
        assert_ne!(r[0], r[1]);
        // The global took the first cell; the managed strings come after it.
        assert_eq!(r[0], 1);
        assert_eq!(r[1], 2);
    })
    .start();
}

#[test]
fn the_global_reads_back_after_other_allocations() {
    struct Late;
    impl JSRunnable<String, String> for Late {
        fn run<S>(self, cx: JSContext<S, String>)
        where
            S: CanCreate<JSCompartmentImpl>,
        {
            let mut cx = cx.create_compartment();
            let name: JSManaged<JSCompartmentImpl, String> =
                cx.manage(String::from("name")).change_lifetime();
            let cx = cx.global_manage(String::from("Alice"));
            assert_eq!(cx.global().get(&cx), "Alice");
            assert_eq!(name.get(&cx), "name");
        }
    }
    Late.start();
}

#[test]
fn release_gives_back_what_the_snapshot_took() {
    WithStrings(|mut cx: JSContext<_, String>| {
        let a: JSManaged<JSCompartmentImpl, String> = rooted_manage(&mut cx, "kept");
        let mut root = cx.new_root::<JSManaged<'static, JSCompartmentImpl, String>>();
        let pinned = root.pin(&mut cx, a);
        let before = cx.pinned_roots();
        let snap = cx.snapshot();
        assert_eq!(snap.pinned_roots(), before);
        assert_eq!(a.get(&snap), "kept");
        let mut cx = snap.release();
        assert_eq!(cx.pinned_roots(), before);
        assert_eq!(a.get(&cx), "kept");
        assert_eq!(cx.global().get(&cx), "global");
        pinned.unpin(&mut cx);
    })
    .start();
}

#[test]
fn writes_in_a_snapshot_keep_other_data_live() {
    WithStrings(|mut cx: JSContext<_, String>| {
        let a: JSManaged<JSCompartmentImpl, String> = rooted_manage(&mut cx, "a");
        let b: JSManaged<JSCompartmentImpl, String> = rooted_manage(&mut cx, "b");
        let mut snap = cx.snapshot();
        *a.get_mut(&mut snap) = String::from("A");
        *a.get_mut(&mut snap) = String::from("AA");
        assert_eq!(a.get(&snap), "AA");
        assert_eq!(b.get(&snap), "b");
        assert_eq!(snap.global().get(&snap), "global");
        let cx = snap.release();
        assert_eq!(a.get(&cx), "AA");
    })
    .start();
}

#[test]
fn unpinning_undoes_pinning_and_keeps_the_other_roots() {
    WithStrings(|mut cx: JSContext<_, String>| {
        let a: JSManaged<JSCompartmentImpl, String> = rooted_manage(&mut cx, "a");
        let mut r1 = cx.new_root::<JSManaged<'static, JSCompartmentImpl, String>>();
        let mut r2 = cx.new_root::<JSManaged<'static, JSCompartmentImpl, String>>();
        let mut r3 = cx.new_root::<JSManaged<'static, JSCompartmentImpl, String>>();
        assert!(cx.pinned_roots().is_empty());
        let p1 = r1.pin(&mut cx, a);
        assert_eq!(cx.pinned_roots(), vec![0]);
        let p2 = r2.pin(&mut cx, a);
        let p3 = r3.pin(&mut cx, a);
        // The most recently pinned root comes first.
        assert_eq!(cx.pinned_roots(), vec![2, 1, 0]);
        assert_eq!((*p2).get(&cx), "a");
        // Unpinning the middle root leaves the others pinned, in order.
        p2.unpin(&mut cx);
        assert_eq!(cx.pinned_roots(), vec![2, 0]);
        p3.unpin(&mut cx);
        assert_eq!(cx.pinned_roots(), vec![0]);
        p1.unpin(&mut cx);
        assert!(cx.pinned_roots().is_empty());
    })
    .start();
}

#[test]
fn pinning_then_unpinning_restores_the_roots() {
    WithStrings(|mut cx: JSContext<_, String>| {
        let a: JSManaged<JSCompartmentImpl, String> = rooted_manage(&mut cx, "a");
        let mut r1 = cx.new_root::<JSManaged<'static, JSCompartmentImpl, String>>();
        let mut r2 = cx.new_root::<JSManaged<'static, JSCompartmentImpl, String>>();
        let p2 = r2.pin(&mut cx, a);
        let before = cx.pinned_roots();
        {
            let p1 = r1.pin(&mut cx, a);
            assert_eq!(cx.pinned_roots(), vec![0, 1]);
            p1.unpin(&mut cx);
        }
        assert_eq!(cx.pinned_roots(), before);
        assert_eq!(before, vec![1]);
        p2.unpin(&mut cx);
        assert!(cx.pinned_roots().is_empty());
    })
    .start();
}

#[test]
fn lifetime_changes_keep_the_same_data() {
    WithStrings(|mut cx: JSContext<_, String>| {
        let a: JSManaged<JSCompartmentImpl, String> = rooted_manage(&mut cx, "same");
        let b: JSManaged<'static, JSCompartmentImpl, String> = a.clone();
        let c: JSManaged<'_, JSCompartmentImpl, String> = linjs::JSRootable::change_lifetime(a);
        let d: JSManaged<'_, JSCompartmentImpl, String> = linjs::JSRootable::contract_lifetime(a);
        let snap = cx.snapshot();
        let e: JSManaged<'_, JSCompartmentImpl, String> = a.extend_lifetime(&snap);
        for h in [b, c, d, e] {
            assert_eq!(h.get(&snap), "same");
        }
        let mut t1 = JSTracer::new();
        let mut t2 = JSTracer::new();
        a.trace(&mut t1);
        e.trace(&mut t2);
        assert_eq!(t1.reflectors(), t2.reflectors());
    })
    .start();
}

#[test]
fn tracing_a_vector_reports_its_elements_in_order() {
    WithStrings(|mut cx: JSContext<_, String>| {
        let a: JSManaged<JSCompartmentImpl, String> = rooted_manage(&mut cx, "a");
        let b: JSManaged<JSCompartmentImpl, String> = rooted_manage(&mut cx, "b");
        let mut trc = JSTracer::new();
        vec![b, a, b].trace(&mut trc);
        Some(a).trace(&mut trc);
        let none: Option<JSManaged<JSCompartmentImpl, String>> = None;
        none.trace(&mut trc);
        String::from("no reflector").trace(&mut trc);
        7usize.trace(&mut trc);
        assert_eq!(trc.reflectors(), &vec![2, 1, 2, 1]);
    })
    .start();
}

#[test]
fn a_fresh_context_is_empty() {
    struct Fresh;
    impl JSRunnable<String, String> for Fresh {
        fn run<S>(self, cx: JSContext<S, String>)
        where
            S: CanCreate<JSCompartmentImpl>,
        {
            assert!(cx.pinned_roots().is_empty());
            let cx = cx.create_compartment();
            let cx = cx.global_manage(String::new());
            assert_eq!(cx.global().get(&cx), "");
        }
    }
    Fresh.start();
}

#[test]
fn a_tracer_starts_empty() {
    let trc = JSTracer::new();
    assert!(trc.reflectors().is_empty());
}

#[test]
fn tracing_in_turn_reports_what_tracing_the_concatenation_reports() {
    WithStrings(|mut cx: JSContext<_, String>| {
        let a: JSManaged<JSCompartmentImpl, String> = rooted_manage(&mut cx, "a");
        let b: JSManaged<JSCompartmentImpl, String> = rooted_manage(&mut cx, "b");
        let mut in_turn = JSTracer::new();
        vec![a, b].trace(&mut in_turn);
        vec![b].trace(&mut in_turn);
        let mut at_once = JSTracer::new();
        vec![a, b, b].trace(&mut at_once);
        assert_eq!(in_turn.reflectors(), at_once.reflectors());
        assert_eq!(at_once.reflectors(), &vec![1, 2, 2]);
    })
    .start();
}

#[test]
fn a_pinned_root_can_be_set_and_is_handed_back() {
    WithStrings(|mut cx: JSContext<_, String>| {
        let a: JSManaged<JSCompartmentImpl, String> = rooted_manage(&mut cx, "a");
        let b: JSManaged<JSCompartmentImpl, String> = rooted_manage(&mut cx, "b");
        let mut root = cx.new_root::<JSManaged<'static, JSCompartmentImpl, String>>();
        let mut pinned = root.pin(&mut cx, a);
        assert_eq!((*pinned).get(&cx), "a");
        pinned.set(&mut cx, b);
        assert_eq!((*pinned).get(&cx), "b");
        // The root now traces what it holds: the same reflector as `b`.
        let mut held = JSTracer::new();
        (*pinned).trace(&mut held);
        let mut direct = JSTracer::new();
        b.trace(&mut direct);
        assert_eq!(held.reflectors(), direct.reflectors());
        let root_back = pinned.unpin(&mut cx);
        let _ = root_back;
        assert!(cx.pinned_roots().is_empty());
    })
    .start();
}

#[test]
fn the_global_stays_put_over_calls() {
    WithStrings(|mut cx: JSContext<_, String>| {
        let g0: JSManaged<JSCompartmentImpl, String> = cx.global();
        let a: JSManaged<JSCompartmentImpl, String> = rooted_manage(&mut cx, "a");
        *a.get_mut(&mut cx) = String::from("b");
        let (snap, _c) = cx.snapshot_manage::<JSCompartmentImpl, String>(String::from("c"));
        let g1: JSManaged<JSCompartmentImpl, String> = snap.global();
        let cx = snap.release();
        let g2: JSManaged<JSCompartmentImpl, String> = cx.global();
        let mut t0 = JSTracer::new();
        g0.trace(&mut t0);
        let mut t1 = JSTracer::new();
        g1.trace(&mut t1);
        g2.trace(&mut t1);
        assert_eq!(t0.reflectors(), &vec![0]);
        assert_eq!(t1.reflectors(), &vec![0, 0]);
        assert_eq!(g2.get(&cx), "global");
        assert_eq!(a.get(&cx), "b");
    })
    .start();
}
