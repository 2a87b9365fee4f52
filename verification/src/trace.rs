//! Tracing: reporting the JS-managed data that a value refers to.
use vstd::prelude::*;

verus! {

/// A tracer collects the addresses of the reflectors of the JS-managed data it is shown,
/// in the order in which it is shown them.
pub struct JSTracer {
    reflectors: Vec<usize>,
}

impl View for JSTracer {
    type V = Seq<usize>;

    closed spec fn view(&self) -> Seq<usize> {
        self.reflectors@
    }
}

impl JSTracer {
    /// A tracer that has been shown nothing yet.
    pub fn new() -> (r: Self)
        ensures
            r@ == Seq::<usize>::empty(),
    {
        JSTracer { reflectors: Vec::new() }
    }

    /// The addresses of the reflectors reported so far, in order.
    pub fn reflectors(&self) -> (r: &Vec<usize>)
        ensures
            r@ == self@,
    {
        &self.reflectors
    }

    /// The addresses of the reflectors reported, handed over.
    pub fn into_reflectors(self) -> (r: Vec<usize>)
        ensures
            r@ == self@,
    {
        self.reflectors
    }

    /// Reports the reflector at address `addr`.
    pub fn trace_reflector(&mut self, addr: usize)
        ensures
            final(self)@ == old(self)@.push(addr),
    {
        self.reflectors.push(addr);
    }
}

/// A trait for Rust data that can be traced.
pub trait JSTraceable {
    /// The reflectors that tracing this value reports, in order.
    spec fn traced(&self) -> Seq<usize>;

    /// Reports to `trc` every reflector this value refers to.
    fn trace(&self, trc: &mut JSTracer)
        ensures
            final(trc)@ == old(trc)@ + self.traced(),
    ;
}

/// The reflectors reported by tracing each value of `s` in turn.
pub open spec fn traced_all<T: JSTraceable>(s: Seq<T>) -> Seq<usize>
    decreases s.len(),
{
    if s.len() == 0 {
        Seq::empty()
    } else {
        traced_all(s.drop_last()) + s.last().traced()
    }
}

impl JSTraceable for String {
    /// A string refers to no JS-managed data.
    open spec fn traced(&self) -> Seq<usize> {
        Seq::empty()
    }

    fn trace(&self, trc: &mut JSTracer) {
        assert(old(trc)@ + Seq::<usize>::empty() =~= old(trc)@);
    }
}

impl JSTraceable for usize {
    /// An integer refers to no JS-managed data.
    open spec fn traced(&self) -> Seq<usize> {
        Seq::empty()
    }

    fn trace(&self, trc: &mut JSTracer) {
        assert(old(trc)@ + Seq::<usize>::empty() =~= old(trc)@);
    }
}

impl<T: JSTraceable> JSTraceable for Option<T> {
    /// `None` refers to no JS-managed data; `Some` to what its contents refer to.
    open spec fn traced(&self) -> Seq<usize> {
        match self {
            Some(val) => val.traced(),
            None => Seq::empty(),
        }
    }

    fn trace(&self, trc: &mut JSTracer) {
        match self {
            Some(val) => val.trace(trc),
            None => {
                assert(old(trc)@ + Seq::<usize>::empty() =~= old(trc)@);
            },
        }
    }
}

impl<T: JSTraceable> JSTraceable for Vec<T> {
    /// A vector refers to what its elements refer to, in order.
    open spec fn traced(&self) -> Seq<usize> {
        traced_all(self@)
    }

    fn trace(&self, trc: &mut JSTracer) {
        let n: usize = self.len();
        let mut i: usize = 0;
        assert(self@.subrange(0, 0) =~= Seq::<T>::empty());
        assert(old(trc)@ + Seq::<usize>::empty() =~= old(trc)@);
        while i < n
            invariant
                n == self@.len(),
                i <= n,
                trc@ == old(trc)@ + traced_all(self@.subrange(0, i as int)),
            decreases n - i,
        {
            self[i].trace(trc);
            proof {
                let s = self@.subrange(0, i as int + 1);
                assert(s.drop_last() =~= self@.subrange(0, i as int));
                assert(s.last() == self@[i as int]);
                assert(trc@ =~= old(trc)@ + traced_all(s));
            }
            i = i + 1;
        }
        assert(self@.subrange(0, n as int) =~= self@);
    }
}

} // verus!
