//! Slice iterators: a pointer-pair style cursor, kept as a borrowed slice
//! plus a pair of indices, with the same stepping protocol and invariants.

use core::marker::PhantomData;
use vstd::layout::size_of;
use vstd::prelude::*;
use vstd::slice::slice_index_get;
use vstd::slice::slice_subrange;

verus! {

/// Default, no (static) unrolling.
pub struct UnrollDefault {}

/// Explicit 4-fold unrolling in certain iterator methods.
pub struct Unroll4 {}

/// Unrolling marker trait: decides whether the scan methods take four
/// elements per loop iteration.  The choice never changes any result.
pub trait Unroll {
    /// Whether the four-wide loop is used.
    spec fn spec_unroll() -> bool;

    /// Executable mirror of `spec_unroll`.
    fn unroll() -> (r: bool)
        ensures
            r == Self::spec_unroll(),
    ;
}

impl Unroll for UnrollDefault {
    open spec fn spec_unroll() -> bool {
        false
    }

    fn unroll() -> bool {
        false
    }
}

impl Unroll for Unroll4 {
    open spec fn spec_unroll() -> bool {
        true
    }

    fn unroll() -> bool {
        true
    }
}

/// Slice (contiguous data) iterator.
///
/// Iterator element type is `&T`.
///
/// The iterator borrows a contiguous region and owns a pair of cursor
/// indices into it: `start` is the index of the next element to yield going
/// forward, `end` is one past the last element.  The remaining elements are
/// exactly `data[start..end]`; `view` (written `@`) returns them as a
/// sequence, and `wf` states the cursor invariant `start <= end <= data.len()`.
///
/// The element searching methods `all`, `any`, `find`, `position`,
/// `rposition` are explicitly unrolled four-wide when the `Un` marker is
/// `Unroll4`, which never changes what they return.
pub struct SliceIter<'a, T, Un = UnrollDefault> {
    data: &'a [T],
    start: usize,
    end: usize,
    ty: PhantomData<Un>,
}

impl<'a, T, Un> View for SliceIter<'a, T, Un> {
    type V = Seq<T>;

    closed spec fn view(&self) -> Seq<T> {
        self.data@.subrange(self.start as int, self.end as int)
    }
}

impl<'a, T, Un> SliceIter<'a, T, Un> {
    /// The whole borrowed region, as a sequence.
    pub closed spec fn base(self) -> Seq<T> {
        self.data@
    }

    /// Index into `base` of the next element to yield going forward.
    pub closed spec fn start_index(self) -> int {
        self.start as int
    }

    /// Index into `base` one past the last remaining element.
    pub closed spec fn end_index(self) -> int {
        self.end as int
    }

    /// Cursor invariant: the two indices bound a subrange of the region.
    pub open spec fn wf(self) -> bool {
        0 <= self.start_index() <= self.end_index() <= self.base().len()
    }

    /// The remaining elements are the subrange of the region between the
    /// two cursor indices.
    pub proof fn lemma_view(self)
        requires
            self.wf(),
        ensures
            self@ == self.base().subrange(self.start_index(), self.end_index()),
            self@.len() == self.end_index() - self.start_index(),
    {
    }

    /// Create a new slice iterator over `data[start..end]`.
    ///
    /// See also `SliceIter::from_slice`, `SliceIter::default`.
    ///
    /// Zero-sized element types are not supported; the precondition
    /// excludes them.
    pub fn new(data: &'a [T], start: usize, end: usize) -> (r: Self)
        requires
            size_of::<T>() != 0,
            start <= end <= data@.len(),
        ensures
            r.wf(),
            r.base() == data@,
            r.start_index() == start as int,
            r.end_index() == end as int,
            r@ == data@.subrange(start as int, end as int),
    {
        SliceIter { data, start, end, ty: PhantomData }
    }

    /// Create an iterator over all of `data`.
    pub fn from_slice(data: &'a [T]) -> (r: Self)
        requires
            size_of::<T>() != 0,
        ensures
            r.wf(),
            r.base() == data@,
            r.start_index() == 0,
            r.end_index() == data@.len(),
            r@ == data@,
    {
        let r = SliceIter::new(data, 0, data.len());
        proof {
            assert(data@.subrange(0, data@.len() as int) =~= data@);
        }
        r
    }

    /// Return the start cursor index.
    pub fn start(&self) -> (r: usize)
        ensures
            r as int == self.start_index(),
    {
        self.start
    }

    /// Return the end cursor index.
    pub fn end(&self) -> (r: usize)
        ensures
            r as int == self.end_index(),
    {
        self.end
    }

    /// Return an explicitly unrolled version of the iterator (in `all`,
    /// `find`, `position` and a few other methods): the same range,
    /// reinterpreted, not copied.
    pub fn unrolled(self) -> (r: SliceIter<'a, T, Unroll4>)
        ensures
            r.base() == self.base(),
            r.start_index() == self.start_index(),
            r.end_index() == self.end_index(),
            r@ == self@,
    {
        SliceIter { data: self.data, start: self.start, end: self.end, ty: PhantomData }
    }

    /// Exact number of remaining elements.
    pub fn len(&self) -> (r: usize)
        requires
            self.wf(),
        ensures
            r == self@.len(),
    {
        self.end - self.start
    }

    /// Return the next iterator element, without stepping the iterator.
    pub fn peek_next(&self) -> (r: Option<&T>)
        requires
            self.wf(),
        ensures
            match r {
                Some(e) => self@.len() > 0 && *e == self@[0],
                None => self@.len() == 0,
            },
    {
        if self.start != self.end {
            Some(slice_index_get(self.data, self.start))
        } else {
            None
        }
    }

    /// Return the equivalent slice: exactly the remaining elements,
    /// zero-copy.
    pub fn as_slice(&self) -> (r: &'a [T])
        requires
            self.wf(),
        ensures
            r@ == self@,
    {
        slice_subrange(self.data, self.start, self.end)
    }

    /// Return the next iterator element, stepping the iterator, without
    /// the exhaustion check: the caller proves one remains.
    pub fn next_unchecked(&mut self) -> (r: &T)
        requires
            old(self).wf(),
            old(self)@.len() > 0,
        ensures
            final(self).wf(),
            *r == old(self)@[0],
            final(self).base() == old(self).base(),
            final(self).end_index() == old(self).end_index(),
            final(self).start_index() == old(self).start_index() + 1,
            final(self)@ == old(self)@.skip(1),
    {
        let e = slice_index_get(self.data, self.start);
        self.start = self.start + 1;
        proof {
            assert(self@ =~= old(self)@.skip(1));
        }
        e
    }

    /// Return a reference to the element at `i`; the caller proves the
    /// index in bounds.
    pub fn get_unchecked(&self, i: usize) -> (r: &T)
        requires
            self.wf(),
            i < self@.len(),
        ensures
            *r == self@[i as int],
    {
        slice_index_get(self.data, self.start + i)
    }

    /// Return a reference to the element at `i`.  Out-of-bounds indices
    /// are excluded by precondition instead of a run-time abort.
    pub fn index(&self, i: usize) -> (r: &T)
        requires
            self.wf(),
            i < self@.len(),
        ensures
            *r == self@[i as int],
    {
        self.get_unchecked(i)
    }

    /// Step forward: if non-empty, yield a reference to the element at the
    /// start cursor and advance the cursor past it; otherwise `None`.
    pub fn next(&mut self) -> (r: Option<&'a T>)
        requires
            old(self).wf(),
        ensures
            final(self).wf(),
            final(self).base() == old(self).base(),
            final(self).end_index() == old(self).end_index(),
            match r {
                Some(e) => {
                    &&& old(self)@.len() > 0
                    &&& *e == old(self)@[0]
                    &&& final(self).start_index() == old(self).start_index() + 1
                    &&& final(self)@ == old(self)@.skip(1)
                },
                None => old(self)@.len() == 0 && *final(self) == *old(self),
            },
    {
        if self.start != self.end {
            let e = slice_index_get(self.data, self.start);
            self.start = self.start + 1;
            proof {
                assert(self@ =~= old(self)@.skip(1));
            }
            Some(e)
        } else {
            None
        }
    }

    /// Step backward: if non-empty, retract the end cursor by one and
    /// yield a reference to the element it now rests on; otherwise `None`.
    pub fn next_back(&mut self) -> (r: Option<&'a T>)
        requires
            old(self).wf(),
        ensures
            final(self).wf(),
            final(self).base() == old(self).base(),
            final(self).start_index() == old(self).start_index(),
            match r {
                Some(e) => {
                    &&& old(self)@.len() > 0
                    &&& *e == old(self)@.last()
                    &&& final(self).end_index() == old(self).end_index() - 1
                    &&& final(self)@ == old(self)@.drop_last()
                },
                None => old(self)@.len() == 0 && *final(self) == *old(self),
            },
    {
        if self.start != self.end {
            self.end = self.end - 1;
            let e = slice_index_get(self.data, self.end);
            proof {
                assert(self@ =~= old(self)@.drop_last());
            }
            Some(e)
        } else {
            None
        }
    }

    /// Exact size report: both bounds equal the remaining length.
    pub fn size_hint(&self) -> (r: (usize, Option<usize>))
        requires
            self.wf(),
        ensures
            r.0 == self@.len(),
            r.1 == Some(r.0),
    {
        let len = self.len();
        (len, Some(len))
    }

    /// Consume the iterator and report how many elements remained.
    pub fn count(self) -> (r: usize)
        requires
            self.wf(),
        ensures
            r == self@.len(),
    {
        self.len()
    }

    /// Consume the iterator, yielding its last element.
    pub fn last(self) -> (r: Option<&'a T>)
        requires
            self.wf(),
        ensures
            match r {
                Some(e) => self@.len() > 0 && *e == self@.last(),
                None => self@.len() == 0,
            },
    {
        let mut it = self;
        it.next_back()
    }
}

impl<'a, T, Un> Clone for SliceIter<'a, T, Un> {
    /// Duplicating the cursor pair is free: the iterator is a read-only
    /// view and owns no memory.
    fn clone(&self) -> (r: Self)
        ensures
            r == *self,
    {
        SliceIter { data: self.data, start: self.start, end: self.end, ty: PhantomData }
    }
}

impl<'a, T, Un> Copy for SliceIter<'a, T, Un> {}

/// An enum used for controlling the execution of `fold_while`.
pub enum FoldWhile<A> {
    /// Continue folding with this value.
    Continue(A),
    /// Fold is complete and will return this value.
    Done(A),
}

/// One run of the forward fold over `v` starting from accumulator `init`:
/// `chain[i]` is the accumulator before step `i` (which examines `v[i]`),
/// `k` counts the steps that answered `Continue`, `r` is the result and
/// `rem` the elements left unvisited.  A run either stops early, when
/// step `k` answers `Done`, or continues through all of `v` and returns
/// the last accumulator.
pub open spec fn fold_trace<'a, T: 'a, Acc, G: Fn(Acc, &'a T) -> FoldWhile<Acc>>(
    g: G,
    v: Seq<T>,
    init: Acc,
    k: int,
    chain: Seq<Acc>,
    r: Acc,
    rem: Seq<T>,
) -> bool {
    &&& 0 <= k <= v.len()
    &&& chain.len() == k + 1
    &&& chain[0] == init
    &&& (forall|i: int|
        0 <= i < k ==> #[trigger] call_ensures(
            g,
            (chain[i], &v[i]),
            FoldWhile::Continue(chain[i + 1]),
        ))
    &&& if k < v.len() {
        &&& call_ensures(g, (chain[k], &v[k]), FoldWhile::Done(r))
        &&& rem == v.skip(k + 1)
    } else {
        &&& r == chain[k]
        &&& rem == Seq::<T>::empty()
    }
}

/// The mirror image for the backward fold: step `i` examines
/// `v[v.len() - 1 - i]`, consuming the sequence from the back.
pub open spec fn rfold_trace<'a, T: 'a, Acc, G: Fn(Acc, &'a T) -> FoldWhile<Acc>>(
    g: G,
    v: Seq<T>,
    init: Acc,
    k: int,
    chain: Seq<Acc>,
    r: Acc,
    rem: Seq<T>,
) -> bool {
    &&& 0 <= k <= v.len()
    &&& chain.len() == k + 1
    &&& chain[0] == init
    &&& (forall|i: int|
        0 <= i < k ==> #[trigger] call_ensures(
            g,
            (chain[i], &v[v.len() - 1 - i]),
            FoldWhile::Continue(chain[i + 1]),
        ))
    &&& if k < v.len() {
        &&& call_ensures(g, (chain[k], &v[v.len() - 1 - k]), FoldWhile::Done(r))
        &&& rem == v.take(v.len() - 1 - k)
    } else {
        &&& r == chain[k]
        &&& rem == Seq::<T>::empty()
    }
}

impl<'a, T, Un: Unroll> SliceIter<'a, T, Un> {
    /// One forward step of the fold engine: consume the front element and
    /// hand it to the step function together with the accumulator.
    fn fold_step<Acc, G: Fn(Acc, &'a T) -> FoldWhile<Acc>>(&mut self, accum: Acc, g: &G) -> (res:
        FoldWhile<Acc>)
        requires
            old(self).wf(),
            old(self)@.len() > 0,
            call_requires(*g, (accum, &old(self)@[0])),
        ensures
            final(self).wf(),
            final(self).base() == old(self).base(),
            final(self).end_index() == old(self).end_index(),
            final(self).start_index() == old(self).start_index() + 1,
            final(self)@ == old(self)@.skip(1),
            call_ensures(*g, (accum, &old(self)@[0]), res),
    {
        let e = slice_index_get(self.data, self.start);
        self.start = self.start + 1;
        proof {
            assert(self@ =~= old(self)@.skip(1));
        }
        g(accum, e)
    }

    /// One backward step of the fold engine: consume the back element and
    /// hand it to the step function together with the accumulator.
    fn rfold_step<Acc, G: Fn(Acc, &'a T) -> FoldWhile<Acc>>(&mut self, accum: Acc, g: &G) -> (res:
        FoldWhile<Acc>)
        requires
            old(self).wf(),
            old(self)@.len() > 0,
            call_requires(*g, (accum, &old(self)@.last())),
        ensures
            final(self).wf(),
            final(self).base() == old(self).base(),
            final(self).start_index() == old(self).start_index(),
            final(self).end_index() == old(self).end_index() - 1,
            final(self)@ == old(self)@.drop_last(),
            call_ensures(*g, (accum, &old(self)@.last()), res),
    {
        self.end = self.end - 1;
        let e = slice_index_get(self.data, self.end);
        proof {
            assert(self@ =~= old(self)@.drop_last());
        }
        g(accum, e)
    }

    /// Fold with early exit, the single primitive all forward scan methods
    /// are derived from.  The step function answers `Continue` with the
    /// next accumulator or `Done` with the final result, which stops the
    /// fold at once.  When the marker asks for it, four elements are
    /// processed per loop iteration, with the early-exit check after every
    /// one of them, then the remainder one at a time; the strategy never
    /// changes the resulting trace.
    pub fn fold_while<Acc, G: Fn(Acc, &'a T) -> FoldWhile<Acc>>(&mut self, init: Acc, g: G) -> (r:
        Acc)
        requires
            old(self).wf(),
            forall|a: Acc, i: int|
                0 <= i < old(self)@.len() ==> call_requires(g, (a, &old(self)@[i])),
        ensures
            final(self).wf(),
            final(self).base() == old(self).base(),
            final(self).end_index() == old(self).end_index(),
            exists|k: int, chain: Seq<Acc>|
                fold_trace(g, old(self)@, init, k, chain, r, final(self)@),
    {
        let ghost v = old(self)@;
        let ghost b0 = old(self).base();
        let ghost e0 = old(self).end_index();
        let mut accum = init;
        let ghost mut taken: int = 0;
        let ghost mut chain: Seq<Acc> = seq![init];
        if Un::unroll() {
            while self.len() >= 4
                invariant
                    v == old(self)@,
                    b0 == old(self).base(),
                    e0 == old(self).end_index(),
                    self.wf(),
                    self.base() == b0,
                    self.end_index() == e0,
                    0 <= taken <= v.len(),
                    chain.len() == taken + 1,
                    chain[0] == init,
                    accum == chain[taken],
                    self@ == v.skip(taken),
                    forall|i: int|
                        0 <= i < taken ==> #[trigger] call_ensures(
                            g,
                            (chain[i], &v[i]),
                            FoldWhile::Continue(chain[i + 1]),
                        ),
                    forall|a: Acc, i: int| 0 <= i < v.len() ==> call_requires(g, (a, &v[i])),
                decreases self@.len(),
            {
                proof {
                    assert(self@[0] == v[taken]);
                }
                match self.fold_step(accum, &g) {
                    FoldWhile::Continue(a) => {
                        proof {
                            chain = chain.push(a);
                            taken = taken + 1;
                            assert(self@ =~= v.skip(taken));
                        }
                        accum = a;
                    },
                    FoldWhile::Done(d) => {
                        proof {
                            assert(self@ =~= v.skip(taken + 1));
                            assert(fold_trace(g, v, init, taken, chain, d, self@));
                        }
                        return d;
                    },
                }
                proof {
                    assert(self@[0] == v[taken]);
                }
                match self.fold_step(accum, &g) {
                    FoldWhile::Continue(a) => {
                        proof {
                            chain = chain.push(a);
                            taken = taken + 1;
                            assert(self@ =~= v.skip(taken));
                        }
                        accum = a;
                    },
                    FoldWhile::Done(d) => {
                        proof {
                            assert(self@ =~= v.skip(taken + 1));
                            assert(fold_trace(g, v, init, taken, chain, d, self@));
                        }
                        return d;
                    },
                }
                proof {
                    assert(self@[0] == v[taken]);
                }
                match self.fold_step(accum, &g) {
                    FoldWhile::Continue(a) => {
                        proof {
                            chain = chain.push(a);
                            taken = taken + 1;
                            assert(self@ =~= v.skip(taken));
                        }
                        accum = a;
                    },
                    FoldWhile::Done(d) => {
                        proof {
                            assert(self@ =~= v.skip(taken + 1));
                            assert(fold_trace(g, v, init, taken, chain, d, self@));
                        }
                        return d;
                    },
                }
                proof {
                    assert(self@[0] == v[taken]);
                }
                match self.fold_step(accum, &g) {
                    FoldWhile::Continue(a) => {
                        proof {
                            chain = chain.push(a);
                            taken = taken + 1;
                            assert(self@ =~= v.skip(taken));
                        }
                        accum = a;
                    },
                    FoldWhile::Done(d) => {
                        proof {
                            assert(self@ =~= v.skip(taken + 1));
                            assert(fold_trace(g, v, init, taken, chain, d, self@));
                        }
                        return d;
                    },
                }
            }
        }
        while self.len() > 0
            invariant
                v == old(self)@,
                b0 == old(self).base(),
                e0 == old(self).end_index(),
                self.wf(),
                self.base() == b0,
                self.end_index() == e0,
                0 <= taken <= v.len(),
                chain.len() == taken + 1,
                chain[0] == init,
                accum == chain[taken],
                self@ == v.skip(taken),
                forall|i: int|
                    0 <= i < taken ==> #[trigger] call_ensures(
                        g,
                        (chain[i], &v[i]),
                        FoldWhile::Continue(chain[i + 1]),
                    ),
                forall|a: Acc, i: int| 0 <= i < v.len() ==> call_requires(g, (a, &v[i])),
            decreases self@.len(),
        {
            proof {
                assert(self@[0] == v[taken]);
            }
            match self.fold_step(accum, &g) {
                FoldWhile::Continue(a) => {
                    proof {
                        chain = chain.push(a);
                        taken = taken + 1;
                        assert(self@ =~= v.skip(taken));
                    }
                    accum = a;
                },
                FoldWhile::Done(d) => {
                    proof {
                        assert(self@ =~= v.skip(taken + 1));
                        assert(fold_trace(g, v, init, taken, chain, d, self@));
                    }
                    return d;
                },
            }
        }
        proof {
            assert(taken == v.len());
            assert(self@ =~= Seq::<T>::empty());
            assert(fold_trace(g, v, init, taken, chain, accum, self@));
        }
        accum
    }

    /// Backward fold with early exit, the mirror image of `fold_while`:
    /// steps consume the range from the back, with the same unrolling
    /// choice and the same early-exit behaviour.
    pub fn rfold_while<Acc, G: Fn(Acc, &'a T) -> FoldWhile<Acc>>(&mut self, init: Acc, g: G) -> (r:
        Acc)
        requires
            old(self).wf(),
            forall|a: Acc, i: int|
                0 <= i < old(self)@.len() ==> call_requires(g, (a, &old(self)@[i])),
        ensures
            final(self).wf(),
            final(self).base() == old(self).base(),
            final(self).start_index() == old(self).start_index(),
            exists|k: int, chain: Seq<Acc>|
                rfold_trace(g, old(self)@, init, k, chain, r, final(self)@),
    {
        let ghost v = old(self)@;
        let ghost b0 = old(self).base();
        let ghost s0 = old(self).start_index();
        let mut accum = init;
        let ghost mut taken: int = 0;
        let ghost mut chain: Seq<Acc> = seq![init];
        if Un::unroll() {
            while self.len() >= 4
                invariant
                    v == old(self)@,
                    b0 == old(self).base(),
                    s0 == old(self).start_index(),
                    self.wf(),
                    self.base() == b0,
                    self.start_index() == s0,
                    0 <= taken <= v.len(),
                    chain.len() == taken + 1,
                    chain[0] == init,
                    accum == chain[taken],
                    self@ == v.take(v.len() - taken),
                    forall|i: int|
                        0 <= i < taken ==> #[trigger] call_ensures(
                            g,
                            (chain[i], &v[v.len() - 1 - i]),
                            FoldWhile::Continue(chain[i + 1]),
                        ),
                    forall|a: Acc, i: int| 0 <= i < v.len() ==> call_requires(g, (a, &v[i])),
                decreases self@.len(),
            {
                proof {
                    assert(self@.last() == v[v.len() - 1 - taken]);
                }
                match self.rfold_step(accum, &g) {
                    FoldWhile::Continue(a) => {
                        proof {
                            chain = chain.push(a);
                            taken = taken + 1;
                            assert(self@ =~= v.take(v.len() - taken));
                        }
                        accum = a;
                    },
                    FoldWhile::Done(d) => {
                        proof {
                            assert(self@ =~= v.take(v.len() - 1 - taken));
                            assert(rfold_trace(g, v, init, taken, chain, d, self@));
                        }
                        return d;
                    },
                }
                proof {
                    assert(self@.last() == v[v.len() - 1 - taken]);
                }
                match self.rfold_step(accum, &g) {
                    FoldWhile::Continue(a) => {
                        proof {
                            chain = chain.push(a);
                            taken = taken + 1;
                            assert(self@ =~= v.take(v.len() - taken));
                        }
                        accum = a;
                    },
                    FoldWhile::Done(d) => {
                        proof {
                            assert(self@ =~= v.take(v.len() - 1 - taken));
                            assert(rfold_trace(g, v, init, taken, chain, d, self@));
                        }
                        return d;
                    },
                }
                proof {
                    assert(self@.last() == v[v.len() - 1 - taken]);
                }
                match self.rfold_step(accum, &g) {
                    FoldWhile::Continue(a) => {
                        proof {
                            chain = chain.push(a);
                            taken = taken + 1;
                            assert(self@ =~= v.take(v.len() - taken));
                        }
                        accum = a;
                    },
                    FoldWhile::Done(d) => {
                        proof {
                            assert(self@ =~= v.take(v.len() - 1 - taken));
                            assert(rfold_trace(g, v, init, taken, chain, d, self@));
                        }
                        return d;
                    },
                }
                proof {
                    assert(self@.last() == v[v.len() - 1 - taken]);
                }
                match self.rfold_step(accum, &g) {
                    FoldWhile::Continue(a) => {
                        proof {
                            chain = chain.push(a);
                            taken = taken + 1;
                            assert(self@ =~= v.take(v.len() - taken));
                        }
                        accum = a;
                    },
                    FoldWhile::Done(d) => {
                        proof {
                            assert(self@ =~= v.take(v.len() - 1 - taken));
                            assert(rfold_trace(g, v, init, taken, chain, d, self@));
                        }
                        return d;
                    },
                }
            }
        }
        while self.len() > 0
            invariant
                v == old(self)@,
                b0 == old(self).base(),
                s0 == old(self).start_index(),
                self.wf(),
                self.base() == b0,
                self.start_index() == s0,
                0 <= taken <= v.len(),
                chain.len() == taken + 1,
                chain[0] == init,
                accum == chain[taken],
                self@ == v.take(v.len() - taken),
                forall|i: int|
                    0 <= i < taken ==> #[trigger] call_ensures(
                        g,
                        (chain[i], &v[v.len() - 1 - i]),
                        FoldWhile::Continue(chain[i + 1]),
                    ),
                forall|a: Acc, i: int| 0 <= i < v.len() ==> call_requires(g, (a, &v[i])),
            decreases self@.len(),
        {
            proof {
                assert(self@.last() == v[v.len() - 1 - taken]);
            }
            match self.rfold_step(accum, &g) {
                FoldWhile::Continue(a) => {
                    proof {
                        chain = chain.push(a);
                        taken = taken + 1;
                        assert(self@ =~= v.take(v.len() - taken));
                    }
                    accum = a;
                },
                FoldWhile::Done(d) => {
                    proof {
                        assert(self@ =~= v.take(v.len() - 1 - taken));
                        assert(rfold_trace(g, v, init, taken, chain, d, self@));
                    }
                    return d;
                },
            }
        }
        proof {
            assert(taken == v.len());
            assert(self@ =~= Seq::<T>::empty());
            assert(rfold_trace(g, v, init, taken, chain, accum, self@));
        }
        accum
    }

    /// Whether every remaining element satisfies the predicate, vacuously
    /// true on an empty range.  Consumes the range up to and including the
    /// first element the predicate rejects.
    pub fn all<F: Fn(&T) -> bool>(&mut self, predicate: F) -> (r: bool)
        requires
            old(self).wf(),
            forall|i: int|
                0 <= i < old(self)@.len() ==> call_requires(predicate, (&old(self)@[i],)),
        ensures
            final(self).wf(),
            final(self).base() == old(self).base(),
            r ==> (forall|i: int|
                0 <= i < old(self)@.len() ==> call_ensures(predicate, (&old(self)@[i],), true))
                && final(self)@ == Seq::<T>::empty(),
            !r ==> exists|k: int|
                {
                    &&& 0 <= k < old(self)@.len()
                    &&& call_ensures(predicate, (&old(self)@[k],), false)
                    &&& (forall|i: int|
                        0 <= i < k ==> call_ensures(predicate, (&old(self)@[i],), true))
                    &&& final(self)@ == old(self)@.skip(k + 1)
                },
    {
        let ghost v = old(self)@;
        let p = &predicate;
        let g = |acc: bool, x: &T| -> (res: FoldWhile<bool>)
            requires
                call_requires(p, (x,)),
            ensures
                ({
                    ||| (call_ensures(p, (x,), true) && res == FoldWhile::<bool>::Continue(
                        true,
                    ))
                    ||| (call_ensures(p, (x,), false) && res == FoldWhile::<bool>::Done(
                        false,
                    ))
                }),
            {
                if p(x) {
                    FoldWhile::Continue(true)
                } else {
                    FoldWhile::Done(false)
                }
            };
        let r = self.fold_while(true, g);
        proof {
            let (k, chain) = choose|k: int, chain: Seq<bool>|
                fold_trace(g, v, true, k, chain, r, self@);
            if k == v.len() {
                assert forall|i: int| 0 <= i < v.len() implies call_ensures(
                    predicate,
                    (&v[i],),
                    true,
                ) by {
                    assert(call_ensures(g, (chain[i], &v[i]), FoldWhile::Continue(chain[i + 1])));
                }
                if k > 0 {
                    assert(call_ensures(g, (chain[k - 1], &v[k - 1]), FoldWhile::Continue(
                        chain[k - 1 + 1],
                    )));
                }
                assert(r);
            } else {
                assert(call_ensures(g, (chain[k], &v[k]), FoldWhile::Done(r)));
                assert forall|i: int| 0 <= i < k implies call_ensures(
                    predicate,
                    (&v[i],),
                    true,
                ) by {
                    assert(call_ensures(g, (chain[i], &v[i]), FoldWhile::Continue(chain[i + 1])));
                }
                assert(!r && 0 <= k < v.len() && call_ensures(predicate, (&v[k],), false) && self@
                    == v.skip(k + 1));
            }
        }
        r
    }

    /// Whether some remaining element satisfies the predicate, false on an
    /// empty range: `not all(not predicate)`.  Consumes the range up to
    /// and including the first element the predicate accepts.
    pub fn any<F: Fn(&T) -> bool>(&mut self, predicate: F) -> (r: bool)
        requires
            old(self).wf(),
            forall|i: int|
                0 <= i < old(self)@.len() ==> call_requires(predicate, (&old(self)@[i],)),
        ensures
            final(self).wf(),
            final(self).base() == old(self).base(),
            !r ==> (forall|i: int|
                0 <= i < old(self)@.len() ==> call_ensures(predicate, (&old(self)@[i],), false))
                && final(self)@ == Seq::<T>::empty(),
            r ==> exists|k: int|
                {
                    &&& 0 <= k < old(self)@.len()
                    &&& call_ensures(predicate, (&old(self)@[k],), true)
                    &&& (forall|i: int|
                        0 <= i < k ==> call_ensures(predicate, (&old(self)@[i],), false))
                    &&& final(self)@ == old(self)@.skip(k + 1)
                },
    {
        let ghost v = old(self)@;
        let p = &predicate;
        let not_p = |x: &T| -> (res: bool)
            requires
                call_requires(p, (x,)),
            ensures
                exists|b: bool| call_ensures(p, (x,), b) && res == !b,
            {
                !p(x)
            };
        let r = !self.all(not_p);
        proof {
            if !r {
                assert forall|i: int| 0 <= i < v.len() implies call_ensures(
                    predicate,
                    (&v[i],),
                    false,
                ) by {
                    assert(call_ensures(not_p, (&v[i],), true));
                }
            } else {
                let k = choose|k: int|
                    {
                        &&& 0 <= k < v.len()
                        &&& call_ensures(not_p, (&v[k],), false)
                        &&& (forall|i: int| 0 <= i < k ==> call_ensures(not_p, (&v[i],), true))
                        &&& self@ == v.skip(k + 1)
                    };
                assert forall|i: int| 0 <= i < k implies call_ensures(
                    predicate,
                    (&v[i],),
                    false,
                ) by {
                    assert(call_ensures(not_p, (&v[i],), true));
                }
                assert(0 <= k < v.len() && call_ensures(predicate, (&v[k],), true) && (forall|
                    i: int,
                |
                    0 <= i < k ==> call_ensures(predicate, (&v[i],), false)) && self@ == v.skip(
                    k + 1,
                ));
            }
        }
        r
    }

    /// The first remaining element the predicate accepts, in forward scan
    /// order, or `None` when no element matches or the range is empty.
    /// Consumes the range up to and including the match.
    pub fn find<F: Fn(&T) -> bool>(&mut self, predicate: F) -> (r: Option<&'a T>)
        requires
            old(self).wf(),
            forall|i: int|
                0 <= i < old(self)@.len() ==> call_requires(predicate, (&old(self)@[i],)),
        ensures
            final(self).wf(),
            final(self).base() == old(self).base(),
            match r {
                Some(e) => exists|k: int|
                    {
                        &&& 0 <= k < old(self)@.len()
                        &&& *e == old(self)@[k]
                        &&& call_ensures(predicate, (&old(self)@[k],), true)
                        &&& (forall|i: int|
                            0 <= i < k ==> call_ensures(predicate, (&old(self)@[i],), false))
                        &&& final(self)@ == old(self)@.skip(k + 1)
                    },
                None => (forall|i: int|
                    0 <= i < old(self)@.len() ==> call_ensures(predicate, (&old(self)@[i],), false))
                    && final(self)@ == Seq::<T>::empty(),
            },
    {
        let ghost v = old(self)@;
        let p = &predicate;
        let g = |acc: Option<&'a T>, x: &'a T| -> (res: FoldWhile<Option<&'a T>>)
            requires
                call_requires(p, (x,)),
            ensures
                ({
                    ||| (call_ensures(p, (x,), true) && res == FoldWhile::Done(Option::Some(x)))
                    ||| (call_ensures(p, (x,), false) && res == FoldWhile::Continue(
                        Option::<&'a T>::None,
                    ))
                }),
            {
                if p(x) {
                    FoldWhile::Done(Some(x))
                } else {
                    FoldWhile::Continue(None)
                }
            };
        let r = self.fold_while(None, g);
        proof {
            let (k, chain) = choose|k: int, chain: Seq<Option<&'a T>>|
                fold_trace(g, v, Option::None, k, chain, r, self@);
            if k == v.len() {
                if k > 0 {
                    assert(call_ensures(g, (chain[k - 1], &v[k - 1]), FoldWhile::Continue(
                        chain[k - 1 + 1],
                    )));
                }
                assert(r is None);
                assert forall|i: int| 0 <= i < v.len() implies call_ensures(
                    predicate,
                    (&v[i],),
                    false,
                ) by {
                    assert(call_ensures(g, (chain[i], &v[i]), FoldWhile::Continue(chain[i + 1])));
                }
            } else {
                assert(call_ensures(g, (chain[k], &v[k]), FoldWhile::Done(r)));
                assert forall|i: int| 0 <= i < k implies call_ensures(
                    predicate,
                    (&v[i],),
                    false,
                ) by {
                    assert(call_ensures(g, (chain[i], &v[i]), FoldWhile::Continue(chain[i + 1])));
                }
                assert(match r {
                    Option::Some(e) => {
                        &&& 0 <= k < v.len()
                        &&& *e == v[k]
                        &&& call_ensures(predicate, (&v[k],), true)
                        &&& (forall|i: int|
                            0 <= i < k ==> call_ensures(predicate, (&v[i],), false))
                        &&& self@ == v.skip(k + 1)
                    },
                    Option::None => false,
                });
            }
        }
        r
    }

    /// The 0-based index, counted in the current remaining range, of the
    /// first element the predicate accepts in forward scan order, or
    /// `None`.  Consumes the range up to and including the match.
    pub fn position<F: Fn(&T) -> bool>(&mut self, predicate: F) -> (r: Option<usize>)
        requires
            old(self).wf(),
            forall|i: int|
                0 <= i < old(self)@.len() ==> call_requires(predicate, (&old(self)@[i],)),
        ensures
            final(self).wf(),
            final(self).base() == old(self).base(),
            match r {
                Some(idx) => {
                    &&& 0 <= idx < old(self)@.len()
                    &&& call_ensures(predicate, (&old(self)@[idx as int],), true)
                    &&& (forall|i: int|
                        0 <= i < idx ==> call_ensures(predicate, (&old(self)@[i],), false))
                    &&& final(self)@ == old(self)@.skip(idx + 1)
                },
                None => (forall|i: int|
                    0 <= i < old(self)@.len() ==> call_ensures(predicate, (&old(self)@[i],), false))
                    && final(self)@ == Seq::<T>::empty(),
            },
    {
        let before = self.len();
        let ghost v = old(self)@;
        let p = &predicate;
        let g = |acc: bool, x: &T| -> (res: FoldWhile<bool>)
            requires
                call_requires(p, (x,)),
            ensures
                ({
                    ||| (call_ensures(p, (x,), true) && res == FoldWhile::<bool>::Done(true))
                    ||| (call_ensures(p, (x,), false) && res == FoldWhile::<bool>::Continue(false))
                }),
            {
                if p(x) {
                    FoldWhile::Done(true)
                } else {
                    FoldWhile::Continue(false)
                }
            };
        let found = self.fold_while(false, g);
        if found {
            let after = self.len();
            proof {
                let (k, chain) = choose|k: int, chain: Seq<bool>|
                    fold_trace(g, v, false, k, chain, found, self@);
                if k == v.len() {
                    if k > 0 {
                        assert(call_ensures(g, (chain[k - 1], &v[k - 1]), FoldWhile::Continue(
                            chain[k - 1 + 1],
                        )));
                    }
                    assert(false);
                }
                assert(call_ensures(g, (chain[k], &v[k]), FoldWhile::Done(found)));
                assert forall|i: int| 0 <= i < k implies call_ensures(
                    predicate,
                    (&v[i],),
                    false,
                ) by {
                    assert(call_ensures(g, (chain[i], &v[i]), FoldWhile::Continue(chain[i + 1])));
                }
                assert(after as int == v.len() - k - 1);
            }
            let idx = before - after - 1;
            Some(idx)
        } else {
            proof {
                let (k, chain) = choose|k: int, chain: Seq<bool>|
                    fold_trace(g, v, false, k, chain, found, self@);
                if k < v.len() {
                    assert(call_ensures(g, (chain[k], &v[k]), FoldWhile::Done(found)));
                    assert(false);
                }
                assert forall|i: int| 0 <= i < v.len() implies call_ensures(
                    predicate,
                    (&v[i],),
                    false,
                ) by {
                    assert(call_ensures(g, (chain[i], &v[i]), FoldWhile::Continue(chain[i + 1])));
                }
            }
            None
        }
    }

    /// The 0-based index, still counted in forward orientation from the
    /// front of the current remaining range, of the first match a
    /// backward scan meets — that is, of the last matching element — or
    /// `None`.  Consumes the range from the back, down to and including
    /// the match.
    pub fn rposition<F: Fn(&T) -> bool>(&mut self, predicate: F) -> (r: Option<usize>)
        requires
            old(self).wf(),
            forall|i: int|
                0 <= i < old(self)@.len() ==> call_requires(predicate, (&old(self)@[i],)),
        ensures
            final(self).wf(),
            final(self).base() == old(self).base(),
            match r {
                Some(idx) => {
                    &&& 0 <= idx < old(self)@.len()
                    &&& call_ensures(predicate, (&old(self)@[idx as int],), true)
                    &&& (forall|i: int|
                        idx < i < old(self)@.len() ==> call_ensures(
                            predicate,
                            (&old(self)@[i],),
                            false,
                        ))
                    &&& final(self)@ == old(self)@.take(idx as int)
                },
                None => (forall|i: int|
                    0 <= i < old(self)@.len() ==> call_ensures(predicate, (&old(self)@[i],), false))
                    && final(self)@ == Seq::<T>::empty(),
            },
    {
        let ghost v = old(self)@;
        let p = &predicate;
        let g = |acc: bool, x: &T| -> (res: FoldWhile<bool>)
            requires
                call_requires(p, (x,)),
            ensures
                ({
                    ||| (call_ensures(p, (x,), true) && res == FoldWhile::<bool>::Done(true))
                    ||| (call_ensures(p, (x,), false) && res == FoldWhile::<bool>::Continue(false))
                }),
            {
                if p(x) {
                    FoldWhile::Done(true)
                } else {
                    FoldWhile::Continue(false)
                }
            };
        let found = self.rfold_while(false, g);
        if found {
            let idx = self.len();
            proof {
                let (k, chain) = choose|k: int, chain: Seq<bool>|
                    rfold_trace(g, v, false, k, chain, found, self@);
                if k == v.len() {
                    if k > 0 {
                        assert(call_ensures(g, (chain[k - 1], &v[v.len() - 1 - (k - 1)]),
                            FoldWhile::Continue(chain[k - 1 + 1])));
                    }
                    assert(false);
                }
                assert(call_ensures(g, (chain[k], &v[v.len() - 1 - k]), FoldWhile::Done(found)));
                assert(idx as int == v.len() - 1 - k);
                assert forall|i: int| idx < i < v.len() implies call_ensures(
                    predicate,
                    (&v[i],),
                    false,
                ) by {
                    let j = v.len() - 1 - i;
                    assert(call_ensures(g, (chain[j], &v[v.len() - 1 - j]), FoldWhile::Continue(
                        chain[j + 1],
                    )));
                    assert(v.len() - 1 - j == i);
                }
            }
            Some(idx)
        } else {
            proof {
                let (k, chain) = choose|k: int, chain: Seq<bool>|
                    rfold_trace(g, v, false, k, chain, found, self@);
                if k < v.len() {
                    assert(call_ensures(g, (chain[k], &v[v.len() - 1 - k]), FoldWhile::Done(
                        found,
                    )));
                    assert(false);
                }
                assert forall|i: int| 0 <= i < v.len() implies call_ensures(
                    predicate,
                    (&v[i],),
                    false,
                ) by {
                    let j = v.len() - 1 - i;
                    assert(call_ensures(g, (chain[j], &v[v.len() - 1 - j]), FoldWhile::Continue(
                        chain[j + 1],
                    )));
                    assert(v.len() - 1 - j == i);
                }
            }
            None
        }
    }
}

impl<'a, T, Un> Default for SliceIter<'a, T, Un> {
    /// Create an empty `SliceIter`: a valid, distinguished placeholder
    /// that is exhausted from the start and stays inert under every
    /// operation.
    fn default() -> (r: Self)
        ensures
            r.wf(),
            r@ == Seq::<T>::empty(),
            r.start_index() == 0,
            r.end_index() == 0,
    {
        let data: &'a [T] = &[];
        proof {
            assert(data@.subrange(0, 0) =~= Seq::<T>::empty());
        }
        SliceIter { data, start: 0, end: 0, ty: PhantomData }
    }
}

} // verus!
