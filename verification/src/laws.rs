//! The laws of the scan operations: every result the short-circuit fold
//! engine can produce equals the result of a straightforward, unoptimized
//! reference scan, whichever unrolling strategy ran; and interleaved
//! forward and backward stepping visits each element exactly once.

use vstd::prelude::*;

verus! {

/// The executable predicate decides the mathematical predicate `p`:
/// whatever it returns for an element is `p` of that element.
pub open spec fn decides<T, F: Fn(&T) -> bool>(predicate: F, p: spec_fn(T) -> bool) -> bool {
    forall|x: &T, b: bool| call_ensures(predicate, (x,), b) ==> b == p(*x)
}

/// What `all` may return for `predicate` over elements `v`: `true` only
/// when every element passed, `false` only when some element failed and
/// all before it passed.  Implied by the `ensures` of `SliceIter::all`.
pub open spec fn all_post<T, F: Fn(&T) -> bool>(predicate: F, v: Seq<T>, r: bool) -> bool {
    &&& r ==> (forall|i: int| 0 <= i < v.len() ==> call_ensures(predicate, (&v[i],), true))
    &&& !r ==> exists|k: int|
        {
            &&& 0 <= k < v.len()
            &&& #[trigger] call_ensures(predicate, (&v[k],), false)
            &&& (forall|i: int| 0 <= i < k ==> call_ensures(predicate, (&v[i],), true))
        }
}

/// What `any` may return.  Implied by the `ensures` of `SliceIter::any`.
pub open spec fn any_post<T, F: Fn(&T) -> bool>(predicate: F, v: Seq<T>, r: bool) -> bool {
    &&& !r ==> (forall|i: int| 0 <= i < v.len() ==> call_ensures(predicate, (&v[i],), false))
    &&& r ==> exists|k: int|
        {
            &&& 0 <= k < v.len()
            &&& #[trigger] call_ensures(predicate, (&v[k],), true)
            &&& (forall|i: int| 0 <= i < k ==> call_ensures(predicate, (&v[i],), false))
        }
}

/// What `find` may return.  Implied by the `ensures` of `SliceIter::find`.
pub open spec fn find_post<T, F: Fn(&T) -> bool>(predicate: F, v: Seq<T>, r: Option<T>) -> bool {
    match r {
        Some(e) => exists|k: int|
            {
                &&& 0 <= k < v.len()
                &&& e == v[k]
                &&& #[trigger] call_ensures(predicate, (&v[k],), true)
                &&& (forall|i: int| 0 <= i < k ==> call_ensures(predicate, (&v[i],), false))
            },
        None => forall|i: int| 0 <= i < v.len() ==> call_ensures(predicate, (&v[i],), false),
    }
}

/// What `position` may return.  Implied by the `ensures` of
/// `SliceIter::position`.
pub open spec fn position_post<T, F: Fn(&T) -> bool>(
    predicate: F,
    v: Seq<T>,
    r: Option<usize>,
) -> bool {
    match r {
        Some(idx) => {
            &&& 0 <= idx < v.len()
            &&& call_ensures(predicate, (&v[idx as int],), true)
            &&& (forall|i: int| 0 <= i < idx ==> call_ensures(predicate, (&v[i],), false))
        },
        None => forall|i: int| 0 <= i < v.len() ==> call_ensures(predicate, (&v[i],), false),
    }
}

/// What `rposition` may return.  Implied by the `ensures` of
/// `SliceIter::rposition`.
pub open spec fn rposition_post<T, F: Fn(&T) -> bool>(
    predicate: F,
    v: Seq<T>,
    r: Option<usize>,
) -> bool {
    match r {
        Some(idx) => {
            &&& 0 <= idx < v.len()
            &&& call_ensures(predicate, (&v[idx as int],), true)
            &&& (forall|i: int| idx < i < v.len() ==> call_ensures(predicate, (&v[i],), false))
        },
        None => forall|i: int| 0 <= i < v.len() ==> call_ensures(predicate, (&v[i],), false),
    }
}

/// Reference scan for `all`: every element satisfies `p`.
pub open spec fn spec_all<T>(s: Seq<T>, p: spec_fn(T) -> bool) -> bool {
    forall|i: int| 0 <= i < s.len() ==> p(#[trigger] s[i])
}

/// Reference scan for `any`: some element satisfies `p`.
pub open spec fn spec_any<T>(s: Seq<T>, p: spec_fn(T) -> bool) -> bool {
    exists|i: int| 0 <= i < s.len() && p(#[trigger] s[i])
}

/// Reference scan for `position`: the index of the first element
/// satisfying `p` by a left-to-right walk.
pub open spec fn spec_position<T>(s: Seq<T>, p: spec_fn(T) -> bool) -> Option<int>
    decreases s.len(),
{
    if s.len() == 0 {
        None
    } else if p(s[0]) {
        Some(0)
    } else {
        match spec_position(s.drop_first(), p) {
            Some(i) => Some(i + 1),
            None => None,
        }
    }
}

/// Reference scan for `find`: the first element satisfying `p`.
pub open spec fn spec_find<T>(s: Seq<T>, p: spec_fn(T) -> bool) -> Option<T> {
    match spec_position(s, p) {
        Some(i) => Some(s[i]),
        None => None,
    }
}

/// Reference scan for `rposition`: the index of the first element
/// satisfying `p` by a right-to-left walk.
pub open spec fn spec_rposition<T>(s: Seq<T>, p: spec_fn(T) -> bool) -> Option<int>
    decreases s.len(),
{
    if s.len() == 0 {
        None
    } else if p(s.last()) {
        Some(s.len() - 1)
    } else {
        spec_rposition(s.drop_last(), p)
    }
}

proof fn lemma_position_some<T>(s: Seq<T>, p: spec_fn(T) -> bool, k: int)
    requires
        0 <= k < s.len(),
        p(s[k]),
        forall|i: int| 0 <= i < k ==> !p(#[trigger] s[i]),
    ensures
        spec_position(s, p) == Some(k),
    decreases s.len(),
{
    if k > 0 {
        assert(!p(s[0]));
        lemma_position_some(s.drop_first(), p, k - 1);
    }
}

proof fn lemma_position_none<T>(s: Seq<T>, p: spec_fn(T) -> bool)
    requires
        forall|i: int| 0 <= i < s.len() ==> !p(#[trigger] s[i]),
    ensures
        spec_position(s, p) is None,
    decreases s.len(),
{
    if s.len() > 0 {
        lemma_position_none(s.drop_first(), p);
    }
}

proof fn lemma_rposition_some<T>(s: Seq<T>, p: spec_fn(T) -> bool, k: int)
    requires
        0 <= k < s.len(),
        p(s[k]),
        forall|i: int| k < i < s.len() ==> !p(#[trigger] s[i]),
    ensures
        spec_rposition(s, p) == Some(k),
    decreases s.len(),
{
    if k < s.len() - 1 {
        assert(!p(s.last()));
        lemma_rposition_some(s.drop_last(), p, k);
    }
}

proof fn lemma_rposition_none<T>(s: Seq<T>, p: spec_fn(T) -> bool)
    requires
        forall|i: int| 0 <= i < s.len() ==> !p(#[trigger] s[i]),
    ensures
        spec_rposition(s, p) is None,
    decreases s.len(),
{
    if s.len() > 0 {
        lemma_rposition_none(s.drop_last(), p);
    }
}

/// Equivalence to the reference scan for `all`: when the predicate
/// decides `p`, any result that `all`'s contract admits over the elements
/// `v` equals the reference scan's answer.
pub proof fn lemma_all_matches_reference<T, F: Fn(&T) -> bool>(
    predicate: F,
    p: spec_fn(T) -> bool,
    v: Seq<T>,
    r: bool,
)
    requires
        decides(predicate, p),
        all_post(predicate, v, r),
    ensures
        r == spec_all(v, p),
{
    if r {
        assert forall|i: int| 0 <= i < v.len() implies p(#[trigger] v[i]) by {
            assert(call_ensures(predicate, (&v[i],), true));
        }
    } else {
        let k = choose|k: int|
            {
                &&& 0 <= k < v.len()
                &&& #[trigger] call_ensures(predicate, (&v[k],), false)
                &&& (forall|i: int| 0 <= i < k ==> call_ensures(predicate, (&v[i],), true))
            };
        assert(!p(v[k]));
    }
}

/// Equivalence to the reference scan for `any`.
pub proof fn lemma_any_matches_reference<T, F: Fn(&T) -> bool>(
    predicate: F,
    p: spec_fn(T) -> bool,
    v: Seq<T>,
    r: bool,
)
    requires
        decides(predicate, p),
        any_post(predicate, v, r),
    ensures
        r == spec_any(v, p),
{
    if r {
        let k = choose|k: int|
            {
                &&& 0 <= k < v.len()
                &&& #[trigger] call_ensures(predicate, (&v[k],), true)
                &&& (forall|i: int| 0 <= i < k ==> call_ensures(predicate, (&v[i],), false))
            };
        assert(p(v[k]));
    } else {
        assert forall|i: int| 0 <= i < v.len() implies !p(#[trigger] v[i]) by {
            assert(call_ensures(predicate, (&v[i],), false));
        }
    }
}

/// Equivalence to the reference scan for `position`.
pub proof fn lemma_position_matches_reference<T, F: Fn(&T) -> bool>(
    predicate: F,
    p: spec_fn(T) -> bool,
    v: Seq<T>,
    r: Option<usize>,
)
    requires
        decides(predicate, p),
        position_post(predicate, v, r),
    ensures
        match r {
            Some(idx) => spec_position(v, p) == Some(idx as int),
            None => spec_position(v, p) is None,
        },
{
    match r {
        Some(idx) => {
            assert(p(v[idx as int]));
            assert forall|i: int| 0 <= i < idx implies !p(#[trigger] v[i]) by {
                assert(call_ensures(predicate, (&v[i],), false));
            }
            lemma_position_some(v, p, idx as int);
        },
        None => {
            assert forall|i: int| 0 <= i < v.len() implies !p(#[trigger] v[i]) by {
                assert(call_ensures(predicate, (&v[i],), false));
            }
            lemma_position_none(v, p);
        },
    }
}

/// Equivalence to the reference scan for `find`.
pub proof fn lemma_find_matches_reference<T, F: Fn(&T) -> bool>(
    predicate: F,
    p: spec_fn(T) -> bool,
    v: Seq<T>,
    r: Option<T>,
)
    requires
        decides(predicate, p),
        find_post(predicate, v, r),
    ensures
        r == spec_find(v, p),
{
    match r {
        Some(e) => {
            let k = choose|k: int|
                {
                    &&& 0 <= k < v.len()
                    &&& e == v[k]
                    &&& #[trigger] call_ensures(predicate, (&v[k],), true)
                    &&& (forall|i: int| 0 <= i < k ==> call_ensures(predicate, (&v[i],), false))
                };
            assert(p(v[k]));
            assert forall|i: int| 0 <= i < k implies !p(#[trigger] v[i]) by {
                assert(call_ensures(predicate, (&v[i],), false));
            }
            lemma_position_some(v, p, k);
        },
        None => {
            assert forall|i: int| 0 <= i < v.len() implies !p(#[trigger] v[i]) by {
                assert(call_ensures(predicate, (&v[i],), false));
            }
            lemma_position_none(v, p);
        },
    }
}

/// Equivalence to the reference scan for `rposition`, which reports the
/// index in forward orientation although it scans from the back.
pub proof fn lemma_rposition_matches_reference<T, F: Fn(&T) -> bool>(
    predicate: F,
    p: spec_fn(T) -> bool,
    v: Seq<T>,
    r: Option<usize>,
)
    requires
        decides(predicate, p),
        rposition_post(predicate, v, r),
    ensures
        match r {
            Some(idx) => spec_rposition(v, p) == Some(idx as int),
            None => spec_rposition(v, p) is None,
        },
{
    match r {
        Some(idx) => {
            assert(p(v[idx as int]));
            assert forall|i: int| idx < i < v.len() implies !p(#[trigger] v[i]) by {
                assert(call_ensures(predicate, (&v[i],), false));
            }
            lemma_rposition_some(v, p, idx as int);
        },
        None => {
            assert forall|i: int| 0 <= i < v.len() implies !p(#[trigger] v[i]) by {
                assert(call_ensures(predicate, (&v[i],), false));
            }
            lemma_rposition_none(v, p);
        },
    }
}

/// Unrolling transparency for `all`: two runs over the same elements with
/// predicates that decide the same `p` — in particular one run of the
/// 1-wide and one of the 4-wide strategy — return the same answer.
pub proof fn lemma_unrolling_transparent_all<T, F1: Fn(&T) -> bool, F2: Fn(&T) -> bool>(
    f1: F1,
    f2: F2,
    p: spec_fn(T) -> bool,
    v: Seq<T>,
    r1: bool,
    r2: bool,
)
    requires
        decides(f1, p),
        decides(f2, p),
        all_post(f1, v, r1),
        all_post(f2, v, r2),
    ensures
        r1 == r2,
{
    lemma_all_matches_reference(f1, p, v, r1);
    lemma_all_matches_reference(f2, p, v, r2);
}

/// Unrolling transparency for `any`.
pub proof fn lemma_unrolling_transparent_any<T, F1: Fn(&T) -> bool, F2: Fn(&T) -> bool>(
    f1: F1,
    f2: F2,
    p: spec_fn(T) -> bool,
    v: Seq<T>,
    r1: bool,
    r2: bool,
)
    requires
        decides(f1, p),
        decides(f2, p),
        any_post(f1, v, r1),
        any_post(f2, v, r2),
    ensures
        r1 == r2,
{
    lemma_any_matches_reference(f1, p, v, r1);
    lemma_any_matches_reference(f2, p, v, r2);
}

/// Unrolling transparency for `find`.
pub proof fn lemma_unrolling_transparent_find<T, F1: Fn(&T) -> bool, F2: Fn(&T) -> bool>(
    f1: F1,
    f2: F2,
    p: spec_fn(T) -> bool,
    v: Seq<T>,
    r1: Option<T>,
    r2: Option<T>,
)
    requires
        decides(f1, p),
        decides(f2, p),
        find_post(f1, v, r1),
        find_post(f2, v, r2),
    ensures
        r1 == r2,
{
    lemma_find_matches_reference(f1, p, v, r1);
    lemma_find_matches_reference(f2, p, v, r2);
}

/// Unrolling transparency for `position`.
pub proof fn lemma_unrolling_transparent_position<T, F1: Fn(&T) -> bool, F2: Fn(&T) -> bool>(
    f1: F1,
    f2: F2,
    p: spec_fn(T) -> bool,
    v: Seq<T>,
    r1: Option<usize>,
    r2: Option<usize>,
)
    requires
        decides(f1, p),
        decides(f2, p),
        position_post(f1, v, r1),
        position_post(f2, v, r2),
    ensures
        r1 == r2,
{
    lemma_position_matches_reference(f1, p, v, r1);
    lemma_position_matches_reference(f2, p, v, r2);
}

/// Unrolling transparency for `rposition`.
pub proof fn lemma_unrolling_transparent_rposition<T, F1: Fn(&T) -> bool, F2: Fn(&T) -> bool>(
    f1: F1,
    f2: F2,
    p: spec_fn(T) -> bool,
    v: Seq<T>,
    r1: Option<usize>,
    r2: Option<usize>,
)
    requires
        decides(f1, p),
        decides(f2, p),
        rposition_post(f1, v, r1),
        rposition_post(f2, v, r2),
    ensures
        r1 == r2,
{
    lemma_rposition_matches_reference(f1, p, v, r1);
    lemma_rposition_matches_reference(f2, p, v, r2);
}

/// An interleaved walk over `v`: a `true` step visits the front element
/// of what remains and drops it there, exactly as `next` does to the
/// iterator's view; a `false` step visits the back element and drops it
/// there, exactly as `next_back` does; a step on an exhausted range
/// visits nothing.  Returns what was visited at the front, what remains,
/// and what was visited at the back, each in the original order.
pub open spec fn walk<T>(v: Seq<T>, steps: Seq<bool>) -> (Seq<T>, Seq<T>, Seq<T>)
    decreases steps.len(),
{
    if steps.len() == 0 {
        (Seq::<T>::empty(), v, Seq::<T>::empty())
    } else {
        let (front, rem, back) = walk(v, steps.drop_last());
        if rem.len() == 0 {
            (front, rem, back)
        } else if steps.last() {
            (front.push(rem[0]), rem.skip(1), back)
        } else {
            (front, rem.drop_last(), seq![rem.last()] + back)
        }
    }
}

/// No double-visitation: however forward and backward checked steps are
/// interleaved, what was visited at the front, what remains and what was
/// visited at the back always reassemble the original range — so no
/// element is ever visited twice, and once the range is exhausted the
/// walk has visited every element exactly once.
pub proof fn lemma_no_double_visitation<T>(v: Seq<T>, steps: Seq<bool>)
    ensures
        ({
            let (front, rem, back) = walk(v, steps);
            front + rem + back == v
        }),
    decreases steps.len(),
{
    if steps.len() > 0 {
        lemma_no_double_visitation(v, steps.drop_last());
        let (front, rem, back) = walk(v, steps.drop_last());
        if rem.len() > 0 {
            if steps.last() {
                assert(front.push(rem[0]) + rem.skip(1) + back =~= front + rem + back);
            } else {
                assert(front + rem.drop_last() + (seq![rem.last()] + back) =~= front + rem + back);
            }
        }
    }
}

} // verus!
