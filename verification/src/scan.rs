//! Two search idioms shared by the detectors: the first position at which a
//! partial function is defined, and the ordered listing of the positions that
//! meet a condition.

use vstd::prelude::*;

verus! {

/// The value of `f` at the least `t` in `0..n` where `f` is defined.
pub open spec fn first_some<T>(n: int, f: spec_fn(int) -> Option<T>) -> Option<T>
    decreases n,
{
    if n <= 0 {
        None
    } else {
        match first_some(n - 1, f) {
            Some(x) => Some(x),
            None => f(n - 1),
        }
    }
}

/// Once found, the first value stays when the range grows.
pub proof fn lemma_first_some_stable<T>(m: int, n: int, f: spec_fn(int) -> Option<T>)
    requires
        m <= n,
        first_some(m, f) is Some,
    ensures
        first_some(n, f) == first_some(m, f),
    decreases n,
{
    if m < n {
        lemma_first_some_stable(m, n - 1, f);
    }
}

/// A value found at `t` after nothing below `t` is the first of any larger range.
pub proof fn lemma_first_some_at<T>(t: int, n: int, f: spec_fn(int) -> Option<T>)
    requires
        0 <= t < n,
        first_some(t, f) is None,
        f(t) is Some,
    ensures
        first_some(n, f) == f(t),
{
    assert(first_some(t + 1, f) == f(t));
    lemma_first_some_stable(t + 1, n, f);
}

/// What `first_some` says of its result: where it was found, and that nothing
/// lies before it.
pub proof fn lemma_first_some_witness<T>(n: int, f: spec_fn(int) -> Option<T>) -> (t: int)
    requires
        first_some(n, f) is Some,
    ensures
        0 <= t < n,
        f(t) == first_some(n, f),
        forall|j: int| 0 <= j < t ==> (#[trigger] f(j)) is None,
    decreases n,
{
    if first_some(n - 1, f) is Some {
        lemma_first_some_witness(n - 1, f)
    } else {
        lemma_first_none(n - 1, f);
        n - 1
    }
}

/// `first_some` is `None` exactly when `f` is undefined on the whole range.
pub proof fn lemma_first_none<T>(n: int, f: spec_fn(int) -> Option<T>)
    ensures
        first_some(n, f) is None <==> (forall|j: int| 0 <= j < n ==> (#[trigger] f(j)) is None),
    decreases n,
{
    if n > 0 {
        lemma_first_none(n - 1, f);
        if first_some(n - 1, f) is None && f(n - 1) is None {
            assert forall|j: int| 0 <= j < n implies (#[trigger] f(j)) is None by {
                if j < n - 1 {
                }
            }
        }
    }
}

/// The least `t` in `0..n` with `p(t)`, or `n` when there is none.
pub open spec fn first_index(n: int, p: spec_fn(int) -> bool) -> int
    decreases n,
{
    if n <= 0 {
        0
    } else {
        let r = first_index(n - 1, p);
        if r < n - 1 {
            r
        } else if p(n - 1) {
            n - 1
        } else {
            n
        }
    }
}

/// `first_index` is the least position that meets `p`.
pub proof fn lemma_first_index(n: int, p: spec_fn(int) -> bool)
    requires
        0 <= n,
    ensures
        0 <= first_index(n, p) <= n,
        first_index(n, p) < n ==> p(first_index(n, p)),
        forall|t: int| 0 <= t < first_index(n, p) ==> !(#[trigger] p(t)),
    decreases n,
{
    if n > 0 {
        lemma_first_index(n - 1, p);
        assert forall|t: int| 0 <= t < first_index(n, p) implies !(#[trigger] p(t)) by {
            if t < n - 1 {
            }
        }
    }
}

/// A position that meets `p` after none below it is the first index.
pub proof fn lemma_first_index_is(n: int, p: spec_fn(int) -> bool, r: int)
    requires
        0 <= r <= n,
        r < n ==> p(r),
        forall|t: int| 0 <= t < r ==> !(#[trigger] p(t)),
    ensures
        first_index(n, p) == r,
{
    lemma_first_index(n, p);
    let q = first_index(n, p);
    if q < r {
        assert(p(q));
    }
}

/// The items `item(t)` for the `t` in `0..n` with `keep(t)`, in ascending
/// order of `t`.
pub open spec fn listing<T>(n: int, keep: spec_fn(int) -> bool, item: spec_fn(int) -> T) -> Seq<T>
    decreases n,
{
    if n <= 0 {
        Seq::empty()
    } else if keep(n - 1) {
        listing(n - 1, keep, item).push(item(n - 1))
    } else {
        listing(n - 1, keep, item)
    }
}

/// Every entry of a listing comes from a kept position.
pub proof fn lemma_listing_entry<T>(
    n: int,
    keep: spec_fn(int) -> bool,
    item: spec_fn(int) -> T,
    k: int,
) -> (t: int)
    requires
        0 <= k < listing(n, keep, item).len(),
    ensures
        0 <= t < n,
        keep(t),
        listing(n, keep, item)[k] == item(t),
    decreases n,
{
    if keep(n - 1) && k == listing(n - 1, keep, item).len() {
        n - 1
    } else {
        lemma_listing_entry(n - 1, keep, item, k)
    }
}

} // verus!
