//! What it means that some items come from others in order.
use vstd::prelude::*;

verus! {

/// The items of `some` stand in `all` at these positions, from left to right.
pub open spec fn picks<T>(some: Seq<T>, all: Seq<T>, at: Seq<int>) -> bool {
    &&& at.len() == some.len()
    &&& forall|i: int|
        #![trigger at[i]]
        0 <= i < at.len() ==> 0 <= at[i] < all.len() && all[at[i]] == some[i]
    &&& forall|i: int, j: int| #![trigger at[i], at[j]] 0 <= i < j < at.len() ==> at[i] < at[j]
}

/// The items of `some` are items of `all`, in the same order and none twice.
pub open spec fn comes_from<T>(some: Seq<T>, all: Seq<T>) -> bool {
    exists|at: Seq<int>| picks(some, all, at)
}

pub proof fn lemma_comes_from_itself<T>(all: Seq<T>)
    ensures
        comes_from(all, all),
{
    assert(picks(all, all, Seq::new(all.len(), |i: int| i)));
}

pub proof fn lemma_comes_from_twice<T>(a: Seq<T>, b: Seq<T>, c: Seq<T>)
    requires
        comes_from(a, b),
        comes_from(b, c),
    ensures
        comes_from(a, c),
{
    let f = choose|at: Seq<int>| picks(a, b, at);
    let g = choose|at: Seq<int>| picks(b, c, at);
    let h = Seq::new(a.len(), |i: int| g[f[i]]);
    assert forall|i: int| #![trigger h[i]] 0 <= i < h.len() implies 0 <= h[i] < c.len() && c[h[i]]
        == a[i] by {
        assert(h[i] == g[f[i]]);
    }
    assert forall|i: int, j: int| #![trigger h[i], h[j]] 0 <= i < j < h.len() implies h[i]
        < h[j] by {
        assert(f[i] < f[j]);
    }
    assert(picks(a, c, h));
}

/// The same items on the left of both.
pub proof fn lemma_comes_from_after<T>(before: Seq<T>, some: Seq<T>, all: Seq<T>)
    requires
        comes_from(some, all),
    ensures
        comes_from(before + some, before + all),
{
    let n = before.len() as int;
    let f = choose|at: Seq<int>| picks(some, all, at);
    let h = Seq::new(
        (before + some).len(),
        |i: int|
            if i < n {
                i
            } else {
                n + f[i - n]
            },
    );
    assert forall|i: int| #![trigger h[i]] 0 <= i < h.len() implies 0 <= h[i] < (before
        + all).len() && (before + all)[h[i]] == (before + some)[i] by {
        if i >= n {
            assert(0 <= f[i - n] < all.len());
        }
    }
    assert forall|i: int, j: int| #![trigger h[i], h[j]] 0 <= i < j < h.len() implies h[i]
        < h[j] by {
        if i >= n {
            assert(f[i - n] < f[j - n]);
        } else if j >= n {
            assert(0 <= f[j - n]);
        }
    }
    assert(picks(before + some, before + all, h));
}

/// The same items on the right of both.
pub proof fn lemma_comes_from_before<T>(some: Seq<T>, all: Seq<T>, after: Seq<T>)
    requires
        comes_from(some, all),
    ensures
        comes_from(some + after, all + after),
{
    let n = some.len() as int;
    let f = choose|at: Seq<int>| picks(some, all, at);
    let h = Seq::new(
        (some + after).len(),
        |i: int|
            if i < n {
                f[i]
            } else {
                all.len() + i - n
            },
    );
    assert forall|i: int| #![trigger h[i]] 0 <= i < h.len() implies 0 <= h[i] < (all
        + after).len() && (all + after)[h[i]] == (some + after)[i] by {
        if i < n {
            assert(0 <= f[i] < all.len());
        }
    }
    assert forall|i: int, j: int| #![trigger h[i], h[j]] 0 <= i < j < h.len() implies h[i]
        < h[j] by {
        if j < n {
            assert(f[i] < f[j]);
        } else if i < n {
            assert(f[i] < all.len());
        }
    }
    assert(picks(some + after, all + after, h));
}

/// More items to come from.
pub proof fn lemma_comes_from_more<T>(some: Seq<T>, all: Seq<T>, after: Seq<T>)
    requires
        comes_from(some, all),
    ensures
        comes_from(some, all + after),
{
    let f = choose|at: Seq<int>| picks(some, all, at);
    assert(picks(some, all + after, f));
}

} // verus!
