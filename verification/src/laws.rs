//! Laws relating sequences of table operations, stated over the step
//! predicates that the operations' contracts establish.

use vstd::prelude::*;

use crate::slab::Entry;
use crate::slab::insert_step;
use crate::slab::remove_step;

verus! {

/// Key stability: a successful insert leaves every other slot exactly as it
/// was, so in particular a value already held at another key stays there.
pub proof fn lemma_insert_preserves_other<T>(
    pre: Seq<Entry<T>>,
    pre_head: usize,
    val: T,
    key: usize,
    post: Seq<Entry<T>>,
    post_head: usize,
    k: int,
)
    requires
        insert_step(pre, pre_head, val, key, post, post_head),
        0 <= k < pre.len(),
        k != key,
    ensures
        post[k] == pre[k],
{
}

/// Key stability: a successful remove leaves every other slot exactly as it
/// was, so in particular a value already held at another key stays there.
pub proof fn lemma_remove_preserves_other<T>(
    pre: Seq<Entry<T>>,
    pre_head: usize,
    key: usize,
    val: T,
    post: Seq<Entry<T>>,
    post_head: usize,
    k: int,
)
    requires
        remove_step(pre, pre_head, key, val, post, post_head),
        0 <= k < pre.len(),
        k != key,
    ensures
        post[k] == pre[k],
{
}

/// LIFO free-list reuse: after removing key `a` and then key `b`, the next
/// successful insert is given `b` (the most recently removed key), and the
/// one after it is given `a`.
pub proof fn lemma_lifo_reuse<T>(
    s0: Seq<Entry<T>>,
    h0: usize,
    a: usize,
    va: T,
    s1: Seq<Entry<T>>,
    h1: usize,
    b: usize,
    vb: T,
    s2: Seq<Entry<T>>,
    h2: usize,
    v1: T,
    k1: usize,
    s3: Seq<Entry<T>>,
    h3: usize,
    v2: T,
    k2: usize,
    s4: Seq<Entry<T>>,
    h4: usize,
)
    requires
        remove_step(s0, h0, a, va, s1, h1),
        remove_step(s1, h1, b, vb, s2, h2),
        insert_step(s2, h2, v1, k1, s3, h3),
        insert_step(s3, h3, v2, k2, s4, h4),
    ensures
        k1 == b,
        k2 == a,
{
    assert(s2[b as int] == Entry::<T>::Vacant(h1));
}

/// Double-remove safety: a removed slot is vacant, so by the contract of the
/// non-fatal remove a second remove of the same key reports absence and
/// leaves the table (in particular its occupied count) unchanged.
pub proof fn lemma_double_remove<T>(
    s0: Seq<Entry<T>>,
    h0: usize,
    key: usize,
    val: T,
    s1: Seq<Entry<T>>,
    h1: usize,
)
    requires
        remove_step(s0, h0, key, val, s1, h1),
    ensures
        !(s1[key as int] is Occupied),
{
}

} // verus!
