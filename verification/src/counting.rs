//! Counting the elements of a sequence that satisfy a predicate, with the
//! update lemmas the reference-counting invariants need.

use vstd::prelude::*;

verus! {

/// How many elements of `s` satisfy `pred`.
pub open spec fn count_matching<T>(s: Seq<T>, pred: spec_fn(T) -> bool) -> nat
    decreases s.len(),
{
    if s.len() == 0 {
        0
    } else {
        count_matching(s.drop_last(), pred) + (if pred(s.last()) {
            1nat
        } else {
            0nat
        })
    }
}

/// The count never exceeds the length.
pub proof fn lemma_count_le_len<T>(s: Seq<T>, pred: spec_fn(T) -> bool)
    ensures
        count_matching(s, pred) <= s.len(),
    decreases s.len(),
{
    if s.len() > 0 {
        lemma_count_le_len(s.drop_last(), pred);
    }
}

/// Appending an element adds its own contribution to the count.
pub proof fn lemma_count_push<T>(s: Seq<T>, v: T, pred: spec_fn(T) -> bool)
    ensures
        count_matching(s.push(v), pred) == count_matching(s, pred) + (if pred(v) {
            1nat
        } else {
            0nat
        }),
{
    assert(s.push(v).drop_last() =~= s);
    assert(s.push(v).last() == v);
}

/// Replacing the element at `i` trades its contribution for the new one's.
pub proof fn lemma_count_update<T>(s: Seq<T>, i: int, v: T, pred: spec_fn(T) -> bool)
    requires
        0 <= i < s.len(),
    ensures
        count_matching(s.update(i, v), pred) + (if pred(s[i]) {
            1nat
        } else {
            0nat
        }) == count_matching(s, pred) + (if pred(v) {
            1nat
        } else {
            0nat
        }),
    decreases s.len(),
{
    let t = s.update(i, v);
    if i == s.len() - 1 {
        assert(t.drop_last() =~= s.drop_last());
        assert(t.last() == v);
    } else {
        assert(t.drop_last() =~= s.drop_last().update(i, v));
        assert(t.last() == s.last());
        lemma_count_update(s.drop_last(), i, v, pred);
    }
}

/// Removing the element at `i` removes exactly its contribution.
pub proof fn lemma_count_remove<T>(s: Seq<T>, i: int, pred: spec_fn(T) -> bool)
    requires
        0 <= i < s.len(),
    ensures
        count_matching(s.remove(i), pred) + (if pred(s[i]) {
            1nat
        } else {
            0nat
        }) == count_matching(s, pred),
    decreases s.len(),
{
    let t = s.remove(i);
    if i == s.len() - 1 {
        assert(t =~= s.drop_last());
    } else {
        assert(t.drop_last() =~= s.drop_last().remove(i));
        assert(t.last() == s.last());
        lemma_count_remove(s.drop_last(), i, pred);
    }
}

/// An element that satisfies the predicate makes the count positive.
pub proof fn lemma_count_ge_one<T>(s: Seq<T>, i: int, pred: spec_fn(T) -> bool)
    requires
        0 <= i < s.len(),
        pred(s[i]),
    ensures
        count_matching(s, pred) >= 1,
    decreases s.len(),
{
    if i == s.len() - 1 {
    } else {
        lemma_count_ge_one(s.drop_last(), i, pred);
    }
}

/// Two distinct elements that satisfy the predicate make the count at
/// least two.
pub proof fn lemma_count_ge_two<T>(s: Seq<T>, i: int, j: int, pred: spec_fn(T) -> bool)
    requires
        0 <= i < s.len(),
        0 <= j < s.len(),
        i != j,
        pred(s[i]),
        pred(s[j]),
    ensures
        count_matching(s, pred) >= 2,
    decreases s.len(),
{
    let n = s.len() - 1;
    if i == n {
        lemma_count_ge_one(s.drop_last(), j, pred);
    } else if j == n {
        lemma_count_ge_one(s.drop_last(), i, pred);
    } else {
        lemma_count_ge_two(s.drop_last(), i, j, pred);
    }
}

/// Where no element satisfies the predicate the count is zero.
pub proof fn lemma_count_all_zero<T>(s: Seq<T>, pred: spec_fn(T) -> bool)
    requires
        forall|i: int| 0 <= i < s.len() ==> !pred(s[i]),
    ensures
        count_matching(s, pred) == 0,
    decreases s.len(),
{
    if s.len() > 0 {
        lemma_count_all_zero(s.drop_last(), pred);
    }
}

} // verus!
