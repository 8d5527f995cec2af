//! Finding the first position that satisfies a predicate, and counting the
//! positions that do.
use vstd::prelude::*;

verus! {

/// The first position in `from..to` at which `p` holds, or `to` when it holds
/// at none of them.
pub open spec fn first_index(p: spec_fn(int) -> bool, from: int, to: int) -> int
    decreases to - from,
{
    if from >= to {
        to
    } else if p(from) {
        from
    } else {
        first_index(p, from + 1, to)
    }
}

/// `first_index` lands inside the range, on a position where `p` holds unless
/// it is the end, and `p` fails everywhere before it.
pub proof fn lemma_first_index(p: spec_fn(int) -> bool, from: int, to: int)
    requires
        from <= to,
    ensures
        from <= first_index(p, from, to) <= to,
        first_index(p, from, to) < to ==> p(first_index(p, from, to)),
        forall|j: int| from <= j < first_index(p, from, to) ==> !#[trigger] p(j),
    decreases to - from,
{
    if from < to && !p(from) {
        lemma_first_index(p, from + 1, to);
    }
}

/// Any position with the three properties of `lemma_first_index` is the one
/// that `first_index` returns.
pub proof fn lemma_first_index_unique(p: spec_fn(int) -> bool, from: int, to: int, k: int)
    requires
        from <= k <= to,
        k < to ==> p(k),
        forall|j: int| from <= j < k ==> !#[trigger] p(j),
    ensures
        first_index(p, from, to) == k,
    decreases to - from,
{
    if from < to && from != k {
        lemma_first_index_unique(p, from + 1, to, k);
    }
}

/// Two predicates that agree on `from..to` have the same first position.
pub proof fn lemma_first_index_agree(
    p: spec_fn(int) -> bool,
    q: spec_fn(int) -> bool,
    from: int,
    to: int,
)
    requires
        from <= to,
        forall|j: int|
            #![trigger p(j)]
            #![trigger q(j)]
            from <= j < to ==> p(j) == q(j),
    ensures
        first_index(p, from, to) == first_index(q, from, to),
{
    lemma_first_index(p, from, to);
    lemma_first_index_unique(q, from, to, first_index(p, from, to));
}

/// How many elements of `s` satisfy `f`.
pub open spec fn count<T>(s: Seq<T>, f: spec_fn(T) -> bool) -> nat
    decreases s.len(),
{
    if s.len() == 0 {
        0
    } else {
        count(s.drop_last(), f) + if f(s.last()) {
            1nat
        } else {
            0nat
        }
    }
}

/// Where no element satisfies `f`, the count is zero.
pub proof fn lemma_count_none<T>(s: Seq<T>, f: spec_fn(T) -> bool)
    requires
        forall|i: int| 0 <= i < s.len() ==> !f(#[trigger] s[i]),
    ensures
        count(s, f) == 0,
    decreases s.len(),
{
    if s.len() > 0 {
        lemma_count_none(s.drop_last(), f);
    }
}

/// Replacing one element changes the count by what the old and the new
/// element contribute.
pub proof fn lemma_count_update<T>(s: Seq<T>, f: spec_fn(T) -> bool, i: int, x: T)
    requires
        0 <= i < s.len(),
    ensures
        count(s.update(i, x), f) + (if f(s[i]) { 1nat } else { 0nat })
            == count(s, f) + (if f(x) { 1nat } else { 0nat }),
    decreases s.len(),
{
    let t = s.update(i, x);
    if i == s.len() - 1 {
        assert(t.drop_last() =~= s.drop_last());
    } else {
        assert(t.drop_last() =~= s.drop_last().update(i, x));
        lemma_count_update(s.drop_last(), f, i, x);
    }
}

/// Appending one element adds its contribution to the count.
pub proof fn lemma_count_push<T>(s: Seq<T>, f: spec_fn(T) -> bool, x: T)
    ensures
        count(s.push(x), f) == count(s, f) + (if f(x) { 1nat } else { 0nat }),
{
    assert(s.push(x).drop_last() =~= s);
}

} // verus!
