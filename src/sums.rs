//! Finite sums over sequences, and the facts about them that the store's
//! totals rest on.

use vstd::prelude::*;

verus! {

/// The sum of `f` over the elements of `s`.
pub open spec fn sum_of<A>(s: Seq<A>, f: spec_fn(A) -> int) -> int
    decreases s.len(),
{
    if s.len() == 0 {
        0
    } else {
        sum_of(s.drop_last(), f) + f(s.last())
    }
}

pub proof fn lemma_sum_push<A>(s: Seq<A>, x: A, f: spec_fn(A) -> int)
    ensures
        sum_of(s.push(x), f) == sum_of(s, f) + f(x),
{
    assert(s.push(x).drop_last() =~= s);
}

pub proof fn lemma_sum_take_step<A>(s: Seq<A>, i: int, f: spec_fn(A) -> int)
    requires
        0 <= i < s.len(),
    ensures
        sum_of(s.take(i + 1), f) == sum_of(s.take(i), f) + f(s[i]),
{
    assert(s.take(i + 1) =~= s.take(i).push(s[i]));
    lemma_sum_push(s.take(i), s[i], f);
}

pub proof fn lemma_sum_take_all<A>(s: Seq<A>, f: spec_fn(A) -> int)
    ensures
        sum_of(s.take(s.len() as int), f) == sum_of(s, f),
{
    assert(s.take(s.len() as int) =~= s);
}

pub proof fn lemma_sum_update<A>(s: Seq<A>, i: int, x: A, f: spec_fn(A) -> int)
    requires
        0 <= i < s.len(),
    ensures
        sum_of(s.update(i, x), f) == sum_of(s, f) - f(s[i]) + f(x),
    decreases s.len(),
{
    if i == s.len() - 1 {
        assert(s.update(i, x).drop_last() =~= s.drop_last());
    } else {
        lemma_sum_update(s.drop_last(), i, x, f);
        assert(s.update(i, x).drop_last() =~= s.drop_last().update(i, x));
    }
}

pub proof fn lemma_sum_ext<A>(s: Seq<A>, f: spec_fn(A) -> int, g: spec_fn(A) -> int)
    requires
        forall|k: int| 0 <= k < s.len() ==> f(s[k]) == g(s[k]),
    ensures
        sum_of(s, f) == sum_of(s, g),
    decreases s.len(),
{
    if s.len() > 0 {
        lemma_sum_ext(s.drop_last(), f, g);
    }
}

pub proof fn lemma_sum_add<A>(s: Seq<A>, f: spec_fn(A) -> int, g: spec_fn(A) -> int)
    ensures
        sum_of(s, f) + sum_of(s, g) == sum_of(s, |x: A| f(x) + g(x)),
    decreases s.len(),
{
    if s.len() > 0 {
        lemma_sum_add(s.drop_last(), f, g);
    }
}

pub proof fn lemma_sum_zero<A>(s: Seq<A>, f: spec_fn(A) -> int)
    requires
        forall|k: int| 0 <= k < s.len() ==> f(s[k]) == 0,
    ensures
        sum_of(s, f) == 0,
    decreases s.len(),
{
    if s.len() > 0 {
        lemma_sum_zero(s.drop_last(), f);
    }
}

/// Summing over the kept elements is summing `f` masked by the filter.
pub proof fn lemma_sum_filter<A>(s: Seq<A>, p: spec_fn(A) -> bool, f: spec_fn(A) -> int)
    ensures
        sum_of(s.filter(p), f) == sum_of(s, |x: A| if p(x) { f(x) } else { 0 }),
    decreases s.len(),
{
    let m = |x: A| if p(x) { f(x) } else { 0 };
    reveal(Seq::filter);
    if s.len() > 0 {
        lemma_sum_filter(s.drop_last(), p, f);
        assert(sum_of(s, m) == sum_of(s.drop_last(), m) + m(s.last()));
        let rest = s.drop_last().filter(p);
        if p(s.last()) {
            assert(s.filter(p) == rest.push(s.last()));
            lemma_sum_push(rest, s.last(), f);
        } else {
            assert(s.filter(p) == rest);
        }
    } else {
        assert(s.filter(p) =~= s);
    }
}

pub proof fn lemma_sum_nonneg<A>(s: Seq<A>, g: spec_fn(A) -> int)
    requires
        forall|k: int| 0 <= k < s.len() ==> g(s[k]) >= 0,
    ensures
        sum_of(s, g) >= 0,
    decreases s.len(),
{
    if s.len() > 0 {
        lemma_sum_nonneg(s.drop_last(), g);
    }
}

/// A sum is bounded in size by the sum of bounds on its terms.
pub proof fn lemma_sum_abs_bound<A>(s: Seq<A>, f: spec_fn(A) -> int, g: spec_fn(A) -> int)
    requires
        forall|k: int| 0 <= k < s.len() ==> -g(s[k]) <= #[trigger] f(s[k]) <= g(s[k]),
    ensures
        -sum_of(s, g) <= sum_of(s, f) <= sum_of(s, g),
    decreases s.len(),
{
    if s.len() > 0 {
        lemma_sum_abs_bound(s.drop_last(), f, g);
    }
}

/// With non-negative terms, a prefix sums to at most the whole.
pub proof fn lemma_sum_prefix_le<A>(s: Seq<A>, i: int, g: spec_fn(A) -> int)
    requires
        0 <= i <= s.len(),
        forall|k: int| 0 <= k < s.len() ==> g(s[k]) >= 0,
    ensures
        0 <= sum_of(s.take(i), g) <= sum_of(s, g),
    decreases s.len() - i,
{
    if i == s.len() {
        lemma_sum_take_all(s, g);
        lemma_sum_nonneg(s, g);
    } else {
        lemma_sum_prefix_le(s, i + 1, g);
        lemma_sum_take_step(s, i, g);
        assert forall|k: int| 0 <= k < s.take(i).len() implies g(s.take(i)[k]) >= 0 by {
            assert(s.take(i)[k] == s[k]);
        }
        lemma_sum_nonneg(s.take(i), g);
    }
}

} // verus!
