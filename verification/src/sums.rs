//! Sums over sequences, and how they change when a sequence is edited.
use vstd::prelude::*;

verus! {

/// The sum of `f` over the elements of `s`.
pub open spec fn sum_of<A>(s: Seq<A>, f: spec_fn(A) -> int) -> int
    decreases s.len(),
{
    if s.len() == 0 {
        0
    } else {
        sum_of(s.drop_last(), f) + f(s.last())
    }
}

/// Appending an element adds its value.
pub proof fn lemma_sum_push<A>(s: Seq<A>, x: A, f: spec_fn(A) -> int)
    ensures
        sum_of(s.push(x), f) == sum_of(s, f) + f(x),
{
    assert(s.push(x).drop_last() =~= s);
}

/// The sum over a concatenation is the sum of the sums.
pub proof fn lemma_sum_concat<A>(a: Seq<A>, b: Seq<A>, f: spec_fn(A) -> int)
    ensures
        sum_of(a + b, f) == sum_of(a, f) + sum_of(b, f),
    decreases b.len(),
{
    if b.len() == 0 {
        assert(a + b =~= a);
    } else {
        lemma_sum_concat(a, b.drop_last(), f);
        assert((a + b).drop_last() =~= a + b.drop_last());
    }
}

/// The sum over one element is its value.
pub proof fn lemma_sum_single<A>(x: A, f: spec_fn(A) -> int)
    ensures
        sum_of(seq![x], f) == f(x),
{
    assert(seq![x].drop_last() =~= Seq::<A>::empty());
    assert(seq![x].last() == x);
    assert(sum_of(Seq::<A>::empty(), f) == 0);
    assert(sum_of(seq![x], f) == sum_of(seq![x].drop_last(), f) + f(seq![x].last()));
}

/// The sum splits at any index.
pub proof fn lemma_sum_split<A>(s: Seq<A>, i: int, f: spec_fn(A) -> int)
    requires
        0 <= i <= s.len(),
    ensures
        sum_of(s, f) == sum_of(s.take(i), f) + sum_of(s.skip(i), f),
{
    assert(s =~= s.take(i) + s.skip(i));
    lemma_sum_concat(s.take(i), s.skip(i), f);
}

/// Replacing one element changes the sum by the difference of the two values.
pub proof fn lemma_sum_update<A>(s: Seq<A>, i: int, x: A, f: spec_fn(A) -> int)
    requires
        0 <= i < s.len(),
    ensures
        sum_of(s.update(i, x), f) == sum_of(s, f) - f(s[i]) + f(x),
{
    let t = s.take(i);
    let r = s.skip(i + 1);
    assert(s =~= t + seq![s[i]] + r);
    assert(s.update(i, x) =~= t + seq![x] + r);
    lemma_sum_concat(t + seq![s[i]], r, f);
    lemma_sum_concat(t, seq![s[i]], f);
    lemma_sum_concat(t + seq![x], r, f);
    lemma_sum_concat(t, seq![x], f);
    lemma_sum_single(s[i], f);
    lemma_sum_single(x, f);
}

/// Removing one element subtracts its value from the sum.
pub proof fn lemma_sum_remove<A>(s: Seq<A>, i: int, f: spec_fn(A) -> int)
    requires
        0 <= i < s.len(),
    ensures
        sum_of(s.remove(i), f) == sum_of(s, f) - f(s[i]),
{
    let t = s.take(i);
    let r = s.skip(i + 1);
    assert(s =~= t + seq![s[i]] + r);
    assert(s.remove(i) =~= t + r);
    lemma_sum_concat(t + seq![s[i]], r, f);
    lemma_sum_concat(t, seq![s[i]], f);
    lemma_sum_concat(t, r, f);
    lemma_sum_single(s[i], f);
}

/// Inserting one element adds its value to the sum.
pub proof fn lemma_sum_insert<A>(s: Seq<A>, i: int, x: A, f: spec_fn(A) -> int)
    requires
        0 <= i <= s.len(),
    ensures
        sum_of(s.insert(i, x), f) == sum_of(s, f) + f(x),
{
    let t = s.take(i);
    let r = s.skip(i);
    assert(s =~= t + r);
    assert(s.insert(i, x) =~= t + seq![x] + r);
    lemma_sum_concat(t + seq![x], r, f);
    lemma_sum_concat(t, seq![x], f);
    lemma_sum_concat(t, r, f);
    lemma_sum_single(x, f);
}

/// Dropping the first element subtracts its value from the sum.
pub proof fn lemma_sum_drop_first<A>(s: Seq<A>, f: spec_fn(A) -> int)
    requires
        s.len() > 0,
    ensures
        sum_of(s.drop_first(), f) == sum_of(s, f) - f(s[0]),
{
    assert(s.drop_first() =~= s.remove(0));
    lemma_sum_remove(s, 0, f);
}

/// A sum of values that are never negative is at least each of its terms.
pub proof fn lemma_sum_nonneg<A>(s: Seq<A>, f: spec_fn(A) -> int, i: int)
    requires
        forall|x: A| #[trigger] f(x) >= 0,
        0 <= i < s.len(),
    ensures
        sum_of(s, f) >= f(s[i]),
        sum_of(s, f) >= 0,
{
    lemma_sum_remove(s, i, f);
    lemma_sum_ge_zero(s.remove(i), f);
}

/// A sum of values that are never negative is not negative.
pub proof fn lemma_sum_ge_zero<A>(s: Seq<A>, f: spec_fn(A) -> int)
    requires
        forall|x: A| #[trigger] f(x) >= 0,
    ensures
        sum_of(s, f) >= 0,
    decreases s.len(),
{
    if s.len() > 0 {
        lemma_sum_ge_zero(s.drop_last(), f);
    }
}

/// Sums of functions that agree on every element are equal.
pub proof fn lemma_sum_ext<A>(s: Seq<A>, f: spec_fn(A) -> int, g: spec_fn(A) -> int)
    requires
        forall|i: int| 0 <= i < s.len() ==> f(s[i]) == g(s[i]),
    ensures
        sum_of(s, f) == sum_of(s, g),
    decreases s.len(),
{
    if s.len() > 0 {
        lemma_sum_ext(s.drop_last(), f, g);
    }
}

/// Sums of values bounded by `b` are bounded by `b` times the length.
pub proof fn lemma_sum_bound<A>(s: Seq<A>, f: spec_fn(A) -> int, b: int)
    requires
        forall|i: int| 0 <= i < s.len() ==> 0 <= #[trigger] f(s[i]) <= b,
    ensures
        0 <= sum_of(s, f) <= s.len() * b,
    decreases s.len(),
{
    if s.len() > 0 {
        assert forall|i: int| 0 <= i < s.drop_last().len() implies 0 <= #[trigger] f(
            s.drop_last()[i],
        ) <= b by {
            assert(s.drop_last()[i] == s[i]);
        }
        lemma_sum_bound(s.drop_last(), f, b);
        assert(f(s[s.len() - 1]) <= b);
        assert((s.len() - 1) * b + b == s.len() * b) by (nonlinear_arith);
    }
}

} // verus!
