//! Sums over sequences, powers, remainders.

use vstd::prelude::*;

verus! {

/// The sum of a sequence of integers.
pub open spec fn total(s: Seq<int>) -> int
    decreases s.len(),
{
    if s.len() == 0 {
        0
    } else {
        total(s.drop_last()) + s.last()
    }
}

/// Appending a number adds it to the sum.
pub proof fn total_push(s: Seq<int>, x: int)
    ensures
        total(s.push(x)) == total(s) + x,
{
    assert(s.push(x).drop_last() == s);
}

/// Replacing a number changes the sum by the difference.
pub proof fn total_update(s: Seq<int>, i: int, x: int)
    requires
        0 <= i < s.len(),
    ensures
        total(s.update(i, x)) == total(s) - s[i] + x,
    decreases s.len(),
{
    if i == s.len() - 1 {
        assert(s.update(i, x).drop_last() == s.drop_last());
    } else {
        assert(s.update(i, x).drop_last() == s.drop_last().update(i, x));
        total_update(s.drop_last(), i, x);
    }
}

/// A sum of numbers that are not negative is at least each of them.
pub proof fn total_at_least(s: Seq<int>, i: int)
    requires
        0 <= i < s.len(),
        forall|j: int| 0 <= j < s.len() ==> s[j] >= 0,
    ensures
        total(s) >= s[i],
    decreases s.len(),
{
    total_nonnegative(s.drop_last());
    if i < s.len() - 1 {
        total_at_least(s.drop_last(), i);
    }
}

/// A sum of numbers that are not negative is not negative.
pub proof fn total_nonnegative(s: Seq<int>)
    requires
        forall|j: int| 0 <= j < s.len() ==> s[j] >= 0,
    ensures
        total(s) >= 0,
    decreases s.len(),
{
    if s.len() > 0 {
        total_nonnegative(s.drop_last());
    }
}

/// Leaving a number out takes it off the sum.
pub proof fn total_remove(s: Seq<int>, i: int)
    requires
        0 <= i < s.len(),
    ensures
        total(s.remove(i)) == total(s) - s[i],
    decreases s.len(),
{
    if i == s.len() - 1 {
        assert(s.remove(i) =~= s.drop_last());
    } else {
        assert(s.remove(i).drop_last() =~= s.drop_last().remove(i));
        total_remove(s.drop_last(), i);
    }
}

/// The order of numbers does not matter to their sum.
pub proof fn total_any_order(a: Seq<int>, b: Seq<int>)
    requires
        a.to_multiset() == b.to_multiset(),
    ensures
        total(a) == total(b),
    decreases a.len(),
{
    broadcast use vstd::seq_lib::group_to_multiset_ensures;

    assert(a.to_multiset().len() == a.len() && b.to_multiset().len() == b.len());
    if a.len() > 0 {
        let x = a.last();
        assert(a[a.len() - 1] == x);
        assert(a.contains(x));
        assert(b.to_multiset().count(x) > 0);
        assert(b.contains(x));
        let j = b.index_of(x);
        assert(a.drop_last() =~= a.remove(a.len() - 1));
        total_any_order(a.drop_last(), b.remove(j));
        total_remove(b, j);
    }
}

/// `b` to the power of `e`.
pub open spec fn power(b: int, e: nat) -> int
    decreases e,
{
    if e == 0 {
        1
    } else {
        power(b, (e - 1) as nat) * b
    }
}

/// Powers of positive numbers are positive.
pub proof fn power_positive(b: int, e: nat)
    requires
        b >= 1,
    ensures
        power(b, e) >= 1,
    decreases e,
{
    if e > 0 {
        power_positive(b, (e - 1) as nat);
        let x = power(b, (e - 1) as nat);
        assert(x * b >= 1) by (nonlinear_arith)
            requires
                x >= 1,
                b >= 1,
        ;
    }
}

/// A larger base has larger powers.
pub proof fn power_monotone(a: int, b: int, e: nat)
    requires
        1 <= a <= b,
    ensures
        power(a, e) <= power(b, e),
    decreases e,
{
    if e > 0 {
        power_monotone(a, b, (e - 1) as nat);
        power_positive(a, (e - 1) as nat);
        let x = power(a, (e - 1) as nat);
        let y = power(b, (e - 1) as nat);
        assert(x * a <= y * b) by (nonlinear_arith)
            requires
                1 <= a <= b,
                1 <= x <= y,
        ;
    }
}

} // verus!
