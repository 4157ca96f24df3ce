use vstd::prelude::*;
use crate::bignat::BigNat;

verus! {

/// The Fibonacci sequence under the convention fib(0) == 1, fib(1) == 1.
pub open spec fn fib(n: nat) -> nat
    decreases n,
{
    if n < 2 {
        1
    } else {
        fib((n - 1) as nat) + fib((n - 2) as nat)
    }
}

/// The k-th even-valued Fibonacci term, counting from zero. Even values sit
/// at every third index starting at 2: fib(2), fib(5), fib(8), ...
pub open spec fn even_fib_term(k: nat) -> nat {
    fib(3 * k + 2)
}

/// The sum of the first `limit` even-valued Fibonacci terms.
pub open spec fn sum_even_fib_spec(limit: nat) -> nat
    decreases limit,
{
    if limit == 0 {
        0
    } else {
        sum_even_fib_spec((limit - 1) as nat) + even_fib_term((limit - 1) as nat)
    }
}

/// Expanding the Fibonacci recurrence twice gives the step from one even
/// term (and the term just before it) to the next pair:
/// fib(n+3) == 3*fib(n) + 2*fib(n-1) and fib(n+2) == 2*fib(n) + fib(n-1),
/// here with n == 3k+2.
pub proof fn lemma_even_fib_step(k: nat)
    ensures
        fib(3 * k + 5) == 3 * fib(3 * k + 2) + 2 * fib(3 * k + 1),
        fib(3 * k + 4) == 2 * fib(3 * k + 2) + fib(3 * k + 1),
{
    assert(fib(3 * k + 5) == fib(3 * k + 4) + fib(3 * k + 3));
    assert(fib(3 * k + 4) == fib(3 * k + 3) + fib(3 * k + 2));
    assert(fib(3 * k + 3) == fib(3 * k + 2) + fib(3 * k + 1));
}

/// Each even-valued term is derived from the previous one and its Fibonacci
/// predecessor, without visiting the two odd terms in between.
pub proof fn lemma_even_fib_term_recurrence(k: nat)
    ensures
        even_fib_term(k + 1) == 3 * even_fib_term(k) + 2 * fib(3 * k + 1),
{
    lemma_even_fib_step(k);
    assert(3 * (k + 1) + 2 == 3 * k + 5);
}

/// Every term of the subsequence is in fact even.
pub proof fn lemma_even_fib_term_is_even(k: nat)
    ensures
        even_fib_term(k) % 2 == 0,
    decreases k,
{
    if k == 0 {
        assert(fib(2) == fib(1) + fib(0));
    } else {
        lemma_even_fib_term_is_even((k - 1) as nat);
        lemma_even_fib_term_recurrence((k - 1) as nat);
        let e = even_fib_term((k - 1) as nat);
        let p = fib(3 * ((k - 1) as nat) + 1);
        assert((3 * e + 2 * p) % 2 == 0) by (nonlinear_arith)
            requires
                e % 2 == 0,
        ;
        assert(even_fib_term(k) == 3 * e + 2 * p);
    }
}

/// Summing one more term adds exactly the next even-valued term.
pub proof fn lemma_sum_even_fib_increment(n: nat)
    ensures
        sum_even_fib_spec(n + 1) == sum_even_fib_spec(n) + even_fib_term(n),
{
}

/// The sum of even-valued terms never decreases as the count grows.
pub proof fn lemma_sum_even_fib_monotonic(a: nat, b: nat)
    requires
        a <= b,
    ensures
        sum_even_fib_spec(a) <= sum_even_fib_spec(b),
    decreases b,
{
    if a < b {
        lemma_sum_even_fib_monotonic(a, (b - 1) as nat);
        assert(sum_even_fib_spec(b) == sum_even_fib_spec((b - 1) as nat) + even_fib_term(
            (b - 1) as nat,
        ));
    }
}

/// The sum of the first `limit` even-valued Fibonacci numbers, computed with
/// arbitrary-precision integers so the result is exact for any count.
pub fn sum_even_fib(limit: u32) -> (r: BigNat)
    ensures
        r.val() == sum_even_fib_spec(limit as nat),
{
    let mut prev = BigNat::from_u64(1);  // fib(3*count + 1)
    let mut cur = BigNat::from_u64(2);  // fib(3*count + 2), the next even term
    let mut sum = BigNat::from_u64(0);
    let mut count: u32 = 0;
    proof {
        assert(fib(1) == 1);
        assert(fib(2) == fib(1) + fib(0));
    }
    while count < limit
        invariant
            count <= limit,
            prev.val() == fib(3 * (count as nat) + 1),
            cur.val() == fib(3 * (count as nat) + 2),
            sum.val() == sum_even_fib_spec(count as nat),
        decreases limit - count,
    {
        sum = sum.add(&cur);
        // fib(n+3) == 3*fib(n) + 2*fib(n-1): the next even term
        let cur2 = cur.add(&cur);
        let next = cur2.add(&cur).add(&prev.add(&prev));
        // fib(n+2) == 2*fib(n) + fib(n-1): feeds the following iteration
        prev = cur2.add(&prev);
        cur = next;
        proof {
            lemma_even_fib_step(count as nat);
            assert(sum_even_fib_spec((count + 1) as nat) == sum_even_fib_spec(count as nat)
                + even_fib_term(count as nat));
        }
        count = count + 1;
    }
    sum
}

} // verus!
