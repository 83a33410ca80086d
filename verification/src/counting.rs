//! Counting primes: the n-th prime, that there is one for every n, and lists
//! of the first primes.

use crate::divisibility::{divides, lemma_divides_combo, lemma_multiple_divides};
use crate::primes::{
    factorial, is_prime_nat, least_divisor, lemma_composite_has_small_divisor, lemma_least_divisor,
    lemma_prime_count_monotone, prime_count,
};
use vstd::arithmetic::div_mod::*;
use vstd::arithmetic::mul::*;
use vstd::prelude::*;

verus! {

/// `p` is the `n`-th prime, counting from 1.
pub open spec fn is_nth_prime(p: nat, n: nat) -> bool {
    is_prime_nat(p) && prime_count(p) == n
}

/// The `n`-th prime, counting from 1.
pub open spec fn nth_prime_nat(n: nat) -> nat {
    choose|p: nat| is_nth_prime(p, n)
}

/// The product of the first `n` primes.
pub open spec fn primorial_nat(n: nat) -> nat
    decreases n,
{
    if n == 0 {
        1
    } else {
        primorial_nat((n - 1) as nat) * nth_prime_nat(n)
    }
}

/// The entries of `s` are the first primes, in order.
pub open spec fn first_primes(s: Seq<u64>) -> bool {
    forall|i: int| 0 <= i < s.len() ==> is_nth_prime(#[trigger] s[i] as nat, (i + 1) as nat)
}

/// A prime counts one more than every number below it.
pub proof fn lemma_prime_count_at_prime(a: nat, p: nat)
    requires
        a < p,
        is_prime_nat(p),
    ensures
        prime_count(a) < prime_count(p),
{
    lemma_prime_count_monotone(a, (p - 1) as nat);
}

/// There is at most one `n`-th prime.
pub proof fn lemma_nth_prime_unique(p: nat, q: nat, n: nat)
    requires
        is_nth_prime(p, n),
        is_nth_prime(q, n),
    ensures
        p == q,
{
    if p < q {
        lemma_prime_count_at_prime(p, q);
    } else if q < p {
        lemma_prime_count_at_prime(q, p);
    }
}

/// Every number from 1 to `n` divides `n!`.
proof fn lemma_factorial_divisible(n: nat, d: nat)
    requires
        1 <= d <= n,
    ensures
        factorial(n) % d == 0,
        factorial(n) >= 1,
    decreases n,
{
    let f = factorial((n - 1) as nat);
    if d == n {
        lemma_factorial_positive((n - 1) as nat);
        lemma_multiple_divides(n as int, f as int);
    } else {
        lemma_factorial_divisible((n - 1) as nat, d);
        lemma_divides_combo(d as int, f as int, f as int, n as int, 0);
    }
    lemma_factorial_positive(n);
}

proof fn lemma_factorial_positive(n: nat)
    ensures
        factorial(n) >= 1,
    decreases n,
{
    if n > 0 {
        lemma_factorial_positive((n - 1) as nat);
        lemma_mul_strictly_positive(n as int, factorial((n - 1) as nat) as int);
    }
}

/// Euclid's theorem: above every number there is a prime.
pub proof fn lemma_prime_above(n: nat) -> (p: nat)
    ensures
        p > n,
        is_prime_nat(p),
{
    lemma_factorial_positive(n);
    let m = factorial(n) + 1;
    lemma_least_divisor(m);
    let p = least_divisor(m);
    if p <= n {
        lemma_factorial_divisible(n, p);
        lemma_divides_combo(p as int, m as int, factorial(n) as int, 1, -1);
        lemma_small_mod(1, p);
    }
    p
}

/// Between a number that counts fewer than `n` primes and one that counts
/// at least `n`, the `n`-th prime lies.
proof fn lemma_nth_prime_between(a: nat, b: nat, n: nat) -> (p: nat)
    requires
        a <= b,
        prime_count(a) < n <= prime_count(b),
    ensures
        a < p <= b,
        is_nth_prime(p, n),
    decreases b - a,
{
    if prime_count((b - 1) as nat) >= n {
        lemma_nth_prime_between(a, (b - 1) as nat, n)
    } else {
        b
    }
}

/// For every `n` from 1 on there is an `n`-th prime, and it is the one that
/// `nth_prime_nat` names.
pub proof fn lemma_nth_prime_exists(n: nat)
    requires
        n >= 1,
    ensures
        is_nth_prime(nth_prime_nat(n), n),
        nth_prime_nat(n) >= 2,
    decreases n,
{
    let below: nat = if n == 1 {
        0
    } else {
        lemma_nth_prime_exists((n - 1) as nat);
        nth_prime_nat((n - 1) as nat)
    };
    let q = lemma_prime_above(below);
    lemma_prime_count_at_prime(below, q);
    let p = lemma_nth_prime_between(below, q, n);
    assert(is_nth_prime(p, n));
}

/// The primorials are positive and never decrease.
pub proof fn lemma_primorial_monotone(a: nat, b: nat)
    requires
        a <= b,
    ensures
        1 <= primorial_nat(a) <= primorial_nat(b),
    decreases b,
{
    if b == 0 {
    } else if a == b {
        lemma_primorial_monotone((a - 1) as nat, (b - 1) as nat);
        lemma_nth_prime_exists(b);
        lemma_mul_strictly_positive(primorial_nat((b - 1) as nat) as int, nth_prime_nat(b) as int);
    } else {
        lemma_primorial_monotone(a, (b - 1) as nat);
        lemma_nth_prime_exists(b);
        let x = primorial_nat((b - 1) as nat);
        let y = nth_prime_nat(b);
        assert(x * y >= x) by (nonlinear_arith)
            requires
                y >= 1,
                x >= 0,
        ;
    }
}

/// A list of the first primes ascends strictly.
pub proof fn lemma_first_primes_sorted(s: Seq<u64>, i: int, j: int)
    requires
        first_primes(s),
        0 <= i < j < s.len(),
    ensures
        s[i] < s[j],
{
    if s[i] >= s[j] {
        lemma_prime_count_monotone(s[j] as nat, s[i] as nat);
    }
}

/// A list of the first primes that counts the primes up to `bound` holds
/// every prime up to `bound`.
pub proof fn lemma_first_primes_complete(s: Seq<u64>, bound: nat, q: nat)
    requires
        first_primes(s),
        s.len() == prime_count(bound),
        is_prime_nat(q),
        q <= bound,
    ensures
        1 <= prime_count(q) <= s.len(),
        s[prime_count(q) - 1] == q,
{
    lemma_prime_count_monotone(q, bound);
    lemma_prime_count_at_prime(0, q);
    let j = prime_count(q) - 1;
    lemma_nth_prime_unique(s[j] as nat, q, prime_count(q));
}

/// Whether `c` is a prime, by trial division with the primes below it, of
/// which `found` is the list.
pub fn is_next_prime(found: &Vec<u64>, c: u64) -> (r: bool)
    requires
        c >= 2,
        first_primes(found@),
        found@.len() == prime_count((c - 1) as nat),
    ensures
        r == is_prime_nat(c as nat),
{
    let mut k: usize = 0;
    while k < found.len()
        invariant
            c >= 2,
            0 <= k <= found@.len(),
            first_primes(found@),
            found@.len() == prime_count((c - 1) as nat),
            forall|j: int| 0 <= j < k ==> c % #[trigger] found@[j] != 0,
        ensures
            k < found@.len() ==> found@[k as int] * found@[k as int] > c,
        decreases found@.len() - k,
    {
        let p = found[k];
        assert(is_nth_prime(found@[k as int] as nat, (k + 1) as nat));
        if p > c / p {
            proof {
                lemma_fundamental_div_mod(c as int, p as int);
                assert(p * p > c) by (nonlinear_arith)
                    requires
                        c == p * (c / p) + c % p,
                        c % p < p,
                        p > c / p,
                        p >= 2,
                ;
            }
            break ;
        }
        if c % p == 0 {
            proof {
                lemma_fundamental_div_mod(c as int, p as int);
                assert(p < c) by (nonlinear_arith)
                    requires
                        c == p * (c / p),
                        p <= c / p,
                        p >= 2,
                ;
                assert(divides(p as nat, c as nat));
            }
            return false;
        }
        k = k + 1;
    }
    proof {
        if !is_prime_nat(c as nat) {
            lemma_composite_has_small_divisor(c as nat);
            lemma_least_divisor(c as nat);
            let l = least_divisor(c as nat);
            lemma_first_primes_complete(found@, (c - 1) as nat, l);
            let j = prime_count(l) - 1;
            assert(c % found@[j] == 0);
            if j > k {
                lemma_first_primes_sorted(found@, k as int, j);
            }
            if j >= k {
                let f = found@[k as int] as int;
                assert(l * l >= f * f) by (nonlinear_arith)
                    requires
                        l >= f,
                        f >= 0,
                ;
            }
        }
    }
    true
}

/// Adding the next prime to a list of the first primes.
pub proof fn lemma_first_primes_push(s: Seq<u64>, c: u64)
    requires
        c >= 1,
        first_primes(s),
        s.len() == prime_count((c - 1) as nat),
    ensures
        is_prime_nat(c as nat) ==> first_primes(s.push(c)) && s.push(c).len() == prime_count(
            c as nat,
        ),
        !is_prime_nat(c as nat) ==> s.len() == prime_count(c as nat),
{
    if is_prime_nat(c as nat) {
        let t = s.push(c);
        assert forall|i: int| 0 <= i < t.len() implies is_nth_prime(
            #[trigger] t[i] as nat,
            (i + 1) as nat,
        ) by {
            if i < s.len() {
                assert(t[i] == s[i]);
            }
        }
    }
}

} // verus!
