//! Prime numbers: the definition, least divisors, Euclid's lemma and
//! Fermat's little theorem.

use crate::divisibility::{
    divides, gcd, lemma_coprime_divides_product, lemma_divides_trans, lemma_divides_witness,
    lemma_divisor_le, lemma_gcd_divides, lemma_multiple_divides,
};
use vstd::arithmetic::div_mod::*;
use vstd::arithmetic::mul::*;
use vstd::arithmetic::power::*;
use vstd::prelude::*;

verus! {

/// `n` is a prime number: at least two, with no divisor strictly between one
/// and itself.
pub open spec fn is_prime_nat(n: nat) -> bool {
    n >= 2 && forall|d: nat| 1 < d < n ==> !#[trigger] divides(d, n)
}

/// The least divisor of `n` that is at least `k` (or `n` itself).
pub open spec fn least_divisor_from(n: nat, k: nat) -> nat
    decreases n - k,
{
    if k >= n {
        n
    } else if divides(k, n) {
        k
    } else {
        least_divisor_from(n, k + 1)
    }
}

/// The least divisor of `n` greater than one.
pub open spec fn least_divisor(n: nat) -> nat {
    least_divisor_from(n, 2)
}

proof fn lemma_least_divisor_from(n: nat, k: nat)
    requires
        2 <= k <= n,
        forall|d: nat| 1 < d < k ==> !#[trigger] divides(d, n),
    ensures
        k <= least_divisor_from(n, k) <= n,
        divides(least_divisor_from(n, k), n),
        forall|d: nat| 1 < d < least_divisor_from(n, k) ==> !#[trigger] divides(d, n),
    decreases n - k,
{
    if k >= n {
        lemma_mod_self_0(n as int);
    } else if divides(k, n) {
    } else {
        lemma_least_divisor_from(n, k + 1);
    }
}

/// The least divisor above one is a prime divisor, no other divisor lies
/// below it, and unless it is `n` itself its square is at most `n`.
pub proof fn lemma_least_divisor(n: nat)
    requires
        n >= 2,
    ensures
        2 <= least_divisor(n) <= n,
        divides(least_divisor(n), n),
        is_prime_nat(least_divisor(n)),
        forall|d: nat| 1 < d < least_divisor(n) ==> !#[trigger] divides(d, n),
        least_divisor(n) < n ==> least_divisor(n) * least_divisor(n) <= n,
        is_prime_nat(n) <==> least_divisor(n) == n,
{
    lemma_least_divisor_from(n, 2);
    let l = least_divisor(n);
    assert forall|d: nat| 1 < d < l implies !#[trigger] divides(d, l) by {
        if divides(d, l) {
            lemma_divides_trans(d as int, l as int, n as int);
            assert(divides(d, n));
        }
    }
    if l < n {
        let q = n / l;
        lemma_divides_witness(l as int, n as int);
        assert(q >= 2 && q * l == n) by (nonlinear_arith)
            requires
                n == l * q,
                2 <= l < n,
        ;
        lemma_multiple_divides(q as int, l as int);
        assert(divides(q, n));
        assert(q >= l);
        assert(l * l <= n) by (nonlinear_arith)
            requires
                n == l * q,
                q >= l,
        ;
        assert(divides(l, n));
    }
}

/// A number that the prime `p` does not divide is coprime to `p`.
pub proof fn lemma_prime_coprime(p: nat, a: nat)
    requires
        is_prime_nat(p),
        a % p != 0,
    ensures
        gcd(a, p) == 1,
{
    lemma_gcd_divides(a, p);
    let g = gcd(a, p);
    lemma_divisor_le(g as int, p as int);
    if g == p {
    } else if g > 1 {
        assert(divides(g, p));
    }
}

/// Euclid's lemma: a prime that divides a product divides a factor.
pub proof fn lemma_euclid(p: nat, a: nat, b: nat)
    requires
        is_prime_nat(p),
        (a * b) % p == 0,
    ensures
        a % p == 0 || b % p == 0,
{
    if a % p != 0 {
        lemma_prime_coprime(p, a);
        lemma_coprime_divides_product(p, a, b);
    }
}

/// Modulo a prime the only square roots of one are one and minus one.
pub proof fn lemma_sqrt_of_one(p: nat, x: nat)
    requires
        is_prime_nat(p),
        x < p,
        (x * x) % p == 1,
    ensures
        x == 1 || x == p - 1,
{
    if x == 0 {
        assert(x * x == 0) by (nonlinear_arith)
            requires
                x == 0,
        ;
        lemma_small_mod(0, p);
    } else {
        let lo = (x - 1) as nat;
        let hi = x + 1;
        assert(lo * hi == x * x - 1) by (nonlinear_arith)
            requires
                lo == x - 1,
                hi == x + 1,
        ;
        lemma_small_mod(1, p);
        lemma_mod_equivalence((x * x) as int, 1, p as int);
        lemma_euclid(p, lo, hi);
        if lo % p == 0 {
            lemma_small_mod(lo, p);
        } else {
            if hi < p {
                lemma_small_mod(hi, p);
            }
        }
    }
}

/// No prime below 17 divides `n`, unless it is `n` itself.
pub open spec fn no_small_factor(n: int) -> bool {
    &&& n >= 2
    &&& (n % 2 != 0 || n == 2)
    &&& (n % 3 != 0 || n == 3)
    &&& (n % 5 != 0 || n == 5)
    &&& (n % 7 != 0 || n == 7)
    &&& (n % 11 != 0 || n == 11)
    &&& (n % 13 != 0 || n == 13)
}

/// Below `17 * 17` a number is prime exactly when no prime below 17 divides
/// it properly.
pub proof fn lemma_prime_below_289(n: nat)
    requires
        n < 289,
    ensures
        is_prime_nat(n) <==> no_small_factor(n as int),
{
    if n >= 2 {
        if is_prime_nat(n) {
            assert(!divides(2, n) || n <= 2);
            assert(!divides(3, n) || n <= 3);
            assert(!divides(5, n) || n <= 5);
            assert(!divides(7, n) || n <= 7);
            assert(!divides(11, n) || n <= 11);
            assert(!divides(13, n) || n <= 13);
        } else {
            lemma_least_divisor(n);
            let l = least_divisor(n);
            assert(l < 17) by (nonlinear_arith)
                requires
                    l * l <= n,
                    n < 289,
            ;
            assert(!divides(2, l) || l <= 2);
            assert(!divides(3, l) || l <= 3);
            assert(!divides(5, l) || l <= 5);
            assert(!divides(7, l) || l <= 7);
            assert(divides(l, n));
        }
    }
}

/// The number of primes up to and including `n`.
pub open spec fn prime_count(n: nat) -> nat
    decreases n,
{
    if n == 0 {
        0
    } else if is_prime_nat(n) {
        prime_count((n - 1) as nat) + 1
    } else {
        prime_count((n - 1) as nat)
    }
}

/// The prime count never decreases.
pub proof fn lemma_prime_count_monotone(a: nat, b: nat)
    requires
        a <= b,
    ensures
        prime_count(a) <= prime_count(b),
    decreases b,
{
    if a < b {
        lemma_prime_count_monotone(a, (b - 1) as nat);
    }
}

/// A composite number has a divisor above one whose square does not exceed
/// it.
pub proof fn lemma_composite_has_small_divisor(n: nat)
    requires
        n >= 2,
        !is_prime_nat(n),
    ensures
        is_prime_nat(least_divisor(n)),
        divides(least_divisor(n), n),
        least_divisor(n) * least_divisor(n) <= n,
{
    lemma_least_divisor(n);
}

/// The product of the entries of a sequence.
pub open spec fn seq_product(s: Seq<int>) -> int
    decreases s.len(),
{
    if s.len() == 0 {
        1
    } else {
        seq_product(s.drop_last()) * s.last()
    }
}

/// `n!`.
pub open spec fn factorial(n: nat) -> nat
    decreases n,
{
    if n == 0 {
        1
    } else {
        n * factorial((n - 1) as nat)
    }
}

/// The product of a sequence is an entry times the product of the others.
pub proof fn lemma_product_remove(s: Seq<int>, k: int)
    requires
        0 <= k < s.len(),
    ensures
        seq_product(s) == s[k] * seq_product(s.remove(k)),
    decreases s.len(),
{
    let t = s.drop_last();
    if k == s.len() - 1 {
        assert(s.remove(k) =~= t);
        lemma_mul_is_commutative(s[k], seq_product(t));
    } else {
        lemma_product_remove(t, k);
        let r = s.remove(k);
        assert(r.drop_last() =~= t.remove(k));
        assert(r.last() == s.last());
        lemma_mul_is_associative(s[k], seq_product(t.remove(k)), s.last());
    }
}

/// A sequence of `n` or more distinct values from `1..=n` has length `n` and
/// product `n!`.
pub proof fn lemma_permutation_product(s: Seq<int>, n: nat)
    requires
        s.len() >= n,
        forall|i: int| 0 <= i < s.len() ==> 1 <= #[trigger] s[i] <= n,
        forall|i: int, j: int| 0 <= i < j < s.len() ==> s[i] != s[j],
    ensures
        s.len() == n,
        seq_product(s) == factorial(n),
    decreases n,
{
    if n == 0 {
        if s.len() > 0 {
            assert(1 <= s[0]);
        }
    } else if exists|k: int| 0 <= k < s.len() && s[k] == n {
        let k = choose|k: int| 0 <= k < s.len() && s[k] == n;
        let t = s.remove(k);
        assert forall|i: int| 0 <= i < t.len() implies 1 <= #[trigger] t[i] <= n - 1 by {
            if i < k {
                assert(t[i] == s[i]);
            } else {
                assert(t[i] == s[i + 1]);
            }
        }
        assert forall|i: int, j: int| 0 <= i < j < t.len() implies t[i] != t[j] by {
            let si = if i < k { i } else { i + 1 };
            let sj = if j < k { j } else { j + 1 };
            assert(t[i] == s[si] && t[j] == s[sj]);
        }
        lemma_permutation_product(t, (n - 1) as nat);
        lemma_product_remove(s, k);
    } else {
        assert forall|i: int| 0 <= i < s.len() implies 1 <= #[trigger] s[i] <= n - 1 by {}
        lemma_permutation_product(s, (n - 1) as nat);
    }
}

/// The residues of `a, 2a, .., na` modulo `p`.
pub open spec fn multiples_mod(a: int, p: int, n: nat) -> Seq<int> {
    Seq::new(n, |i: int| (a * (i + 1)) % p)
}

/// The product of the residues of `a, 2a, .., na` is `a^n n!` modulo `p`.
pub proof fn lemma_multiples_product(a: int, p: int, n: nat)
    requires
        p > 0,
    ensures
        seq_product(multiples_mod(a, p, n)) % p == (pow(a, n) * factorial(n)) % p,
    decreases n,
{
    reveal(pow);
    if n > 0 {
        let m = (n - 1) as nat;
        let s = multiples_mod(a, p, n);
        assert(s.drop_last() =~= multiples_mod(a, p, m));
        lemma_multiples_product(a, p, m);
        let x = seq_product(multiples_mod(a, p, m));
        let y = pow(a, m) * factorial(m);
        // x * ((a * n) % p) == y * (a * n)  (mod p)
        lemma_mul_mod_noop_general(x, a * n, p);
        lemma_mul_mod_noop_general(y, a * n, p);
        assert(y * (a * n) == pow(a, n) * factorial(n)) by (nonlinear_arith)
            requires
                y == pow(a, m) * factorial(m),
                pow(a, n) == a * pow(a, m),
                factorial(n) == n * factorial(m),
        ;
    }
}

/// A prime does not divide the factorial of a smaller number.
pub proof fn lemma_factorial_coprime(p: nat, n: nat)
    requires
        is_prime_nat(p),
        n < p,
    ensures
        factorial(n) % p != 0,
    decreases n,
{
    if n == 0 {
        lemma_small_mod(1, p);
    } else {
        lemma_factorial_coprime(p, (n - 1) as nat);
        lemma_small_mod(n, p);
        if factorial(n) % p == 0 {
            lemma_euclid(p, n, factorial((n - 1) as nat));
        }
    }
}

/// Fermat's little theorem.
pub proof fn lemma_fermat_little(p: nat, a: nat)
    requires
        is_prime_nat(p),
        a % p != 0,
    ensures
        pow(a as int, (p - 1) as nat) % (p as int) == 1,
{
    let n = (p - 1) as nat;
    let s = multiples_mod(a as int, p as int, n);
    assert forall|i: int| 0 <= i < s.len() implies 1 <= #[trigger] s[i] <= n by {
        lemma_mod_bound(a * (i + 1), p as int);
        if s[i] == 0 {
            lemma_euclid(p, a, (i + 1) as nat);
            lemma_small_mod((i + 1) as nat, p);
        }
    }
    assert forall|i: int, j: int| 0 <= i < j < s.len() implies s[i] != s[j] by {
        if s[i] == s[j] {
            let d = (j - i) as nat;
            assert(a * (j + 1) - a * (i + 1) == a * d) by (nonlinear_arith)
                requires
                    d == j - i,
            ;
            lemma_mod_equivalence(a * (j + 1), a * (i + 1), p as int);
            lemma_euclid(p, a, d);
            lemma_small_mod(d, p);
        }
    }
    lemma_permutation_product(s, n);
    lemma_multiples_product(a as int, p as int, n);
    let f = factorial(n);
    let e = pow(a as int, n);
    // e * f == f (mod p), and f is coprime to p
    if a == 0 {
        lemma_small_mod(0, p);
    }
    lemma_pow_positive(a as int, n);
    let x = (e - 1) as nat;
    assert(e * f - f == f * x) by (nonlinear_arith)
        requires
            x == e - 1,
    ;
    lemma_mod_equivalence(e * f, f as int, p as int);
    lemma_factorial_coprime(p, n);
    lemma_prime_coprime(p, f);
    lemma_coprime_divides_product(p, f, x);
    lemma_mod_equivalence(e, 1, p as int);
    lemma_small_mod(1, p);
}

} // verus!
