//! Factor maps: from a prime to its multiplicity, and the number that such a
//! map stands for.

use crate::divisibility::{
    divides, lemma_coprime_divides_product, lemma_divides_combo, lemma_divides_trans,
    lemma_divides_witness, lemma_divisor_le, lemma_gcd_symmetric, lemma_multiple_divides,
};
use crate::primality::{lemma_miller_rabin_complete, miller_rabin_prime, miller_rabin_sound};
use crate::primes::{
    is_prime_nat, least_divisor, lemma_euclid, lemma_least_divisor, lemma_prime_coprime,
    prime_count,
};
use crate::tables::{
    lemma_small_prime_count, lemma_small_primes_complete, lemma_small_primes_head,
    lemma_small_primes_sorted, small_prime_at, small_primes_split,
};
use vstd::arithmetic::div_mod::*;
use vstd::arithmetic::mul::*;
use vstd::arithmetic::power::*;
use vstd::arithmetic::power2::*;
use vstd::prelude::*;

verus! {

/// What the key `k` contributes to the product: `k ^ m[k]`, or 1 if `k` is
/// no key of `m`.
pub open spec fn key_factor(m: Map<u64, usize>, k: u64) -> nat {
    if m.contains_key(k) {
        pow(k as int, m[k] as nat) as nat
    } else {
        1
    }
}

/// The product of `k ^ m[k]` over the keys `k` below `bound`.
pub open spec fn factor_product_below(m: Map<u64, usize>, bound: nat) -> nat
    decreases bound,
{
    if bound == 0 {
        1
    } else {
        factor_product_below(m, (bound - 1) as nat) * key_factor(m, (bound - 1) as u64)
    }
}

/// The number that a factor map stands for: the product of `k ^ m[k]` over
/// all its keys.
pub open spec fn factor_product(m: Map<u64, usize>) -> nat {
    factor_product_below(m, 0x1_0000_0000_0000_0000)
}

/// `m` is a factorisation of `n`: every key is a prime by the deterministic
/// Miller-Rabin test, every multiplicity is positive, and the product is `n`.
pub open spec fn is_factorization(m: Map<u64, usize>, n: nat) -> bool {
    &&& forall|p: u64| #[trigger] m.contains_key(p) ==> miller_rabin_prime(p as nat) && m[p] >= 1
    &&& factor_product(m) == n
}

/// The contribution of a key is not negative, and positive for a positive
/// key.
pub proof fn lemma_key_factor_positive(m: Map<u64, usize>, k: u64)
    ensures
        m.contains_key(k) ==> key_factor(m, k) == pow(k as int, m[k] as nat),
        k > 0 ==> key_factor(m, k) >= 1,
{
    if m.contains_key(k) {
        if k > 0 {
            lemma_pow_positive(k as int, m[k] as nat);
        } else if m[k] > 0 {
            lemma0_pow(m[k] as nat);
        } else {
            lemma_pow0(0);
        }
    }
}

proof fn lemma_product_below_unchanged(m: Map<u64, usize>, k: u64, v: usize, bound: nat)
    requires
        bound <= k,
    ensures
        factor_product_below(m.insert(k, v), bound) == factor_product_below(m, bound),
    decreases bound,
{
    if bound > 0 {
        lemma_product_below_unchanged(m, k, v, (bound - 1) as nat);
    }
}

proof fn lemma_product_below_insert(m: Map<u64, usize>, k: u64, v: usize, bound: nat)
    requires
        k < bound <= 0x1_0000_0000_0000_0000,
    ensures
        factor_product_below(m.insert(k, v), bound) * key_factor(m, k) == factor_product_below(
            m,
            bound,
        ) * pow(k as int, v as nat),
    decreases bound,
{
    let m2 = m.insert(k, v);
    let below = (bound - 1) as nat;
    let f = key_factor(m, k) as int;
    let p = pow(k as int, v as nat);
    lemma_key_factor_positive(m2, k);
    if bound == k + 1 {
        lemma_product_below_unchanged(m, k, v, below);
        let a = factor_product_below(m, below) as int;
        assert((a * p) * f == (a * f) * p) by (nonlinear_arith);
    } else {
        lemma_product_below_insert(m, k, v, below);
        let a2 = factor_product_below(m2, below) as int;
        let a = factor_product_below(m, below) as int;
        let g = key_factor(m, below as u64) as int;
        assert(key_factor(m2, below as u64) == g);
        assert((a2 * g) * f == (a * g) * p) by (nonlinear_arith)
            requires
                a2 * f == a * p,
        ;
    }
}

/// The empty map stands for 1.
pub proof fn lemma_product_empty()
    ensures
        factor_product(Map::<u64, usize>::empty()) == 1,
{
    lemma_product_below_empty(0x1_0000_0000_0000_0000);
}

proof fn lemma_product_below_empty(bound: nat)
    ensures
        factor_product_below(Map::<u64, usize>::empty(), bound) == 1,
    decreases bound,
{
    if bound > 0 {
        let none = Map::<u64, usize>::empty();
        let below = (bound - 1) as nat;
        lemma_product_below_empty(below);
        assert(!none.contains_key(below as u64));
        assert(key_factor(none, below as u64) == 1);
        assert(factor_product_below(none, bound) == factor_product_below(none, below) * key_factor(
            none,
            below as u64,
        ));
    }
}

/// A new key `k` with multiplicity `v` multiplies the product by `k ^ v`.
pub proof fn lemma_product_insert_new(m: Map<u64, usize>, k: u64, v: usize)
    requires
        !m.contains_key(k),
    ensures
        factor_product(m.insert(k, v)) == factor_product(m) * pow(k as int, v as nat),
{
    lemma_product_below_insert(m, k, v, 0x1_0000_0000_0000_0000);
    assert(factor_product(m.insert(k, v)) * 1 == factor_product(m.insert(k, v)));
}

/// One more of the key `k` multiplies the product by `k`.
pub proof fn lemma_product_increment(m: Map<u64, usize>, k: u64)
    requires
        m.contains_key(k),
        k > 0,
        m[k] < usize::MAX,
    ensures
        factor_product(m.insert(k, (m[k] + 1) as usize)) == factor_product(m) * k,
{
    let c = m[k] as nat;
    let v = (m[k] + 1) as usize;
    lemma_product_below_insert(m, k, v, 0x1_0000_0000_0000_0000);
    lemma_key_factor_positive(m, k);
    let f = pow(k as int, c);
    lemma_pow_positive(k as int, c);
    lemma_pow_adds(k as int, c, 1);
    lemma_pow1(k as int);
    let a2 = factor_product(m.insert(k, v)) as int;
    let a = factor_product(m) as int;
    assert(f * a2 == f * (a * k)) by (nonlinear_arith)
        requires
            a2 * f == a * (f * k),
    ;
    lemma_mul_equality_converse(f, a2, a * k);
}

proof fn lemma_product_below_bounds(m: Map<u64, usize>, k: u64, bound: nat)
    requires
        !m.contains_key(0),
        bound <= 0x1_0000_0000_0000_0000,
    ensures
        factor_product_below(m, bound) >= 1,
        k < bound ==> factor_product_below(m, bound) >= key_factor(m, k),
    decreases bound,
{
    if bound > 0 {
        let below = (bound - 1) as nat;
        lemma_product_below_bounds(m, k, below);
        lemma_key_factor_positive(m, below as u64);
        let a = factor_product_below(m, below) as int;
        let g = key_factor(m, below as u64) as int;
        if below as u64 == 0 {
        } else {
            assert(a * g >= a && a * g >= g) by (nonlinear_arith)
                requires
                    a >= 1,
                    g >= 1,
            ;
            if k < below {
            }
        }
    }
}

/// With positive keys the product is positive, and at least the
/// contribution of each key.
pub proof fn lemma_product_bounds(m: Map<u64, usize>, k: u64)
    requires
        !m.contains_key(0),
    ensures
        factor_product(m) >= 1,
        factor_product(m) >= key_factor(m, k),
{
    lemma_product_below_bounds(m, k, 0x1_0000_0000_0000_0000);
}

/// A power of a number above one that fits in 64 bits has an exponent below
/// 64.
pub proof fn lemma_exponent_bound(k: nat, e: nat)
    requires
        k >= 2,
        pow(k as int, e) <= u64::MAX,
    ensures
        e < 64,
{
    if e >= 64 {
        lemma_pow_base_increases(k, e);
        lemma_pow2(e);
        lemma2_to64();
        lemma_pow2_adds(32, 32);
        if e > 64 {
            lemma_pow2_strictly_increases(64, e);
        }
    }
}

/// `2 ^ e <= k ^ e` for `k >= 2`.
pub proof fn lemma_pow_base_increases(k: nat, e: nat)
    requires
        k >= 2,
    ensures
        pow(2, e) <= pow(k as int, e),
    decreases e,
{
    reveal(pow);
    if e > 0 {
        lemma_pow_base_increases(k, (e - 1) as nat);
        lemma_pow_positive(2, (e - 1) as nat);
        let a = pow(2, (e - 1) as nat);
        let b = pow(k as int, (e - 1) as nat);
        assert(2 * a <= k * b) by (nonlinear_arith)
            requires
                0 < a <= b,
                k >= 2,
        ;
    }
}

/// The product of the entries of a work stack.
pub open spec fn stack_product(s: Seq<u64>) -> nat
    decreases s.len(),
{
    if s.len() == 0 {
        1
    } else {
        stack_product(s.drop_last()) * (s.last() as nat)
    }
}

/// The work that a stack still holds: the sum of its entries, each less one.
pub open spec fn stack_weight(s: Seq<u64>) -> nat
    decreases s.len(),
{
    if s.len() == 0 {
        0
    } else {
        stack_weight(s.drop_last()) + (s.last() - 1) as nat
    }
}

/// A stack of positive entries has a positive product.
pub proof fn lemma_stack_product_positive(s: Seq<u64>)
    requires
        forall|i: int| 0 <= i < s.len() ==> s[i] >= 1,
    ensures
        stack_product(s) >= 1,
    decreases s.len(),
{
    if s.len() > 0 {
        lemma_stack_product_positive(s.drop_last());
        lemma_mul_strictly_positive(stack_product(s.drop_last()) as int, s.last() as int);
    }
}

/// The factor map of the prime factorisation of `n`, built from the least
/// divisor on.
pub open spec fn prime_map(n: nat) -> Map<u64, usize>
    decreases n,
    via prime_map_decreases
{
    if n < 2 {
        Map::empty()
    } else {
        let p = least_divisor(n) as u64;
        let m = prime_map(n / least_divisor(n));
        if m.contains_key(p) {
            m.insert(p, (m[p] + 1) as usize)
        } else {
            m.insert(p, 1)
        }
    }
}

#[via_fn]
proof fn prime_map_decreases(n: nat) {
    if n >= 2 {
        lemma_least_divisor(n);
        lemma_div_decreases(n as int, least_divisor(n) as int);
    }
}

/// The least divisor and its cofactor.
pub proof fn lemma_cofactor(n: nat)
    requires
        2 <= n <= u64::MAX,
    ensures
        2 <= least_divisor(n) <= n,
        is_prime_nat(least_divisor(n)),
        n == least_divisor(n) * (n / least_divisor(n)),
        1 <= n / least_divisor(n) < n,
{
    lemma_least_divisor(n);
    let p = least_divisor(n);
    lemma_divides_witness(p as int, n as int);
    lemma_div_decreases(n as int, p as int);
    if n / p == 0 {
        assert(p * 0 == 0);
    }
}

/// The prime map is a factorisation into primes that divide `n`.
pub proof fn lemma_prime_map(n: nat)
    requires
        1 <= n <= u64::MAX,
    ensures
        prime_map(n).dom().finite(),
        is_factorization(prime_map(n), n),
        forall|q: u64| #[trigger]
            prime_map(n).contains_key(q) ==> is_prime_nat(q as nat) && divides(q as nat, n)
                && 1 <= prime_map(n)[q] < 64,
    decreases n,
{
    if n < 2 {
        lemma_product_empty();
    } else {
        lemma_cofactor(n);
        let pn = least_divisor(n);
        let p = pn as u64;
        let k = n / pn;
        lemma_prime_map(k);
        let m = prime_map(k);
        let m2 = prime_map(n);
        lemma_miller_rabin_complete(pn);
        lemma_multiple_divides(pn as int, k as int);
        if m.contains_key(p) {
            lemma_product_increment(m, p);
            lemma_mul_is_commutative(k as int, pn as int);
            assert(factor_product(m2) == n);
            lemma_product_bounds(m2, p);
            lemma_key_factor_positive(m2, p);
            assert(pow(pn as int, m2[p] as nat) <= n);
            lemma_exponent_bound(pn, m2[p] as nat);
        } else {
            lemma_product_insert_new(m, p, 1);
            lemma_pow1(p as int);
        }
        lemma_mul_is_commutative(k as int, pn as int);
        assert forall|q: u64| #[trigger] m2.contains_key(q) implies is_prime_nat(q as nat)
            && divides(q as nat, n) && 1 <= m2[q] < 64 by {
            if q != p {
                lemma_multiple_divides(k as int, pn as int);
                lemma_divides_trans(q as int, k as int, n as int);
            }
        }
    }
}

/// Every prime divisor of `n` is a key of the prime map.
pub proof fn lemma_prime_map_contains(n: nat, q: nat)
    requires
        1 <= n <= u64::MAX,
        is_prime_nat(q),
        divides(q, n),
    ensures
        prime_map(n).contains_key(q as u64),
    decreases n,
{
    lemma_divisor_le(q as int, n as int);
    if n < 2 {
    } else {
        lemma_cofactor(n);
        let p = least_divisor(n);
        let k = n / p;
        if q != p {
            // q divides p * k and not p
            if p % q == 0 {
                lemma_divisor_le(q as int, p as int);
                assert(divides(q, p));
            }
            lemma_euclid(q, p, k);
            assert(divides(q, k));
            lemma_prime_map_contains(k, q);
        }
    }
}

/// The square of a prime that divides `n` shows in the prime map.
pub proof fn lemma_prime_map_square(n: nat, q: nat)
    requires
        1 <= n <= u64::MAX,
        is_prime_nat(q),
        n % (q * q) == 0,
    ensures
        q <= n,
        prime_map(n).contains_key(q as u64),
        prime_map(n)[q as u64] >= 2,
    decreases n,
{
    assert(q * q >= 4) by (nonlinear_arith)
        requires
            q >= 2,
    ;
    lemma_divisor_le((q * q) as int, n as int);
    lemma_cofactor(n);
    let p = least_divisor(n);
    let k = n / p;
    lemma_prime_map(k);
    lemma_divides_witness((q * q) as int, n as int);
    let c = (n / (q * q)) as int;
    if q == p {
        // k == q * c
        assert(p * k == p * (q * c)) by (nonlinear_arith)
            requires
                n == p * k,
                n as int == (q * q) * c,
                q == p,
        ;
        lemma_mul_equality_converse(p as int, k as int, q * c);
        lemma_multiple_divides(q as int, c);
        lemma_prime_map_contains(k, q);
    } else {
        // q * q divides p * k and is coprime to p
        if (q * q) % p == 0 {
            lemma_euclid(p, q, q);
            lemma_divisor_le(p as int, q as int);
            assert(divides(p, q));
        }
        lemma_prime_coprime(p, q * q);
        lemma_gcd_symmetric(q * q, p);
        lemma_coprime_divides_product(q * q, p, k);
        lemma_prime_map_square(k, q);
    }
}

proof fn lemma_key_divides_product_below(m: Map<u64, usize>, q: u64, bound: nat)
    requires
        m.contains_key(q),
        m[q] >= 1,
        q > 0,
        q < bound <= 0x1_0000_0000_0000_0000,
    ensures
        factor_product_below(m, bound) % (q as nat) == 0,
    decreases bound,
{
    let below = (bound - 1) as nat;
    let a = factor_product_below(m, below) as int;
    let g = key_factor(m, below as u64) as int;
    if below == q {
        let e = (m[q] - 1) as nat;
        lemma_pow_adds(q as int, 1, e);
        lemma_pow1(q as int);
        lemma_key_factor_positive(m, q);
        assert(a * g == q * (a * pow(q as int, e))) by (nonlinear_arith)
            requires
                g == q * pow(q as int, e),
        ;
        lemma_multiple_divides(q as int, a * pow(q as int, e));
    } else {
        lemma_key_divides_product_below(m, q, below);
        lemma_divides_combo(q as int, a, a, g, 0);
        lemma_mul_is_commutative(a, g);
    }
}

/// A key with a positive multiplicity divides the product.
pub proof fn lemma_key_divides_product(m: Map<u64, usize>, q: u64)
    requires
        m.contains_key(q),
        m[q] >= 1,
        q > 0,
    ensures
        factor_product(m) % (q as nat) == 0,
{
    lemma_key_divides_product_below(m, q, 0x1_0000_0000_0000_0000);
}

/// The contribution of each key divides the product of the keys below
/// `bound`, if the key lies below `bound`.
pub proof fn lemma_key_factor_divides_below(m: Map<u64, usize>, q: u64, bound: nat)
    requires
        !m.contains_key(0),
        q < bound <= 0x1_0000_0000_0000_0000,
    ensures
        key_factor(m, q) > 0,
        factor_product_below(m, bound) % key_factor(m, q) == 0,
    decreases bound,
{
    let below = (bound - 1) as nat;
    let a = factor_product_below(m, below) as int;
    let g = key_factor(m, below as u64) as int;
    let f = key_factor(m, q) as int;
    lemma_key_factor_positive(m, q);
    if below == q {
        lemma_multiple_divides(f, a);
    } else {
        lemma_key_factor_divides_below(m, q, below);
        lemma_divides_combo(f, a, a, g, 0);
        lemma_mul_is_commutative(a, g);
    }
}

/// A prime that divides a power of a prime is that prime.
proof fn lemma_prime_divides_power(q: nat, k: nat, e: nat)
    requires
        is_prime_nat(q),
        is_prime_nat(k),
        pow(k as int, e) % (q as int) == 0,
    ensures
        q == k,
        e >= 1,
    decreases e,
{
    reveal(pow);
    if e == 0 {
        lemma_small_mod(1, q);
    } else {
        lemma_pow_positive(k as int, (e - 1) as nat);
        lemma_euclid(q, k, pow(k as int, (e - 1) as nat) as nat);
        if k % q == 0 {
            lemma_divisor_le(q as int, k as int);
            assert(divides(q, k));
        } else {
            lemma_prime_divides_power(q, k, (e - 1) as nat);
        }
    }
}

proof fn lemma_prime_divides_product_below(m: Map<u64, usize>, q: nat, bound: nat)
    requires
        forall|k: u64| #[trigger] m.contains_key(k) ==> is_prime_nat(k as nat),
        is_prime_nat(q),
        bound <= 0x1_0000_0000_0000_0000,
        factor_product_below(m, bound) % q == 0,
    ensures
        q < bound,
        m.contains_key(q as u64),
        m[q as u64] >= 1,
    decreases bound,
{
    if bound == 0 {
        lemma_small_mod(1, q);
    } else {
        let below = (bound - 1) as nat;
        let k = below as u64;
        lemma_mul_is_commutative(
            factor_product_below(m, below) as int,
            key_factor(m, k) as int,
        );
        lemma_euclid(q, key_factor(m, k), factor_product_below(m, below));
        if key_factor(m, k) % q == 0 {
            if m.contains_key(k) {
                lemma_key_factor_positive(m, k);
                lemma_prime_divides_power(q, k as nat, m[k] as nat);
            } else {
                lemma_small_mod(1, q);
            }
        } else {
            lemma_prime_divides_product_below(m, q, below);
        }
    }
}

/// A prime that divides the product of a factor map of primes is one of its
/// keys.
pub proof fn lemma_prime_divides_product(m: Map<u64, usize>, q: nat)
    requires
        forall|k: u64| #[trigger] m.contains_key(k) ==> is_prime_nat(k as nat),
        is_prime_nat(q),
        factor_product(m) % q == 0,
    ensures
        q <= u64::MAX,
        m.contains_key(q as u64),
        m[q as u64] >= 1,
{
    lemma_prime_divides_product_below(m, q, 0x1_0000_0000_0000_0000);
}

/// The fundamental theorem of arithmetic: a factorisation into primes is
/// the prime map.
pub proof fn lemma_factorization_unique(m: Map<u64, usize>, n: nat)
    requires
        1 <= n <= u64::MAX,
        forall|k: u64| #[trigger] m.contains_key(k) ==> is_prime_nat(k as nat) && m[k] >= 1,
        factor_product(m) == n,
    ensures
        m == prime_map(n),
    decreases n,
{
    if n < 2 {
        assert forall|k: u64| !m.contains_key(k) by {
            if m.contains_key(k) {
                lemma_product_bounds(m, k);
                lemma_key_factor_positive(m, k);
                lemma_pow_adds(k as int, 1, (m[k] - 1) as nat);
                lemma_pow1(k as int);
                lemma_pow_positive(k as int, (m[k] - 1) as nat);
                let rest = pow(k as int, (m[k] - 1) as nat);
                assert(k * rest >= 2) by (nonlinear_arith)
                    requires
                        k >= 2,
                        rest >= 1,
                ;
            }
        }
        assert(m =~= Map::<u64, usize>::empty());
    } else {
        lemma_cofactor(n);
        let pn = least_divisor(n);
        let p = pn as u64;
        let k = n / pn;
        lemma_multiple_divides(pn as int, k as int);
        lemma_prime_divides_product(m, pn);
        let e = m[p];
        let rest = if e == 1 {
            m.remove(p)
        } else {
            m.insert(p, (e - 1) as usize)
        };
        if e == 1 {
            lemma_product_insert_new(rest, p, 1);
            lemma_pow1(p as int);
            assert(rest.insert(p, 1) =~= m);
        } else {
            lemma_product_increment(rest, p);
            assert(rest.insert(p, e) =~= m);
        }
        lemma_mul_is_commutative(pn as int, factor_product(rest) as int);
        assert(pn * factor_product(rest) == pn * k);
        lemma_mul_equality_converse(pn as int, factor_product(rest) as int, k as int);
        lemma_factorization_unique(rest, k);
        assert(prime_map(n) =~= m);
    }
}

/// Where the Miller-Rabin test accepts no composite number up to `n`, a
/// factorisation of `n` is the prime map.
pub proof fn lemma_factorization_exact(m: Map<u64, usize>, n: nat)
    requires
        1 <= n <= u64::MAX,
        is_factorization(m, n),
        miller_rabin_sound(n),
    ensures
        m == prime_map(n),
{
    assert forall|k: u64| #[trigger] m.contains_key(k) implies is_prime_nat(k as nat) && m[k]
        >= 1 by {
        assert(!miller_rabin_prime(0));
        lemma_key_divides_product(m, k);
        lemma_divisor_le(k as int, n as int);
    }
    lemma_factorization_unique(m, n);
}

/// The number of keys of `m` below `bound`.
pub open spec fn keys_below(m: Map<u64, usize>, bound: nat) -> nat
    decreases bound,
{
    if bound == 0 {
        0
    } else if m.contains_key((bound - 1) as u64) {
        keys_below(m, (bound - 1) as nat) + 1
    } else {
        keys_below(m, (bound - 1) as nat)
    }
}

/// The product of the first `c` entries of the table of small primes.
pub open spec fn small_primorial(c: nat) -> nat
    decreases c,
{
    if c == 0 {
        1
    } else {
        small_primorial((c - 1) as nat) * (small_prime_at(c - 1) as nat)
    }
}

/// One more entry of the table in the product.
proof fn lemma_small_primorial_step(c: nat, low: nat, q: nat)
    requires
        c >= 1,
        small_primorial((c - 1) as nat) == low,
        small_prime_at(c - 1) == q,
    ensures
        small_primorial(c) == low * q,
{
}

/// The product of the first sixteen primes does not fit in 64 bits.
proof fn lemma_small_primorial_overflows()
    ensures
        small_primorial(16) > u64::MAX,
{
    lemma_small_primes_head();
    assert(small_primorial(0) == 1);
    lemma_small_primorial_step(1, 1, 2);
    lemma_small_primorial_step(2, 2, 3);
    lemma_small_primorial_step(3, 6, 5);
    lemma_small_primorial_step(4, 30, 7);
    lemma_small_primorial_step(5, 210, 11);
    lemma_small_primorial_step(6, 2310, 13);
    lemma_small_primorial_step(7, 30030, 17);
    lemma_small_primorial_step(8, 510510, 19);
    lemma_small_primorial_step(9, 9699690, 23);
    lemma_small_primorial_step(10, 223092870, 29);
    lemma_small_primorial_step(11, 6469693230, 31);
    lemma_small_primorial_step(12, 200560490130, 37);
    lemma_small_primorial_step(13, 7420738134810, 41);
    lemma_small_primorial_step(14, 304250263527210, 43);
    lemma_small_primorial_step(15, 13082761331670030, 47);
    lemma_small_primorial_step(16, 614889782588491410, 53);
}

/// The keys of `m` below `bound`, as a set.
pub open spec fn key_set_below(m: Map<u64, usize>, bound: nat) -> Set<u64> {
    Set::new(|k: u64| m.contains_key(k) && (k as nat) < bound)
}

/// The keys below a bound are finitely many, and `keys_below` counts them.
proof fn lemma_keys_below_counts(m: Map<u64, usize>, bound: nat)
    requires
        bound <= 0x1_0000_0000_0000_0000,
    ensures
        key_set_below(m, bound).finite(),
        key_set_below(m, bound).len() == keys_below(m, bound),
    decreases bound,
{
    if bound == 0 {
        assert(key_set_below(m, bound) =~= Set::<u64>::empty());
    } else {
        let below = (bound - 1) as nat;
        let k = below as u64;
        lemma_keys_below_counts(m, below);
        let s = key_set_below(m, below);
        assert(!s.contains(k));
        if m.contains_key(k) {
            assert(key_set_below(m, bound) =~= s.insert(k));
        } else {
            assert(key_set_below(m, bound) =~= s);
        }
    }
}

/// Below 256 there are no more keys than primes.
proof fn lemma_keys_below_primes(m: Map<u64, usize>, bound: nat)
    requires
        forall|p: u64| #[trigger] m.contains_key(p) ==> miller_rabin_prime(p as nat),
        1 <= bound <= 256,
    ensures
        keys_below(m, bound) <= prime_count((bound - 1) as nat),
    decreases bound,
{
    let k = (bound - 1) as u64;
    if bound == 1 {
        assert(keys_below(m, 0) == 0);
        assert(!miller_rabin_prime(0));
    } else {
        lemma_keys_below_primes(m, (bound - 1) as nat);
        if m.contains_key(k) {
            assert(miller_rabin_prime(k as nat));
            if k == 2 {
                lemma_small_primes_head();
                crate::tables::lemma_small_primes_are_prime();
                assert(is_prime_nat(small_prime_at(0) as nat));
            }
            assert(is_prime_nat(k as nat));
        }
    }
}

/// A key with `c` keys below it, `c` under sixteen, is no less than the
/// entry `c` of the table of small primes.
proof fn lemma_key_above_entry(m: Map<u64, usize>, k: u64, c: nat)
    requires
        forall|p: u64| #[trigger] m.contains_key(p) ==> miller_rabin_prime(p as nat),
        m.contains_key(k),
        c == keys_below(m, k as nat),
        c < 16,
    ensures
        k >= small_prime_at(c as int) >= 2,
{
    lemma_small_primes_sorted();
    lemma_small_primes_head();
    assert(small_prime_at(c as int) <= small_prime_at(15));
    assert(small_prime_at(0) <= small_prime_at(c as int));
    assert(miller_rabin_prime(k as nat));
    if k < 256 {
        if k == 2 {
            crate::tables::lemma_small_primes_are_prime();
            assert(is_prime_nat(small_prime_at(0) as nat));
        }
        assert(is_prime_nat(k as nat));
        lemma_keys_below_primes(m, k as nat);
        lemma_small_primes_complete(k as nat);
        let j = choose|j: int| 0 <= j < 54 && small_prime_at(j) == k as int;
        assert(small_primes_split(k as int, j)) by {
            assert forall|i: int| 0 <= i < j implies (#[trigger] small_prime_at(i)) < k by {
                assert(small_prime_at(i) < small_prime_at(j));
            }
            assert forall|i: int| j <= i < 54 implies (#[trigger] small_prime_at(i)) >= k by {
                if j < i {
                    assert(small_prime_at(j) < small_prime_at(i));
                }
            }
        }
        lemma_small_prime_count((k - 1) as nat, j as nat);
        assert(c <= j);
        if c < j {
            assert(small_prime_at(c as int) < small_prime_at(j));
        }
    }
}

/// The product over the keys below a bound is no less than the product of
/// as many of the smallest primes, up to sixteen of them.
proof fn lemma_product_below_primorial(m: Map<u64, usize>, bound: nat)
    requires
        forall|p: u64| #[trigger] m.contains_key(p) ==> miller_rabin_prime(p as nat) && m[p] >= 1,
        bound <= 0x1_0000_0000_0000_0000,
    ensures
        keys_below(m, bound) <= 16 ==> factor_product_below(m, bound) >= small_primorial(
            keys_below(m, bound),
        ),
        keys_below(m, bound) > 16 ==> factor_product_below(m, bound) >= small_primorial(16),
        small_primorial(if keys_below(m, bound) <= 16 {
            keys_below(m, bound)
        } else {
            16
        }) >= 1,
    decreases bound,
{
    if bound > 0 {
        let below = (bound - 1) as nat;
        let k = below as u64;
        lemma_product_below_primorial(m, below);
        let c = keys_below(m, below);
        let f = factor_product_below(m, below);
        assert(factor_product_below(m, bound) == f * key_factor(m, k));
        if m.contains_key(k) {
            assert(miller_rabin_prime(k as nat));
            let e = m[k] as nat;
            let g = pow(k as int, e);
            assert(g >= k) by {
                lemma_pow1(k as int);
                lemma_pow_increases(k as nat, 1, e);
            }
            assert(key_factor(m, k) == g);
            if c < 16 {
                lemma_key_above_entry(m, k, c);
                let q = small_prime_at(c as int);
                let low = small_primorial(c);
                assert(small_primorial(c + 1) == low * (q as nat));
                assert(f * g >= low * q >= 1) by (nonlinear_arith)
                    requires
                        f >= low >= 1,
                        g >= k >= q >= 2,
                ;
            } else {
                let low = small_primorial(16);
                assert(f * g >= low) by (nonlinear_arith)
                    requires
                        f >= low >= 1,
                        g >= 1,
                ;
            }
        } else {
            assert(f * 1 == f);
        }
    }
}

/// A factorisation of a 64-bit number has at most fifteen keys.
pub proof fn lemma_factorization_keys(m: Map<u64, usize>, n: nat)
    requires
        is_factorization(m, n),
        n <= u64::MAX,
    ensures
        m.dom().finite(),
        m.dom().len() <= 15,
{
    let bound: nat = 0x1_0000_0000_0000_0000;
    lemma_keys_below_counts(m, bound);
    assert(key_set_below(m, bound) =~= m.dom());
    lemma_product_below_primorial(m, bound);
    lemma_small_primorial_overflows();
    let c = keys_below(m, bound);
    if c == 16 {
        assert(factor_product(m) >= small_primorial(16));
    }
}

} // verus!
