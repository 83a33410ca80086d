//! Standalone number theoretic functions.

use crate::counting::{
    first_primes, is_next_prime, is_nth_prime, lemma_first_primes_push, lemma_nth_prime_exists,
    lemma_nth_prime_unique, lemma_primorial_monotone, nth_prime_nat, primorial_nat,
};
use crate::divisibility::{divides, lemma_divides_combo, lemma_multiple_divides};
use crate::factor::{
    integer_sqrt, pollard_rho, rho_search, smallest_factor, squfof, squfof_factor,
};
use crate::factor_map::{
    factor_product, is_factorization, lemma_exponent_bound, lemma_factorization_exact,
    lemma_factorization_keys, lemma_key_factor_positive, lemma_product_bounds,
    lemma_product_empty, lemma_product_increment, lemma_product_insert_new,
    lemma_stack_product_positive, prime_map, stack_product, stack_weight,
};
use crate::modular::lemma_fac2_below_64;
use crate::moebius::{
    has_square, has_square_divisor, lemma_moebius_double, lemma_moebius_nat_even,
    lemma_moebius_nat_zero, lemma_moebius_square, lemma_moebius_zero, moebius_nat, moebius_odd,
    moebius_of,
};
use crate::primality::{
    is_prime64, is_sprp, is_sprp_to_all, lemma_miller_rabin_complete, lemma_prime_is_sprp,
    miller_rabin_prime, miller_rabin_sound, sprp,
};
use crate::primes::{
    is_prime_nat, least_divisor, lemma_composite_has_small_divisor, lemma_prime_count_monotone,
    prime_count,
};
use crate::tables::{
    is_inverse_pair, lemma_small_prime_count, lemma_small_primes_are_prime,
    lemma_small_primes_complete, lemma_small_primes_inverse, lemma_small_primes_sorted,
    lemma_small_primes_split, lemma_wheel_next, lemma_wheel_prev, search_small_primes,
    shares_wheel_factor, small_prime, small_prime_at, small_prime_inv, small_prime_invlim,
    small_primes_split, squfof_multiplier, squfof_multiplier_at, wheel_next, wheel_next_at,
    wheel_prev, wheel_prev_at, wheel_skips_down, wheel_skips_up, WHEEL_SIZE,
};
use crate::traits::{FactorizationConfig, ModInt, Primality, PrimalityBase, PrimalityTestConfig};
use std::collections::BTreeMap;
use vstd::arithmetic::div_mod::*;
use vstd::arithmetic::mul::*;
use vstd::arithmetic::power::*;
use vstd::arithmetic::power2::*;
use vstd::bits::lemma_u64_shr_is_div;
use vstd::prelude::*;
use vstd::std_specs::btree::{group_btree_axioms, increasing_seq, spec_btree_map_iter};
use vstd::std_specs::cmp::OrdSpec;
use vstd::std_specs::iter::IteratorSpec;

verus! {

/// A random 64-bit integer, by `rand::random`. Nothing is known of it.
#[verifier::external_body]
fn random_u64() -> u64 {
    rand::random::<u64>()
}

/// How many times `find_factor` tries Pollard's rho or the square forms
/// before it falls back on trial division.
pub const FACTOR_TRIALS: usize = 128;

/// The seed `k` of a list of seeds, and 0 beyond its end.
pub open spec fn seed_at(seeds: Seq<u64>, k: int) -> u64 {
    if 0 <= k < seeds.len() {
        seeds[k]
    } else {
        0
    }
}

/// What the trial `i` of the search for a divisor of `target` finds. Every
/// fifth trial, as far as the table of multipliers reaches, is one of the
/// square forms factorisation; the others are of Pollard's rho, from the
/// seeds `2i - 2` and `2i - 1` of the list as start and offset, modulo the
/// target.
pub open spec fn trial_factor(target: u64, i: nat, seeds: Seq<u64>) -> Option<u64> {
    if i % 5 == 0 && i / 5 < 16 {
        squfof_factor(target, squfof_multiplier_at((i / 5) as int) as u64)
    } else {
        let start = (seed_at(seeds, 2 * i - 2) % target) as nat;
        let offset = (seed_at(seeds, 2 * i - 1) % target) as nat;
        match rho_search(target as nat, start, start, offset, target as nat) {
            Some(d) => Some(d as u64),
            None => None,
        }
    }
}

/// What the search for a divisor of `target` finds from the trial `i` on:
/// the divisor of the first trial that finds one, and the least divisor
/// where none of the trials does.
pub open spec fn factor_search(target: u64, seeds: Seq<u64>, i: nat) -> u64
    decreases FACTOR_TRIALS - i,
{
    if i >= FACTOR_TRIALS {
        least_divisor(target as nat) as u64
    } else {
        match trial_factor(target, i, seeds) {
            Some(d) => d,
            None => factor_search(target, seeds, i + 1),
        }
    }
}

/// The seed `k` of a list of seeds, and 0 beyond its end.
fn seed(seeds: &Vec<u64>, k: usize) -> (r: u64)
    ensures
        r == seed_at(seeds@, k as int),
{
    if k < seeds.len() {
        seeds[k]
    } else {
        0
    }
}

/// A proper divisor of a number that the deterministic Miller-Rabin test
/// rejects, by trials of Pollard's rho and of the square forms factorisation
/// with the given seeds, and by trial division where they all fail.
pub fn find_factor_seeded(target: u64, seeds: &Vec<u64>) -> (d: u64)
    requires
        target >= 2,
        !miller_rabin_prime(target as nat),
    ensures
        d == factor_search(target, seeds@, 1),
        1 < d < target,
        target % d == 0,
{
    let mut i: usize = 1;
    while i < FACTOR_TRIALS
        invariant
            target >= 2,
            1 <= i <= FACTOR_TRIALS,
            factor_search(target, seeds@, 1) == factor_search(target, seeds@, i as nat),
        decreases FACTOR_TRIALS - i,
    {
        if i % 5 == 0 && i / 5 < 16 {
            if let Some(p) = squfof(target, squfof_multiplier(i / 5) as u64) {
                return p;
            }
        } else {
            let start = seed(seeds, 2 * i - 2) % target;
            let offset = seed(seeds, 2 * i - 1) % target;
            if let Some(p) = pollard_rho(target, start, offset) {
                return p;
            }
        }
        i = i + 1;
    }
    proof {
        if is_prime_nat(target as nat) {
            lemma_miller_rabin_complete(target as nat);
        }
    }
    smallest_factor(target)
}

/// As many random seeds as the trials of `find_factor` take: two for each
/// trial, so that no trial runs out of the list. Of the seeds themselves
/// nothing is known.
fn random_seeds() -> (seeds: Vec<u64>)
    ensures
        seeds@.len() == 2 * FACTOR_TRIALS,
{
    let mut seeds: Vec<u64> = Vec::new();
    let mut k: usize = 0;
    while k < 2 * FACTOR_TRIALS
        invariant
            k <= 2 * FACTOR_TRIALS,
            seeds@.len() == k,
        decreases 2 * FACTOR_TRIALS - k,
    {
        seeds.push(random_u64());
        k = k + 1;
    }
    seeds
}

/// A proper divisor of a number that the deterministic Miller-Rabin test
/// rejects, by `find_factor_seeded` with random seeds.
pub fn find_factor(target: u64) -> (d: u64)
    requires
        target >= 2,
        !miller_rabin_prime(target as nat),
    ensures
        1 < d < target,
        target % d == 0,
{
    let seeds = random_seeds();
    find_factor_seeded(target, &seeds)
}

/// Every key is a prime by the deterministic Miller-Rabin test, with a
/// positive multiplicity.
pub open spec fn prime_keys(m: Map<u64, usize>) -> bool {
    forall|p: u64| #[trigger] m.contains_key(p) ==> miller_rabin_prime(p as nat) && m[p] >= 1
}

/// Pushing a factor onto the work stack.
proof fn lemma_stack_push(s: Seq<u64>, x: u64)
    requires
        x >= 1,
    ensures
        stack_product(s.push(x)) == stack_product(s) * x,
        stack_weight(s.push(x)) == stack_weight(s) + x - 1,
{
    assert(s.push(x).drop_last() =~= s);
}

/// Replacing an entry by two proper factors of it keeps the product and
/// lowers the weight.
proof fn lemma_stack_split(s: Seq<u64>, r: u64, d: u64)
    requires
        1 < d < r,
        r % d == 0,
    ensures
        r / d >= 2,
        stack_product(s.push(d).push((r / d) as u64)) == stack_product(s) * r,
        stack_weight(s.push(d).push((r / d) as u64)) < stack_weight(s) + r - 1,
{
    let e = (r / d) as u64;
    lemma_fundamental_div_mod(r as int, d as int);
    assert(e >= 2 && d + e < d * e + 1) by (nonlinear_arith)
        requires
            r == d * e,
            1 < d < r,
    ;
    lemma_stack_push(s, d);
    lemma_stack_push(s.push(d), e);
    lemma_mul_is_associative(stack_product(s) as int, d as int, e as int);
}

/// Records one more prime factor `r` in the factor map.
fn record_prime(result: &mut BTreeMap<u64, usize>, r: u64)
    requires
        prime_keys(old(result)@),
        miller_rabin_prime(r as nat),
        factor_product(old(result)@) * r <= u64::MAX,
    ensures
        prime_keys(final(result)@),
        factor_product(final(result)@) == factor_product(old(result)@) * r,
{
    broadcast use group_btree_axioms;

    let ghost m = result@;
    proof {
        lemma_product_bounds(m, r);
        lemma_key_factor_positive(m, r);
    }
    let count: usize = match result.get(&r) {
        Some(c) => *c,
        None => 0,
    };
    proof {
        if m.contains_key(r) {
            let f = pow(r as int, count as nat);
            assert(f <= factor_product(m) * r) by (nonlinear_arith)
                requires
                    f <= factor_product(m),
                    r >= 1,
                    f >= 0,
            ;
            lemma_exponent_bound(r as nat, count as nat);
            lemma_product_increment(m, r);
        } else {
            lemma_product_insert_new(m, r, 1);
            lemma_pow1(r as int);
        }
    }
    result.insert(r, count + 1);
}

/// Splits `residual` into primes by the deterministic Miller-Rabin test and
/// records them in the factor map.
fn factor_residual(result: &mut BTreeMap<u64, usize>, residual: u64, seeds: &Vec<u64>)
    requires
        prime_keys(old(result)@),
        residual >= 2,
        factor_product(old(result)@) * residual <= u64::MAX,
    ensures
        prime_keys(final(result)@),
        factor_product(final(result)@) == factor_product(old(result)@) * residual,
{
    let ghost total = factor_product(result@) * residual;
    let mut stack: Vec<u64> = Vec::new();
    stack.push(residual);
    proof {
        lemma_stack_push(Seq::<u64>::empty(), residual);
        assert(stack@ =~= Seq::<u64>::empty().push(residual));
        assert(factor_product(result@) * (1 * residual) == total);
    }
    while stack.len() > 0
        invariant
            prime_keys(result@),
            total <= u64::MAX,
            factor_product(result@) * stack_product(stack@) == total,
            forall|i: int| 0 <= i < stack@.len() ==> stack@[i] >= 2,
        decreases stack_weight(stack@),
    {
        let ghost before = stack@;
        let ghost m = result@;
        let r = stack.pop().unwrap();
        proof {
            assert(stack@ =~= before.drop_last());
            lemma_stack_product_positive(stack@);
            lemma_mul_is_associative(
                factor_product(m) as int,
                stack_product(stack@) as int,
                r as int,
            );
            lemma_mul_is_commutative(stack_product(stack@) as int, r as int);
            lemma_mul_is_associative(
                factor_product(m) as int,
                r as int,
                stack_product(stack@) as int,
            );
        }
        if is_prime64(r) {
            proof {
                let a = factor_product(m) * r;
                let b = stack_product(stack@);
                assert(a <= total) by (nonlinear_arith)
                    requires
                        a * b == total,
                        b >= 1,
                        a >= 0,
                ;
            }
            record_prime(result, r);
        } else {
            let d = find_factor_seeded(r, seeds);
            proof {
                lemma_stack_split(stack@, r, d);
                lemma_mul_is_associative(
                    factor_product(m) as int,
                    stack_product(stack@) as int,
                    r as int,
                );
            }
            stack.push(d);
            stack.push(r / d);
        }
    }
    proof {
        assert(stack@ =~= Seq::<u64>::empty());
        assert(factor_product(result@) * 1 == total);
    }
}

/// An upper bound for the keys that trial division has recorded before it
/// comes to the table entry `i`.
pub open spec fn trial_bound(i: int) -> int {
    if i < 54 {
        small_prime_at(i)
    } else {
        256
    }
}

/// No table entry before the entry `i` divides `res`.
pub open spec fn stripped_below(res: u64, i: int) -> bool {
    forall|j: int| 0 <= j < i ==> res as int % (#[trigger] small_prime_at(j)) != 0
}

/// What is left after dividing by every prime below the square root is 1 or
/// a prime.
proof fn lemma_stripped_is_prime(res: u64, i: int, tsqrt: u64)
    requires
        res >= 2,
        0 <= i < 54,
        small_prime_at(i) > tsqrt,
        tsqrt * tsqrt > res,
        stripped_below(res, i),
    ensures
        is_prime_nat(res as nat),
        res >= small_prime_at(i),
{
    lemma_small_primes_sorted();
    if !is_prime_nat(res as nat) {
        lemma_composite_has_small_divisor(res as nat);
        let l = least_divisor(res as nat);
        assert(l < tsqrt) by (nonlinear_arith)
            requires
                l * l <= res,
                tsqrt * tsqrt > res,
        ;
        lemma_small_primes_complete(l);
        let j = choose|j: int| 0 <= j < 54 && small_prime_at(j) == l;
        assert(res as int % small_prime_at(j) != 0);
    }
    if res < small_prime_at(i) {
        lemma_small_primes_complete(res as nat);
        let j = choose|j: int| 0 <= j < 54 && small_prime_at(j) == res;
        assert(res as int % small_prime_at(j) != 0);
        lemma_mod_self_0(res as int);
    }
}

/// Dividing out one factor `p` keeps the non-divisors of the number.
proof fn lemma_quotient_keeps_nondivisors(res: u64, p: u64, q: int)
    requires
        p > 0,
        q > 0,
        res % p == 0,
        res as int % q != 0,
    ensures
        (res / p) as int % q != 0,
{
    if (res / p) as int % q == 0 {
        lemma_fundamental_div_mod(res as int, p as int);
        lemma_divides_combo(q, (res / p) as int, (res / p) as int, p as int, 0);
    }
}

/// Division by an odd number `p` through its inverse modulo `2^64`: the
/// product of `r` and the inverse, modulo `2^64`, is at most the largest
/// quotient by `p` exactly when `p` divides `r`, and is then `r / p`.
pub proof fn lemma_exact_division(r: u64, p: int, inv: int, lim: int)
    requires
        p >= 1,
        inv >= 0,
        is_inverse_pair(p, inv, lim),
    ensures
        (r * inv) % 0x1_0000_0000_0000_0000 <= lim <==> r as int % p == 0,
        r as int % p == 0 ==> (r * inv) % 0x1_0000_0000_0000_0000 == r as int / p,
{
    let m = 0x1_0000_0000_0000_0000int;
    let q = (r * inv) % m;
    let j = (r * inv) / m;
    let k = (p * inv) / m;
    lemma_fundamental_div_mod(r * inv, m);
    lemma_fundamental_div_mod(p * inv, m);
    lemma_fundamental_div_mod(m - 1, p);
    lemma_mod_bound(r * inv, m);
    lemma_mod_bound(m - 1, p);
    if r as int % p == 0 {
        let d = r as int / p;
        lemma_fundamental_div_mod(r as int, p);
        lemma_div_is_ordered(r as int, m - 1, p);
        lemma_div_pos_is_pos(r as int, p);
        assert(d < m) by (nonlinear_arith)
            requires
                r as int == p * d,
                p >= 1,
                r < m,
                d >= 0,
        ;
        assert(r * inv == m * (d * k) + d) by (nonlinear_arith)
            requires
                r as int == p * d,
                p * inv == m * k + 1,
        ;
        lemma_fundamental_div_mod_converse_mod(r * inv, m, d * k, d);
    }
    if q <= lim {
        assert(p * q - r == m * (r * k - p * j)) by (nonlinear_arith)
            requires
                r * inv == m * j + q,
                p * inv == m * k + 1,
        ;
        assert(0 <= p * q <= m - 1) by (nonlinear_arith)
            requires
                0 <= q <= lim,
                p >= 1,
                p * lim <= m - 1,
        ;
        let t = r * k - p * j;
        assert(t == 0) by (nonlinear_arith)
            requires
                p * q - r == m * t,
                0 <= p * q <= m - 1,
                0 <= r <= m - 1,
                m > 0,
        ;
        lemma_multiple_divides(p, q);
        lemma_div_by_multiple(q, p);
        lemma_mul_is_commutative(p, q);
    }
}

/// Divides `res` by the odd prime `p` as often as it goes, and says how
/// often that was. Whether it goes is seen from the product with the inverse
/// `pinv` of `p` modulo `2^64`, which is the quotient where it does not
/// exceed `plim`.
fn strip_prime(res: u64, p: u64, pinv: u64, plim: u64, Ghost(i): Ghost<int>) -> (out: (u64, usize))
    requires
        res >= 1,
        p >= 3,
        is_inverse_pair(p as int, pinv as int, plim as int),
        0 <= i <= 54,
        stripped_below(res, i),
    ensures
        out.0 >= 1,
        res == out.0 * pow(p as int, out.1 as nat),
        out.0 % p != 0,
        out.1 < 64,
        res % p != 0 ==> out == (res, 0usize),
        stripped_below(out.0, i),
{
    let mut rest = res;
    let mut count: usize = 0;
    proof {
        lemma_pow0(p as int);
        assert(rest * 1 == rest);
        lemma_small_primes_sorted();
    }
    loop
        invariant
            p >= 3,
            is_inverse_pair(p as int, pinv as int, plim as int),
            rest >= 1,
            res == rest * pow(p as int, count as nat),
            count < 64,
            0 <= i <= 54,
            res % p != 0 ==> rest == res && count == 0,
            stripped_below(rest, i),
            small_prime_at(0) == 2,
            forall|i: int, j: int| 0 <= i < j < 54 ==> small_prime_at(i) < small_prime_at(j),
        ensures
            rest % p != 0,
        decreases rest,
    {
        let quotient = rest.wrapping_mul(pinv);
        proof {
            lemma_exact_division(rest, p as int, pinv as int, plim as int);
        }
        if quotient > plim {
            break ;
        }
        proof {
            let q = rest / p;
            lemma_fundamental_div_mod(rest as int, p as int);
            lemma_pow_adds(p as int, count as nat, 1);
            lemma_pow1(p as int);
            lemma_pow_positive(p as int, count as nat);
            let f = pow(p as int, count as nat);
            assert(q >= 1 && q < rest && res == q * (f * p) && f * p <= res) by (nonlinear_arith)
                requires
                    rest == p * q,
                    res == rest * f,
                    rest >= 1,
                    p >= 3,
                    f >= 1,
            ;
            lemma_exponent_bound(p as nat, (count + 1) as nat);
            assert forall|j: int| 0 <= j < i implies q as int % (#[trigger] small_prime_at(j))
                != 0 by {
                if j > 0 {
                    assert(small_prime_at(0) < small_prime_at(j));
                }
                lemma_quotient_keeps_nondivisors(rest, p, small_prime_at(j));
            }
        }
        rest = quotient;
        count = count + 1;
    }
    (rest, count)
}

/// Divides `residual` by the primes of the table, from 3 on, as long as they
/// do not exceed `tsqrt`, and records the divisors found. The flag says
/// whether what is left is known to be 1 or a prime.
fn strip_small_primes(result: &mut BTreeMap<u64, usize>, residual: u64, tsqrt: u64) -> (out: (
    u64,
    bool,
))
    requires
        prime_keys(old(result)@),
        forall|p: u64| #[trigger] old(result)@.contains_key(p) ==> p == 2,
        residual % 2 == 1,
        factor_product(old(result)@) * residual <= u64::MAX,
        tsqrt * tsqrt > factor_product(old(result)@) * residual,
    ensures
        prime_keys(final(result)@),
        factor_product(final(result)@) * out.0 == factor_product(old(result)@) * residual,
        out.0 >= 1,
        out.1 ==> out.0 == 1 || (is_prime_nat(out.0 as nat) && !final(result)@.contains_key(
            out.0,
        )),
        !out.1 ==> out.0 >= 2,
        residual == 1 ==> out.0 == 1 && out.1 && final(result)@ == old(result)@,
{
    broadcast use group_btree_axioms;

    let ghost total = factor_product(result@) * residual;
    let ghost m0 = result@;
    let mut res = residual;
    let mut factored = false;
    let mut i: usize = 1;
    proof {
        lemma_small_primes_sorted();
        assert(stripped_below(res, 1));
    }
    while i < 54
        invariant_except_break
            !factored,
            forall|p: u64| #[trigger] result@.contains_key(p) ==> p < trial_bound(i as int),
        invariant
            1 <= i <= 54,
            i > 1 ==> res >= 2 || factored,
            prime_keys(result@),
            factor_product(result@) * res == total,
            total <= u64::MAX,
            tsqrt * tsqrt > total,
            res >= 1,
            stripped_below(res, i as int),
            residual == 1 ==> res == 1 && result@ == m0,
        ensures
            factored ==> res == 1 || (i < 54 && small_prime_at(i as int) > tsqrt && forall|p: u64|
                #[trigger] result@.contains_key(p) ==> p < trial_bound(i as int)),
            !factored ==> i == 54,
        decreases 54 - i,
    {
        let p = small_prime(i) as u64;
        if p > tsqrt {
            factored = true;
            break ;
        }
        let ghost res0 = res;
        let ghost m = result@;
        proof {
            lemma_small_primes_sorted();
            lemma_small_primes_are_prime();
            assert(small_prime_at(0) < small_prime_at(i as int));
            if i + 1 < 54 {
                assert(small_prime_at(i as int) < small_prime_at(i + 1));
            }
            if res == 1 {
                lemma_small_mod(1, p as nat);
            }
        }
        proof {
            lemma_small_primes_inverse(i as int);
        }
        let (rest, count) = strip_prime(
            res,
            p,
            small_prime_inv(i),
            small_prime_invlim(i),
            Ghost(i as int),
        );
        res = rest;
        proof {
            assert(stripped_below(res, i + 1));
            if count == 0 {
                lemma_pow0(p as int);
                assert(res * 1 == res);
            }
        }
        if count > 0 {
            proof {
                lemma_product_insert_new(m, p, count);
                lemma_miller_rabin_complete(p as nat);
                let f = pow(p as int, count as nat);
                let a = factor_product(m) as int;
                let a2 = factor_product(m.insert(p, count)) as int;
                assert(a2 * res == total) by (nonlinear_arith)
                    requires
                        a2 == a * f,
                        res0 == res * f,
                        a * res0 == total,
                ;
            }
            result.insert(p, count);
        }
        if res == 1 {
            factored = true;
            break ;
        }
        i = i + 1;
    }
    proof {
        if factored && res != 1 {
            lemma_product_bounds(result@, 2);
            assert(res <= total) by (nonlinear_arith)
                requires
                    factor_product(result@) * res == total,
                    factor_product(result@) >= 1,
                    res >= 0,
            ;
            lemma_stripped_is_prime(res, i as int, tsqrt);
        }
    }
    (res, factored)
}

/// Integer factorisation of a 64-bit target by trial division with the
/// table of small primes, then Pollard's rho and the square forms
/// factorisation. The factor map holds each prime factor, as the
/// deterministic Miller-Rabin test sees it, with its multiplicity, and the
/// product of the prime powers is the target; for 1 it is empty. Where the
/// Miller-Rabin test accepts no composite number up to the target, the
/// factor map is that of the prime factorisation. It never has more than
/// fifteen keys.
pub fn factors64(target: u64) -> (result: BTreeMap<u64, usize>)
    requires
        target >= 1,
    ensures
        is_factorization(result@, target as nat),
        target == 1 ==> result@ == Map::<u64, usize>::empty(),
        miller_rabin_sound(target as nat) ==> result@ == prime_map(target as nat),
        result@.dom().finite(),
        result@.len() <= 15,
{
    let seeds = random_seeds();
    factors64_seeded(target, &seeds)
}

/// The factorisation of `factors64`, with the given seeds in the place of
/// random ones for the trials of Pollard's rho.
pub fn factors64_seeded(target: u64, seeds: &Vec<u64>) -> (result: BTreeMap<u64, usize>)
    requires
        target >= 1,
    ensures
        is_factorization(result@, target as nat),
        target == 1 ==> result@ == Map::<u64, usize>::empty(),
        miller_rabin_sound(target as nat) ==> result@ == prime_map(target as nat),
        result@.dom().finite(),
        result@.len() <= 15,
{
    let result = split_into_primes(target, seeds);
    proof {
        if miller_rabin_sound(target as nat) {
            lemma_factorization_exact(result@, target as nat);
        }
        lemma_factorization_keys(result@, target as nat);
    }
    result
}

/// The factorisation of `factors64`.
fn split_into_primes(target: u64, seeds: &Vec<u64>) -> (result: BTreeMap<u64, usize>)
    requires
        target >= 1,
    ensures
        is_factorization(result@, target as nat),
        target == 1 ==> result@ == Map::<u64, usize>::empty(),
{
    broadcast use group_btree_axioms;

    let mut result: BTreeMap<u64, usize> = BTreeMap::new();
    let f2 = target.fac2();
    proof {
        lemma_product_empty();
        lemma_fac2_below_64(target, f2 as nat);
        lemma2_to64();
        if target == 1 && f2 > 0 {
            lemma_pow2_strictly_increases(0, f2 as nat);
        }
    }
    if f2 == 0 {
        if is_prime64(target) {
            proof {
                lemma_product_insert_new(result@, target, 1);
                lemma_pow1(target as int);
            }
            result.insert(target, 1);
            return result;
        }
    } else {
        proof {
            lemma_product_insert_new(result@, 2, f2);
            lemma_pow2(f2 as nat);
        }
        result.insert(2, f2);
    }
    // trial division using primes in the table
    let tsqrt = integer_sqrt(target) + 1;
    proof {
        lemma_u64_shr_is_div(target, f2 as u64);
        lemma_mul_is_commutative((target as nat / pow2(f2 as nat)) as int, pow2(f2 as nat) as int);
    }
    let residual = target >> (f2 as u64);
    let (residual, factored) = strip_small_primes(&mut result, residual, tsqrt);
    if factored {
        if residual != 1 {
            proof {
                lemma_product_insert_new(result@, residual, 1);
                lemma_pow1(residual as int);
                lemma_miller_rabin_complete(residual as nat);
            }
            result.insert(residual, 1);
        }
        return result;
    }
    // then Pollard's rho and the square forms until fully factored
    factor_residual(&mut result, residual, seeds);
    result
}

/// The verdict of a test that decides.
pub open spec fn verdict(accepted: bool) -> Primality {
    if accepted {
        Primality::Yes
    } else {
        Primality::No
    }
}

/// How many of the first primes serve as bases where `trials` are asked
/// for: all of them, as far as 64 bits hold primes.
pub open spec fn prime_bases(trials: nat) -> nat {
    if trials <= prime_count(u64::MAX as nat) {
        trials
    } else {
        prime_count(u64::MAX as nat)
    }
}

/// `n` is a strong probable prime to the first `trials` primes.
pub open spec fn passes_prime_bases(n: nat, trials: nat) -> bool {
    forall|i: nat| 1 <= i <= prime_bases(trials) ==> sprp(n, #[trigger] nth_prime_nat(i))
}

/// `n` passes the primality test of `is_prime` with `trials` of the first
/// primes as bases: up to 64 bits that is the deterministic Miller-Rabin
/// test; beyond, `n` is odd and a strong probable prime to those bases.
pub open spec fn passes_test(n: nat, trials: nat) -> bool {
    if n <= u64::MAX {
        miller_rabin_prime(n)
    } else {
        n % 2 == 1 && passes_prime_bases(n, trials)
    }
}

/// `n` is a strong probable prime to every witness but 0, which is none.
pub open spec fn passes_witnesses(n: nat, witnesses: Seq<u64>) -> bool {
    forall|j: int|
        0 <= j < witnesses.len() ==> witnesses[j] == 0 || sprp(n, #[trigger] witnesses[j] as nat)
}

/// The verdict on a target beyond 64 bits: a probable prime if it is odd
/// and a strong probable prime to the first `trials` primes and to every
/// witness, else no prime. No prime is ever rejected.
pub fn probable_prime<T: PrimalityBase>(target: &T, trials: usize, witnesses: &Vec<u64>) -> (r:
    Primality)
    requires
        target.value() > u64::MAX,
    ensures
        r == if target.value() % 2 == 1 && passes_prime_bases(target.value(), trials as nat)
            && passes_witnesses(target.value(), witnesses@) {
            Primality::Probable
        } else {
            Primality::No
        },
        is_prime_nat(target.value()) ==> r != Primality::No,
{
    let ghost n = target.value();
    if target.rem_small(2) == 0 {
        assert(divides(2, n));
        return Primality::No;
    }
    // Miller-Rabin tests to the first primes
    let bases = nprimes(trials);
    proof {
        assert forall|i: int| 0 <= i < bases@.len() implies bases@[i] == nth_prime_nat(
            (i + 1) as nat,
        ) by {
            assert(is_nth_prime(bases@[i] as nat, (i + 1) as nat));
            lemma_nth_prime_exists((i + 1) as nat);
            lemma_nth_prime_unique(bases@[i] as nat, nth_prime_nat((i + 1) as nat), (i + 1) as nat);
        }
        lemma_prime_count_bases(bases@, trials as nat);
    }
    if !is_sprp_to_all(target, &bases) {
        proof {
            let i = choose|i: int| 0 <= i < bases@.len() && !sprp(n, #[trigger] bases@[i] as nat);
            assert(!sprp(n, nth_prime_nat((i + 1) as nat)));
            if is_prime_nat(n) {
                assert(is_nth_prime(bases@[i] as nat, (i + 1) as nat));
                lemma_small_mod(bases@[i] as nat, n);
                lemma_prime_is_sprp(n, bases@[i] as nat);
            }
        }
        return Primality::No;
    }
    proof {
        assert forall|i: nat| 1 <= i <= prime_bases(trials as nat) implies sprp(
            n,
            #[trigger] nth_prime_nat(i),
        ) by {
            assert(sprp(n, bases@[i - 1] as nat));
        }
    }
    // and to the witnesses
    let bound = target.duplicate();
    let mut k: usize = 0;
    while k < witnesses.len()
        invariant
            0 <= k <= witnesses@.len(),
            n == target.value(),
            n > u64::MAX,
            n < T::limit(),
            n % 2 == 1,
            forall|j: int|
                0 <= j < k ==> witnesses@[j] == 0 || sprp(n, #[trigger] witnesses@[j] as nat),
        decreases witnesses@.len() - k,
    {
        let witness = witnesses[k];
        if witness != 0 {
            let base = T::try_from_u64(witness).unwrap();
            if !is_sprp(target, &base) {
                proof {
                    if is_prime_nat(n) {
                        lemma_small_mod(witness as nat, n);
                        lemma_prime_is_sprp(n, witness as nat);
                    }
                }
                return Primality::No;
            }
        }
        k = k + 1;
    }
    Primality::Probable
}

/// A list of the first primes as `nprimes` gives it holds as many primes as
/// serve as bases.
proof fn lemma_prime_count_bases(bases: Seq<u64>, trials: nat)
    requires
        first_primes(bases),
        bases.len() <= trials,
        bases.len() < trials ==> bases.len() == prime_count(u64::MAX as nat),
    ensures
        bases.len() == prime_bases(trials),
{
    if bases.len() > 0 && bases.len() > prime_count(u64::MAX as nat) {
        let p = bases[bases.len() - 1];
        assert(is_nth_prime(p as nat, bases.len()));
        lemma_prime_count_monotone(p as nat, u64::MAX as nat);
    }
}

/// Primality test of a target of any width. Up to 64 bits it is the
/// deterministic test of `is_prime64`. Beyond, it is that of
/// `probable_prime`, with as many of the first primes as bases and as many
/// random witnesses as the configuration says: no prime is ever rejected,
/// and what passes is a probable prime.
pub fn is_prime<T: PrimalityBase>(target: &T, config: Option<PrimalityTestConfig>) -> (r:
    Primality)
    ensures
        target.value() <= u64::MAX ==> r == verdict(miller_rabin_prime(target.value())),
        target.value() > u64::MAX ==> r != Primality::Yes,
        r != Primality::No ==> passes_test(
            target.value(),
            config_or_default(config).sprp_trials as nat,
        ),
        is_prime_nat(target.value()) ==> r != Primality::No,
{
    // do the deterministic test if the target is under 2^64
    if let Some(x) = target.as_u64() {
        return if is_prime64(x) {
            Primality::Yes
        } else {
            Primality::No
        };
    }
    let config = match config {
        Some(config) => config,
        None => PrimalityTestConfig::default(),
    };
    let mut witnesses: Vec<u64> = Vec::new();
    let mut k: usize = 0;
    while k < config.sprp_random_trials
        decreases config.sprp_random_trials - k,
    {
        witnesses.push(random_u64());
        k = k + 1;
    }
    probable_prime(target, config.sprp_trials, &witnesses)
}

/// The configuration, or the default one where there is none.
pub open spec fn config_or_default(config: Option<PrimalityTestConfig>) -> PrimalityTestConfig {
    match config {
        Some(config) => config,
        None => PrimalityTestConfig { sprp_trials: 2, sprp_random_trials: 3 },
    }
}

/// Factorisation of a target of any width, which succeeds up to 64 bits:
/// there it is that of `factors64`. A target beyond is handed back
/// unfactored. The configuration has no bearing on it.
pub fn factors<T: PrimalityBase>(target: T, config: Option<FactorizationConfig>) -> (r: Result<
    BTreeMap<u64, usize>,
    Vec<T>,
>)
    requires
        target.value() >= 1,
    ensures
        match r {
            Ok(m) => {
                &&& target.value() <= u64::MAX
                &&& is_factorization(m@, target.value())
                &&& miller_rabin_sound(target.value()) ==> m@ == prime_map(target.value())
                &&& m@.len() <= 15
            },
            Err(rest) => target.value() > u64::MAX && rest@.len() == 1 && rest@[0].value()
                == target.value(),
        },
{
    match target.as_u64() {
        Some(x) => Ok(factors64(x)),
        None => {
            let mut rest: Vec<T> = Vec::new();
            rest.push(target);
            Err(rest)
        },
    }
}

/// All primes up to and including `limit`, in ascending order: the `i`-th
/// entry is the `i`-th prime.
pub fn primes(limit: u64) -> (v: Vec<u64>)
    ensures
        first_primes(v@),
        v@.len() == prime_count(limit as nat),
{
    let mut v: Vec<u64> = Vec::new();
    if limit < 2 {
        proof {
            reveal_with_fuel(prime_count, 3);
        }
        return v;
    }
    let mut c: u64 = 2;
    proof {
        reveal_with_fuel(prime_count, 3);
    }
    loop
        invariant
            2 <= c <= limit,
            first_primes(v@),
            v@.len() == prime_count((c - 1) as nat),
        decreases limit - c,
    {
        proof {
            lemma_first_primes_push(v@, c);
        }
        if is_next_prime(&v, c) {
            v.push(c);
        }
        if c == limit {
            return v;
        }
        c = c + 1;
    }
}

/// The first `count` primes in ascending order, as far as 64 bits hold
/// them: the list is shorter only if it holds every prime of 64 bits.
pub fn nprimes(count: usize) -> (v: Vec<u64>)
    ensures
        first_primes(v@),
        v@.len() <= count,
        v@.len() < count ==> v@.len() == prime_count(u64::MAX as nat),
{
    let mut v: Vec<u64> = Vec::new();
    if count == 0 {
        return v;
    }
    let mut c: u64 = 2;
    proof {
        reveal_with_fuel(prime_count, 3);
    }
    loop
        invariant
            2 <= c,
            first_primes(v@),
            v@.len() == prime_count((c - 1) as nat),
            v@.len() < count,
        decreases u64::MAX - c,
    {
        proof {
            lemma_first_primes_push(v@, c);
        }
        if is_next_prime(&v, c) {
            v.push(c);
            if v.len() == count {
                return v;
            }
        }
        if c == u64::MAX {
            return v;
        }
        c = c + 1;
    }
}

/// The number of primes up to and including `limit`.
pub fn prime_pi(limit: u64) -> (r: u64)
    ensures
        r == prime_count(limit as nat),
{
    primes(limit).len() as u64
}

/// The `n`-th prime, counting from 1. There is none for 0, or where the
/// `n`-th prime or the list of the primes up to it is beyond the machine.
pub fn nth_prime(n: u64) -> (r: Option<u64>)
    ensures
        match r {
            Some(p) => is_nth_prime(p as nat, n as nat),
            None => n == 0 || n > usize::MAX || n > prime_count(u64::MAX as nat),
        },
{
    if n == 0 || n > usize::MAX as u64 {
        return None;
    }
    let v = nprimes(n as usize);
    if v.len() == n as usize {
        Some(v[n as usize - 1])
    } else {
        None
    }
}

/// The product of the first `n` primes in a type of any width, unless the
/// type does not hold it. The primes are found among the 64-bit numbers, and
/// there is no product either where `n` is more than there are such primes.
pub fn primorial<T: PrimalityBase>(n: usize) -> (r: Option<T>)
    ensures
        match r {
            Some(x) => x.value() == primorial_nat(n as nat),
            None => primorial_nat(n as nat) >= T::limit() || n > prime_count(u64::MAX as nat),
        },
{
    proof {
        T::lemma_limit();
        reveal_with_fuel(prime_count, 3);
    }
    let mut found: Vec<u64> = Vec::new();
    let mut product = T::try_from_u64(1).unwrap();
    if n == 0 {
        return Some(product);
    }
    let mut c: u64 = 2;
    loop
        invariant
            2 <= c,
            first_primes(found@),
            found@.len() == prime_count((c - 1) as nat),
            found@.len() < n,
            product.value() == primorial_nat(found@.len()),
        decreases u64::MAX - c,
    {
        proof {
            lemma_first_primes_push(found@, c);
        }
        if is_next_prime(&found, c) {
            let ghost k = (found@.len() + 1) as nat;
            proof {
                lemma_nth_prime_exists(k);
                lemma_nth_prime_unique(c as nat, nth_prime_nat(k), k);
                lemma_primorial_monotone(k, n as nat);
            }
            found.push(c);
            product = match product.times(c) {
                Some(x) => x,
                None => {
                    return None;
                },
            };
            if found.len() == n {
                return Some(product);
            }
        }
        if c == u64::MAX {
            return None;
        }
        c = c + 1;
    }
}

/// The number of primes up to and including `x`, where the table of small
/// primes tells it: for `x` up to the last entry of the table.
pub fn small_prime_pi(x: u64) -> (r: Option<u64>)
    ensures
        match r {
            Some(n) => x <= 251 && n == prime_count(x as nat),
            None => x > 251,
        },
{
    if x > 251 {
        return None;
    }
    let found = search_small_primes(x as u8);
    let n = match found {
        Ok(pos) => pos + 1,
        Err(pos) => pos,
    };
    proof {
        lemma_small_primes_sorted();
        assert(small_primes_split(x as int + 1, n as int)) by {
            if found is Ok {
                assert forall|j: int| n <= j < 54 implies (#[trigger] small_prime_at(j)) >= x
                    + 1 by {
                    assert(small_prime_at(n - 1) < small_prime_at(j));
                }
            } else {
                assert forall|j: int| n <= j < 54 implies (#[trigger] small_prime_at(j)) >= x
                    + 1 by {
                    assert(small_prime_at(j) >= x);
                }
            }
        }
        lemma_small_prime_count(x as nat, n as nat);
    }
    Some(n as u64)
}

/// The `n`-th prime, where the table of small primes holds it: for `n` up
/// to the length of the table; and 0 for `n == 0`.
pub fn small_nth_prime(n: u64) -> (r: Option<u64>)
    ensures
        match r {
            Some(p) => n <= 54 && if n == 0 {
                p == 0
            } else {
                is_nth_prime(p as nat, n as nat)
            },
            None => n > 54,
        },
{
    if n == 0 {
        return Some(0);
    }
    if n > 54 {
        return None;
    }
    let p = small_prime((n - 1) as usize);
    proof {
        lemma_small_primes_sorted();
        lemma_small_primes_are_prime();
        assert(small_primes_split(p as int + 1, n as int)) by {
            assert forall|j: int| 0 <= j < n implies (#[trigger] small_prime_at(j)) < p + 1 by {
                if j < n - 1 {
                    assert(small_prime_at(j) < small_prime_at(n - 1));
                }
            }
            assert forall|j: int| n <= j < 54 implies (#[trigger] small_prime_at(j)) >= p + 1 by {
                assert(small_prime_at(n - 1) < small_prime_at(j));
            }
        }
        lemma_small_prime_count(p as nat, n as nat);
    }
    Some(p as u64)
}

/// The primes of a factor map, in the order in which the map hands them
/// out: ascending.
pub fn prime_factors(factors: &BTreeMap<u64, usize>) -> (keys: Vec<u64>)
    ensures
        forall|i: int, j: int| 0 <= i < j < keys@.len() ==> keys@[i] < keys@[j],
        forall|p: u64| factors@.contains_key(p) <==> keys@.contains(p),
        keys@.len() == factors@.dom().len(),
{
    broadcast use group_btree_axioms;

    let mut keys: Vec<u64> = Vec::new();
    let ghost entries = spec_btree_map_iter(factors).remaining();
    let ghost ordered = increasing_seq(entries.map_values(|kv: (&u64, &usize)| *kv.0));
    let probe = factors.iter();
    assert(ordered);
    for entry in it: factors.iter()
        invariant
            it.seq() == entries,
            keys@.len() == it.index(),
            forall|i: int| 0 <= i < keys@.len() ==> keys@[i] == *entries[i].0,
    {
        keys.push(*entry.0);
    }
    proof {
        let m = factors@;
        let firsts = entries.map_values(|kv: (&u64, &usize)| *kv.0);
        assert forall|i: int, j: int| 0 <= i < j < keys@.len() implies keys@[i] < keys@[j] by {
            assert(firsts[i] == keys@[i] && firsts[j] == keys@[j]);
            assert(firsts[i].cmp_spec(&firsts[j]) is Less);
        }
        assert forall|p: u64| m.contains_key(p) <==> keys@.contains(p) by {
            if m.contains_key(p) {
                assert(entries.contains((&p, &m[p])));
                let i = choose|i: int| 0 <= i < entries.len() && entries[i] == (&p, &m[p]);
                assert(keys@[i] == p);
            }
            if keys@.contains(p) {
                let i = choose|i: int| 0 <= i < keys@.len() && keys@[i] == p;
                assert(m.contains_key(*entries[i].0));
            }
        }
    }
    keys
}

/// Whether some prime of the factor map has a multiplicity above one.
pub fn has_repeated_factor(factors: &BTreeMap<u64, usize>) -> (r: bool)
    ensures
        r == has_square(factors@),
{
    broadcast use group_btree_axioms;

    let mut repeated = false;
    let ghost entries = spec_btree_map_iter(factors).remaining();
    for entry in it: factors.iter()
        invariant
            it.seq() == entries,
            repeated <==> exists|i: int| 0 <= i < it.index() && *entries[i].1 >= 2,
    {
        if *entry.1 > 1 {
            repeated = true;
        }
    }
    proof {
        let m = factors@;
        if repeated {
            let i = choose|i: int| 0 <= i < entries.len() && *entries[i].1 >= 2;
            assert(m.contains_key(*entries[i].0) && m[*entries[i].0] == *entries[i].1);
        }
        if has_square(m) {
            let p = choose|p: u64| m.contains_key(p) && m[p] >= 2;
            assert(entries.contains((&p, &m[p])));
            let i = choose|i: int| 0 <= i < entries.len() && entries[i] == (&p, &m[p]);
            assert(*entries[i].1 >= 2);
        }
    }
    repeated
}

/// The Moebius function of a 64-bit target: that of a factorisation of it
/// into primes by the deterministic Miller-Rabin test. The factor 2 is taken
/// out first, odd numbers below 256 are looked up in a table, a target that
/// 9, 25 or 49 divides gives 0, and any other is factored. Below 256, and
/// wherever the Miller-Rabin test accepts no composite number up to the
/// target, the result is the Moebius function of the target.
pub fn moebius64(target: u64) -> (r: i8)
    requires
        target >= 1,
    ensures
        -1 <= r <= 1,
        moebius_of(target as nat, r as int),
        target < 256 || miller_rabin_sound(target as nat) ==> r == moebius_nat(target as nat),
    decreases target,
{
    broadcast use group_btree_axioms;

    let n = target;
    proof {
        if n % 2 == 0 {
            lemma_moebius_nat_even(n as nat);
        }
        if n % 9 == 0 || n % 25 == 0 || n % 49 == 0 {
            lemma_moebius_nat_zero(n as nat);
            assert(crate::moebius::square_divides(3, n as nat) || crate::moebius::square_divides(
                5,
                n as nat,
            ) || crate::moebius::square_divides(7, n as nat));
        }
        assert(is_prime_nat(2)) by {
            assert forall|d: nat| 1 < d < 2 implies !#[trigger] divides(d, 2) by {}
        }
    }
    // remove factor 2
    if n % 2 == 0 {
        if n % 4 == 0 {
            proof {
                lemma_moebius_square(n as nat, 2);
            }
            return 0;
        } else {
            let half = n / 2;
            let r = moebius64(half);
            proof {
                lemma_moebius_double(half as nat, r as int);
            }
            return -r;
        }
    }
    // look up tables when input is smaller than 256
    if n < 256 {
        return moebius_odd(n as u8);
    }
    // short cut for common primes
    if n % 9 == 0 || n % 25 == 0 || n % 49 == 0 {
        proof {
            crate::tables::lemma_small_primes_decide(3);
            crate::primes::lemma_prime_below_289(3);
            crate::primes::lemma_prime_below_289(5);
            crate::primes::lemma_prime_below_289(7);
            if n % 9 == 0 {
                lemma_moebius_square(n as nat, 3);
            } else if n % 25 == 0 {
                lemma_moebius_square(n as nat, 5);
            } else {
                lemma_moebius_square(n as nat, 7);
            }
        }
        return 0;
    }
    // then try complete factorization
    let result = factors64(n);
    assert(is_factorization(result@, n as nat));
    if has_repeated_factor(&result) {
        return 0;
    }
    if result.len() % 2 == 0 {
        1
    } else {
        -1
    }
}

/// The Moebius function of a target of up to 64 bits, by `moebius64`.
pub fn moebius_mu<T: PrimalityBase>(target: &T) -> (r: i8)
    requires
        1 <= target.value() <= u64::MAX,
    ensures
        -1 <= r <= 1,
        moebius_of(target.value(), r as int),
        target.value() < 256 || miller_rabin_sound(target.value()) ==> r == moebius_nat(
            target.value(),
        ),
{
    moebius64(target.as_u64().unwrap())
}

/// Tests whether no square above one divides a target of up to 64 bits, by
/// the Moebius function of a factorisation of it into primes by the
/// deterministic Miller-Rabin test. A negative answer is final: some square
/// above one does divide the target. A positive one is final below 256 and
/// wherever the Miller-Rabin test accepts no composite number up to the
/// target.
pub fn is_square_free<T: PrimalityBase>(target: &T) -> (r: bool)
    requires
        1 <= target.value() <= u64::MAX,
    ensures
        exists|v: int| moebius_of(target.value(), v) && r == (v != 0),
        !r ==> has_square_divisor(target.value()),
        target.value() < 256 || miller_rabin_sound(target.value()) ==> r == !has_square_divisor(
            target.value(),
        ),
{
    let v = moebius_mu(target);
    proof {
        assert(moebius_of(target.value(), v as int));
        if v == 0 {
            lemma_moebius_zero(target.value());
        }
        lemma_moebius_nat_zero(target.value());
    }
    v != 0
}

/// Tests whether the target is a safe prime by Sophie Germain's definition:
/// both it and its half, rounded down, are primes. The two are tested as
/// `is_prime` tests with the strict configuration, of twelve prime bases:
/// what is not rejected has passed both tests, and no safe prime is
/// rejected.
pub fn is_safe_prime<T: PrimalityBase>(target: &T) -> (r: Primality)
    ensures
        target.value() <= u64::MAX ==> r == verdict(
            miller_rabin_prime(target.value() / 2) && miller_rabin_prime(target.value()),
        ),
        target.value() > u64::MAX ==> r != Primality::Yes,
        r != Primality::No ==> passes_test(target.value() / 2, 12) && passes_test(
            target.value(),
            12,
        ),
        is_prime_nat(target.value()) && is_prime_nat(target.value() / 2) ==> r != Primality::No,
{
    let config = Some(PrimalityTestConfig::strict());
    proof {
        lemma2_to64();
    }
    // test (n-1)/2 first since it is smaller
    let sophie_p = is_prime(&target.shift_right(1), config);
    if sophie_p == Primality::No {
        return sophie_p;
    }
    // and then test the target itself
    let target_p = is_prime(target, config);
    target_p.and(sophie_p)
}

/// `(a + b) mod m` on bytes, by `num_modular::ModularCoreOps::addm`, which
/// adds in 16 bits and reduces.
#[verifier::external_body]
fn wheel_addm(a: u8, b: u8, m: u8) -> (r: u8)
    requires
        m > 0,
    ensures
        r == (a + b) % (m as int),
{
    num_modular::ModularCoreOps::<u8, &u8>::addm(a, b, &m)
}

/// `(a - b) mod m` on bytes, in `[0, m)`, by
/// `num_modular::ModularCoreOps::subm`, which reduces the distance of the
/// two and negates it modulo `m` where `a < b`.
#[verifier::external_body]
fn wheel_subm(a: u8, b: u8, m: u8) -> (r: u8)
    requires
        m > 0,
    ensures
        r == (a - b) % (m as int),
{
    num_modular::ModularCoreOps::<u8, &u8>::subm(a, b, &m)
}

/// Whether `t` passes the primality test of `is_prime` with the
/// configuration, as every prime does.
fn is_candidate<T: PrimalityBase>(t: &T, config: Option<PrimalityTestConfig>) -> (ok: bool)
    ensures
        ok ==> passes_test(t.value(), config_or_default(config).sprp_trials as nat),
        is_prime_nat(t.value()) ==> ok,
{
    is_prime(t, config).probably()
}

/// A number above 5 that shares a factor with the wheel is no prime.
proof fn lemma_wheel_factor_composite(q: nat)
    requires
        q > 5,
        shares_wheel_factor(q as int),
    ensures
        !is_prime_nat(q),
{
    if q % 2 == 0 {
        assert(divides(2, q));
    } else if q % 3 == 0 {
        assert(divides(3, q));
    } else {
        assert(divides(5, q));
    }
}

/// A number shares a factor with the wheel if the number `k` turns of the
/// wheel below it does.
proof fn lemma_wheel_residue(q: int, k: int)
    requires
        shares_wheel_factor(q - 30 * k),
    ensures
        shares_wheel_factor(q),
{
    let r = q - 30 * k;
    assert(q == 2 * (15 * k) + r && q == 3 * (10 * k) + r && q == 5 * (6 * k) + r);
    lemma_mod_multiples_vanish(15 * k, r, 2);
    lemma_mod_multiples_vanish(10 * k, r, 3);
    lemma_mod_multiples_vanish(6 * k, r, 5);
}

/// The residue of a number `d` further on or back, from the residue.
proof fn lemma_wheel_index(t: nat, d: int)
    ensures
        (t + d) % 30 == (t % 30 + d) % 30,
{
    let k = (t / 30) as int;
    assert(t + d == 30 * k + (t % 30 + d));
    lemma_mod_multiples_vanish(k, t % 30 + d, 30);
}

/// A step up the wheel from a number above 5 is of 1 to 6 and passes over no
/// prime.
proof fn lemma_wheel_step_up(t: nat)
    requires
        t >= 5,
    ensures
        1 <= wheel_next_at((t % 30) as int) <= 6,
        (t + wheel_next_at((t % 30) as int)) % 30 == (t % 30 + wheel_next_at((t % 30) as int))
            % 30,
        forall|q: nat| t < q < t + wheel_next_at((t % 30) as int) ==> !is_prime_nat(q),
{
    lemma_wheel_next();
    let i = (t % 30) as int;
    lemma_wheel_index(t, wheel_next_at(i));
    assert forall|q: nat| t < q < t + wheel_next_at(i) implies !is_prime_nat(q) by {
        assert(wheel_skips_up(i, q - t));
        assert(i + (q - t) == q - 30 * (t / 30));
        lemma_wheel_residue(q as int, (t / 30) as int);
        lemma_wheel_factor_composite(q);
    }
}

/// A step down the wheel from a number above 251 is of 1 to 6, passes over
/// no prime, and stops at the prime 251 at the latest.
proof fn lemma_wheel_step_down(t: nat)
    requires
        t > 251,
    ensures
        1 <= wheel_prev_at((t % 30) as int) <= 6,
        t - wheel_prev_at((t % 30) as int) >= 251,
        (t - wheel_prev_at((t % 30) as int)) % 30 == (t % 30 - wheel_prev_at((t % 30) as int))
            % 30,
        is_prime_nat(251),
        forall|q: nat| t - wheel_prev_at((t % 30) as int) < q < t ==> !is_prime_nat(q),
{
    lemma_wheel_prev();
    let i = (t % 30) as int;
    lemma_wheel_index(t, -wheel_prev_at(i));
    assert forall|q: nat| t - wheel_prev_at(i) < q < t implies !is_prime_nat(q) by {
        assert(wheel_skips_down(i, t - q));
        assert(i + 30 - (t - q) == q - 30 * (t / 30 - 1));
        lemma_wheel_residue(q as int, t / 30 - 1);
        lemma_wheel_factor_composite(q);
    }
    if t - wheel_prev_at(i) < 251 {
        assert(wheel_skips_down(i, t - 251));
        assert(i + 30 - (t - 251) == 251 - 30 * (t / 30 - 1));
        lemma_wheel_residue(251, t / 30 - 1);
    }
    lemma_small_primes_sorted();
    lemma_small_primes_are_prime();
    assert(is_prime_nat(small_prime_at(53) as nat));
}

/// The first prime above `target`, as far as the type reaches: no prime
/// lies between the two, and the result passes the primality test of
/// `is_prime` with the configuration, which up to 64 bits is the
/// deterministic Miller-Rabin test. `None` says that the type holds no prime
/// above `target`.
pub fn next_prime<T: PrimalityBase>(target: &T, config: Option<PrimalityTestConfig>) -> (r:
    Option<T>)
    ensures
        match r {
            Some(p) => {
                &&& p.value() > target.value()
                &&& passes_test(p.value(), config_or_default(config).sprp_trials as nat)
                &&& forall|q: nat| target.value() < q < p.value() ==> !is_prime_nat(q)
            },
            None => forall|q: nat| target.value() < q < T::limit() ==> !is_prime_nat(q),
        },
{
    let mut t = target.duplicate();
    // first search in small primes
    if let Some(start) = t.as_u64() {
        if start < 251 {
            let pos = match search_small_primes(start as u8 + 1) {
                Ok(pos) => pos,
                Err(pos) => pos,
            };
            proof {
                lemma_small_primes_sorted();
                lemma_small_primes_are_prime();
                T::lemma_limit();
                assert(pos < 54) by {
                    if pos >= 54 {
                        assert(small_prime_at(53) < start + 1);
                    }
                }
                assert forall|q: nat| start < q < small_prime_at(pos as int) implies !is_prime_nat(
                    q,
                ) by {
                    if is_prime_nat(q) {
                        lemma_small_primes_split(start as int + 1, pos as int, q);
                    }
                }
                lemma_miller_rabin_complete(small_prime_at(pos as int) as nat);
            }
            return T::try_from_u64(small_prime(pos) as u64);
        }
    }
    // then move along the wheel
    let mut i = t.rem_small(WHEEL_SIZE);
    loop
        invariant
            t.value() >= 251,
            t.value() >= target.value(),
            t.value() < T::limit(),
            i == t.value() % 30,
            forall|q: nat| target.value() < q <= t.value() ==> !is_prime_nat(q),
        decreases T::limit() - t.value(),
    {
        let offset = wheel_next(i);
        let ghost last = t.value();
        proof {
            lemma_wheel_step_up(last);
        }
        t = match t.add_small(offset) {
            Some(v) => v,
            None => {
                return None;
            },
        };
        i = wheel_addm(i, offset, WHEEL_SIZE);
        if is_candidate(&t, config) {
            return Some(t);
        }
    }
}

/// The last prime below `target`: no prime lies between the two, and the
/// result passes the primality test of `is_prime` with the configuration,
/// which up to 64 bits is the deterministic Miller-Rabin test. There is
/// none below 3.
pub fn prev_prime<T: PrimalityBase>(target: &T, config: Option<PrimalityTestConfig>) -> (r:
    Option<T>)
    ensures
        match r {
            Some(p) => {
                &&& p.value() < target.value()
                &&& passes_test(p.value(), config_or_default(config).sprp_trials as nat)
                &&& forall|q: nat| p.value() < q < target.value() ==> !is_prime_nat(q)
            },
            None => target.value() <= 2,
        },
{
    let mut t = target.duplicate();
    // first search in small primes
    if let Some(start) = t.as_u64() {
        if start <= 2 {
            return None;
        }
        if start <= 255 {
            let pos = match search_small_primes(start as u8) {
                Ok(pos) => pos,
                Err(pos) => pos,
            };
            proof {
                lemma_small_primes_sorted();
                lemma_small_primes_are_prime();
                T::lemma_limit();
                assert(pos >= 1) by {
                    if pos == 0 {
                        assert(small_prime_at(0) >= start);
                    }
                }
                assert forall|q: nat| small_prime_at(pos - 1) < q < start implies !is_prime_nat(
                    q,
                ) by {
                    if is_prime_nat(q) {
                        lemma_small_primes_split(start as int, pos as int, q);
                    }
                }
                lemma_miller_rabin_complete(small_prime_at(pos - 1) as nat);
                assert(small_prime_at(pos - 1) < start);
            }
            return T::try_from_u64(small_prime(pos - 1) as u64);
        }
    }
    // then move along the wheel
    let mut i = t.rem_small(WHEEL_SIZE);
    loop
        invariant
            t.value() > 251,
            t.value() <= target.value(),
            i == t.value() % 30,
            forall|q: nat| t.value() <= q < target.value() ==> !is_prime_nat(q),
        decreases t.value(),
    {
        let offset = wheel_prev(i);
        let ghost last = t.value();
        proof {
            lemma_wheel_step_down(last);
        }
        t = t.sub_small(offset);
        i = wheel_subm(i, offset, WHEEL_SIZE);
        if is_candidate(&t, config) {
            return Some(t);
        }
    }
}

/// The prime that a random draw leads to: the draw itself if it passes the
/// primality test of `is_prime`, else the next prime above it. There is none
/// where the type holds no prime from the draw on.
pub fn prime_from<T: PrimalityBase>(draw: &T, config: Option<PrimalityTestConfig>) -> (r:
    Option<T>)
    ensures
        match r {
            Some(p) => {
                &&& p.value() >= draw.value()
                &&& passes_test(p.value(), config_or_default(config).sprp_trials as nat)
                &&& forall|q: nat| draw.value() <= q < p.value() ==> !is_prime_nat(q)
            },
            None => forall|q: nat| draw.value() <= q < T::limit() ==> !is_prime_nat(q),
        },
{
    if is_prime(draw, config).probably() {
        Some(draw.duplicate())
    } else {
        next_prime(draw, config)
    }
}

/// The safe prime that the prime `p` leads to: `p` itself where its half
/// passes the primality test of `is_prime` with the strict configuration,
/// of twelve prime bases; else `2p + 1` where the type holds it and it
/// passes the test. A `p` with a prime half is always kept, and what the
/// test rejects is no prime.
pub fn safe_prime_from<T: PrimalityBase>(p: &T) -> (r: Option<T>)
    ensures
        match r {
            Some(s) => if s.value() == p.value() {
                passes_test(p.value() / 2, 12)
            } else {
                &&& s.value() == 2 * p.value() + 1
                &&& !is_prime_nat(p.value() / 2)
                &&& p.value() / 2 <= u64::MAX ==> !miller_rabin_prime(p.value() / 2)
                &&& passes_test(s.value(), 12)
            },
            None => {
                &&& !is_prime_nat(p.value() / 2)
                &&& p.value() / 2 <= u64::MAX ==> !miller_rabin_prime(p.value() / 2)
                &&& 2 * p.value() + 1 >= T::limit() || !is_prime_nat(2 * p.value() + 1)
                &&& 2 * p.value() + 1 < T::limit() && 2 * p.value() + 1 <= u64::MAX
                    ==> !miller_rabin_prime(2 * p.value() + 1)
            },
        },
        is_prime_nat(p.value() / 2) ==> (r matches Some(s) && s.value() == p.value()),
{
    let config = Some(PrimalityTestConfig::strict());
    proof {
        lemma2_to64();
    }
    // test (p-1)/2
    if is_prime(&p.shift_right(1), config).probably() {
        return Some(p.duplicate());
    }
    // test 2p+1
    if let Some(p2) = p.twice_plus_one() {
        if is_prime(&p2, config).probably() {
            return Some(p2);
        }
    }
    None
}

} // verus!
