//! The strong probable prime test and the deterministic primality test on
//! 64-bit integers built from it.

use crate::modular::{lemma_fac2_unique, lemma_odd_part, odd_part, two_adicity};
use crate::primes::{is_prime_nat, lemma_fermat_little, lemma_sqrt_of_one};
use crate::tables::{
    lemma_small_primes_decide, lemma_witness_range, search_small_primes, witness64, witness_at,
};
use crate::traits::PrimalityBase;
use vstd::arithmetic::div_mod::*;
use vstd::arithmetic::mul::*;
use vstd::arithmetic::power::*;
use vstd::arithmetic::power2::*;
use vstd::prelude::*;

verus! {

/// `a ^ (d * 2^j) mod n`.
pub open spec fn sprp_power(n: nat, a: nat, d: nat, j: nat) -> int {
    pow(a as int, d * pow2(j)) % (n as int)
}

/// `n` is a strong probable prime to the base `a`: with `n - 1 == d * 2^s`
/// and `d` odd, either `a^d` is 1 modulo `n`, or one of `a^d`, `a^(2d)`, ..,
/// `a^(2^(s-1) d)` is -1 modulo `n`.
pub open spec fn sprp(n: nat, a: nat) -> bool {
    let s = two_adicity((n - 1) as nat);
    let d = odd_part((n - 1) as nat);
    sprp_power(n, a, d, 0) == 1 || exists|j: nat|
        j < s && #[trigger] sprp_power(n, a, d, j) == n - 1
}

/// Squaring moves from one power of the chain to the next.
proof fn lemma_sprp_square(n: nat, a: nat, d: nat, j: nat)
    requires
        n > 0,
    ensures
        sprp_power(n, a, d, j + 1) == (sprp_power(n, a, d, j) * sprp_power(n, a, d, j)) % (
        n as int),
{
    let e = d * pow2(j);
    lemma_pow2_unfold(j + 1);
    assert(d * pow2(j + 1) == e + e) by (nonlinear_arith)
        requires
            pow2(j + 1) == 2 * pow2(j),
            e == d * pow2(j),
    ;
    lemma_pow_adds(a as int, e, e);
    lemma_mul_mod_noop_general(pow(a as int, e), pow(a as int, e), n as int);
}

/// The chain starts at `a ^ d`.
proof fn lemma_sprp_start(n: nat, a: nat, d: nat)
    ensures
        sprp_power(n, a, d, 0) == pow(a as int, d) % (n as int),
{
    lemma2_to64();
    assert(d * 1 == d);
}

/// If the chain of a prime reaches 1, it started at 1 or passed -1 before.
proof fn lemma_sprp_descent(n: nat, a: nat, d: nat, r: nat)
    requires
        is_prime_nat(n),
        n > 2,
        sprp_power(n, a, d, r) == 1,
    ensures
        sprp_power(n, a, d, 0) == 1 || exists|j: nat|
            j < r && #[trigger] sprp_power(n, a, d, j) == n - 1,
    decreases r,
{
    if r > 0 {
        let q = (r - 1) as nat;
        let y = sprp_power(n, a, d, q);
        lemma_mod_bound(pow(a as int, d * pow2(q)), n as int);
        lemma_sprp_square(n, a, d, q);
        lemma_sqrt_of_one(n, y as nat);
        if y == 1 {
            lemma_sprp_descent(n, a, d, q);
        }
    }
}

/// The test looks at the base modulo `n` only.
pub proof fn lemma_sprp_mod(n: nat, a: nat)
    requires
        n > 0,
    ensures
        sprp(n, a % n) == sprp(n, a),
{
    let s = two_adicity((n - 1) as nat);
    let d = odd_part((n - 1) as nat);
    assert forall|j: nat| sprp_power(n, a % n, d, j) == #[trigger] sprp_power(n, a, d, j) by {
        lemma_pow_mod_noop(a as int, d * pow2(j), n as int);
    }
    if sprp(n, a % n) && sprp_power(n, a % n, d, 0) != 1 {
        let j = choose|j: nat| j < s && #[trigger] sprp_power(n, a % n, d, j) == n - 1;
        assert(sprp_power(n, a, d, j) == n - 1);
    }
    if sprp(n, a) && sprp_power(n, a, d, 0) != 1 {
        let j = choose|j: nat| j < s && #[trigger] sprp_power(n, a, d, j) == n - 1;
        assert(sprp_power(n, a % n, d, j) == n - 1);
    }
}

/// An odd prime is a strong probable prime to every base that it does not
/// divide.
pub proof fn lemma_prime_is_sprp(n: nat, a: nat)
    requires
        is_prime_nat(n),
        n > 2,
        a % n != 0,
    ensures
        sprp(n, a),
{
    let m = (n - 1) as nat;
    lemma_odd_part(m);
    lemma_fermat_little(n, a);
    lemma_sprp_descent(n, a, odd_part(m), two_adicity(m));
}

/// Whether `n` is a strong probable prime to the base `base`.
pub fn is_sprp<T: PrimalityBase>(n: &T, base: &T) -> (r: bool)
    requires
        n.value() > 2,
        n.value() % 2 == 1,
    ensures
        r == sprp(n.value(), base.value()),
{
    let nm1 = n.sub_small(1);
    let s = nm1.fac2();
    let d = nm1.shift_right(s);
    let ghost gd = odd_part(nm1.value());
    proof {
        lemma_fac2_unique(nm1.value(), s as nat);
        lemma_odd_part(nm1.value());
        T::lemma_limit();
    }
    let one = T::try_from_u64(1).unwrap();
    let mut x = base.powm(&d, n);
    proof {
        lemma_sprp_start(n.value(), base.value(), gd);
    }
    if x.equals(&one) {
        return true;
    }
    if x.equals(&nm1) {
        assert(sprp_power(n.value(), base.value(), gd, 0) == n.value() - 1);
        return true;
    }
    let mut i: usize = 1;
    while i < s
        invariant
            n.value() > 2,
            nm1.value() == n.value() - 1,
            1 <= i <= s,
            s == two_adicity(nm1.value()),
            gd == odd_part(nm1.value()),
            x.value() == sprp_power(n.value(), base.value(), gd, (i - 1) as nat),
            sprp_power(n.value(), base.value(), gd, 0) != 1,
            forall|j: nat|
                j < i ==> #[trigger] sprp_power(n.value(), base.value(), gd, j) != n.value() - 1,
        decreases s - i,
    {
        proof {
            lemma_sprp_square(n.value(), base.value(), gd, (i - 1) as nat);
        }
        x = x.mulm(&x, n);
        if x.equals(&nm1) {
            assert(sprp_power(n.value(), base.value(), gd, i as nat) == n.value() - 1);
            return true;
        }
        i = i + 1;
    }
    false
}

/// Whether `n` is a strong probable prime to every one of the bases.
pub fn is_sprp_to_all<T: PrimalityBase>(n: &T, bases: &Vec<u64>) -> (r: bool)
    requires
        n.value() > 2,
        n.value() % 2 == 1,
    ensures
        r == forall|i: int| 0 <= i < bases@.len() ==> sprp(n.value(), #[trigger] bases@[i] as nat),
{
    let mut i: usize = 0;
    let modulus = n.duplicate().as_u64();
    while i < bases.len()
        invariant
            0 <= i <= bases@.len(),
            n.value() > 2,
            n.value() % 2 == 1,
            n.value() < T::limit(),
            match modulus {
                Some(m) => m == n.value(),
                None => n.value() > u64::MAX,
            },
            forall|j: int| 0 <= j < i ==> sprp(n.value(), #[trigger] bases@[j] as nat),
        decreases bases@.len() - i,
    {
        // a base is of use modulo n only: reduce it where the type is too small
        let base = match T::try_from_u64(bases[i]) {
            Some(b) => b,
            None => {
                let m = modulus.unwrap();
                proof {
                    lemma_sprp_mod(n.value(), bases@[i as int] as nat);
                }
                T::try_from_u64(bases[i] % m).unwrap()
            },
        };
        if !is_sprp(n, &base) {
            return false;
        }
        i = i + 1;
    }
    true
}

/// The decision of the deterministic Miller-Rabin test on 64-bit integers:
/// small numbers are decided by the table of primes, larger ones by strong
/// probable prime tests to fixed bases chosen by the size of `n`.
pub open spec fn miller_rabin_prime(n: nat) -> bool {
    if n < 2 {
        false
    } else if n % 2 == 0 {
        n == 2
    } else if n < 0x100 {
        is_prime_nat(n)
    } else if n < 0x1_0000 {
        sprp(n, 2) && sprp(n, 3)
    } else if n < 0x1_0000_0000 {
        sprp(n, 2) && sprp(n, 7) && sprp(n, 61)
    } else {
        forall|i: int| 0 <= i < 7 ==> sprp(n, #[trigger] witness_at(i) as nat)
    }
}

/// The test accepts every prime below `2^64`.
pub proof fn lemma_miller_rabin_complete(n: nat)
    requires
        is_prime_nat(n),
        n <= u64::MAX,
    ensures
        miller_rabin_prime(n),
{
    if n % 2 == 0 {
        if n > 2 {
            assert(crate::divisibility::divides(2, n));
        }
    } else if n < 0x100 {
    } else if n < 0x1_0000 {
        lemma_small_mod(2, n);
        lemma_small_mod(3, n);
        lemma_prime_is_sprp(n, 2);
        lemma_prime_is_sprp(n, 3);
    } else if n < 0x1_0000_0000 {
        lemma_small_mod(2, n);
        lemma_small_mod(7, n);
        lemma_small_mod(61, n);
        lemma_prime_is_sprp(n, 2);
        lemma_prime_is_sprp(n, 7);
        lemma_prime_is_sprp(n, 61);
    } else {
        lemma_witness_range();
        assert forall|i: int| 0 <= i < 7 implies sprp(n, #[trigger] witness_at(i) as nat) by {
            lemma_small_mod(witness_at(i) as nat, n);
            lemma_prime_is_sprp(n, witness_at(i) as nat);
        }
    }
}

/// Below 256 the test accepts the primes and nothing else.
pub proof fn lemma_miller_rabin_exact_below_256(n: nat)
    requires
        n < 256,
    ensures
        miller_rabin_prime(n) <==> is_prime_nat(n),
{
    if n >= 2 && n % 2 == 0 {
        if n > 2 {
            assert(crate::divisibility::divides(2, n));
        } else {
            assert forall|d: nat| 1 < d < 2 implies !#[trigger] crate::divisibility::divides(
                d,
                2,
            ) by {}
        }
    }
}

/// The deterministic Miller-Rabin test accepts no composite number up to
/// `bound`. For every bound of 64 bits this is so by the choice of the bases,
/// which was found by exhaustive computation and has no proof here.
pub open spec fn miller_rabin_sound(bound: nat) -> bool {
    forall|q: nat| q <= bound && #[trigger] miller_rabin_prime(q) ==> is_prime_nat(q)
}

/// Primality test on a 64-bit integer by deterministic Miller-Rabin tests.
/// It accepts every prime, and below 256 nothing but primes.
pub fn is_prime64(target: u64) -> (r: bool)
    ensures
        r == miller_rabin_prime(target as nat),
        is_prime_nat(target as nat) ==> r,
        target < 256 || miller_rabin_sound(target as nat) ==> r == is_prime_nat(target as nat),
{
    proof {
        if is_prime_nat(target as nat) {
            lemma_miller_rabin_complete(target as nat);
        }
        if target < 256 {
            lemma_miller_rabin_exact_below_256(target as nat);
        }
    }
    if target < 2 {
        return false;
    }
    if target % 2 == 0 {
        return target == 2;
    }
    if target < 256 {
        proof {
            lemma_small_primes_decide(target as nat);
        }
        return search_small_primes(target as u8).is_ok();
    }
    if target < 0x1_0000 {
        return is_sprp(&target, &2) && is_sprp(&target, &3);
    }
    if target < 0x1_0000_0000 {
        return is_sprp(&target, &2) && is_sprp(&target, &7) && is_sprp(&target, &61);
    }
    let mut i: usize = 0;
    while i < 7
        invariant
            0 <= i <= 7,
            target >= 0x1_0000_0000,
            target % 2 == 1,
            is_prime_nat(target as nat) ==> miller_rabin_prime(target as nat),
            miller_rabin_sound(target as nat) && miller_rabin_prime(target as nat) ==> is_prime_nat(
                target as nat,
            ),
            forall|j: int| 0 <= j < i ==> sprp(target as nat, #[trigger] witness_at(j) as nat),
        decreases 7 - i,
    {
        if !is_sprp(&target, &witness64(i)) {
            return false;
        }
        i = i + 1;
    }
    true
}

} // verus!
