//! The Moebius function of a factor map, the factor map of the true prime
//! factorisation, and the table of the Moebius function of small odd
//! numbers.

use crate::divisibility::{
    divides, lemma_divides_combo, lemma_divides_trans, lemma_divides_witness,
    lemma_multiple_divides,
};
use crate::factor_map::{
    is_factorization, lemma_cofactor, lemma_key_divides_product, lemma_key_factor_divides_below,
    lemma_key_factor_positive, lemma_prime_map, lemma_prime_map_contains, lemma_prime_map_square,
    lemma_product_insert_new, prime_map,
};
use crate::primes::{is_prime_nat, least_divisor, lemma_least_divisor};
use crate::tables::MOEBIUS_ODD;
use vstd::arithmetic::div_mod::*;
use vstd::arithmetic::mul::*;
use vstd::arithmetic::power::*;
use vstd::prelude::*;

verus! {

/// Some key of the factor map has a multiplicity above one.
pub open spec fn has_square(m: Map<u64, usize>) -> bool {
    exists|p: u64| m.contains_key(p) && m[p] >= 2
}

/// The Moebius function of the number that a factor map stands for: 0 if a
/// key is repeated, else 1 or -1 as the number of keys is even or odd.
pub open spec fn map_moebius(m: Map<u64, usize>) -> int {
    if has_square(m) {
        0
    } else if m.dom().len() % 2 == 0 {
        1
    } else {
        -1
    }
}

/// `v` is the Moebius function of a factorisation of `n`.
pub open spec fn moebius_of(n: nat, v: int) -> bool {
    exists|m: Map<u64, usize>|
        m.dom().finite() && #[trigger] is_factorization(m, n) && v == map_moebius(m)
}

/// How the Moebius function of the prime map follows the least divisor.
pub proof fn lemma_prime_map_moebius(n: nat)
    requires
        2 <= n <= u64::MAX,
    ensures
        map_moebius(prime_map(n)) == if (n / least_divisor(n)) % least_divisor(n) == 0 {
            0
        } else {
            -map_moebius(prime_map(n / least_divisor(n)))
        },
{
    lemma_cofactor(n);
    let pn = least_divisor(n);
    let p = pn as u64;
    let k = n / pn;
    lemma_prime_map(k);
    lemma_prime_map(n);
    let m = prime_map(k);
    let m2 = prime_map(n);
    if k % pn == 0 {
        lemma_prime_map_contains(k, pn);
        assert(m2.contains_key(p) && m2[p] >= 2);
    } else {
        assert(!m.contains_key(p));
        assert(m2 == m.insert(p, 1));
        if has_square(m) {
            let q = choose|q: u64| m.contains_key(q) && m[q] >= 2;
            assert(m2.contains_key(q) && m2[q] >= 2);
        }
        if has_square(m2) {
            let q = choose|q: u64| m2.contains_key(q) && m2[q] >= 2;
            assert(m.contains_key(q) && m[q] >= 2);
        }
        assert(m2.dom() =~= m.dom().insert(p));
    }
}

/// `d` is above one and its square divides `n`.
pub open spec fn square_divides(d: nat, n: nat) -> bool {
    d >= 2 && n % (d * d) == 0
}

/// The square of some number above one divides `n`.
pub open spec fn has_square_divisor(n: nat) -> bool {
    exists|d: nat| square_divides(d, n)
}

/// A number with the Moebius function 0 is divisible by a square above one.
pub proof fn lemma_moebius_zero(n: nat)
    requires
        moebius_of(n, 0),
    ensures
        has_square_divisor(n),
{
    let m = choose|m: Map<u64, usize>|
        m.dom().finite() && #[trigger] is_factorization(m, n) && 0 == map_moebius(m);
    let p = choose|p: u64| m.contains_key(p) && m[p] >= 2;
    lemma_key_factor_divides_below(m, p, 0x1_0000_0000_0000_0000);
    lemma_key_factor_positive(m, p);
    let e = (m[p] - 2) as nat;
    lemma_pow_adds(p as int, 2, e);
    lemma_square_is_pow2(p as int);
    let f = pow(p as int, m[p] as nat);
    let sq = (p * p) as int;
    assert(sq >= 4) by (nonlinear_arith)
        requires
            sq == p * p,
            p >= 2,
    ;
    lemma_multiple_divides(sq, pow(p as int, e));
    lemma_divides_trans(sq, f, n as int);
    assert(square_divides(p as nat, n));
}

/// The Moebius function of `n`: 0 if the square of a prime divides `n`, else
/// 1 or -1 as the number of primes that divide `n` is even or odd.
pub open spec fn moebius_nat(n: nat) -> int {
    map_moebius(prime_map(n))
}

/// The Moebius function vanishes exactly where a square above one divides
/// the number.
pub proof fn lemma_moebius_nat_zero(n: nat)
    requires
        1 <= n <= u64::MAX,
    ensures
        moebius_nat(n) == 0 <==> has_square_divisor(n),
{
    lemma_prime_map(n);
    if moebius_nat(n) == 0 {
        assert(is_factorization(prime_map(n), n));
        lemma_moebius_zero(n);
    }
    if has_square_divisor(n) {
        let d = choose|d: nat| square_divides(d, n);
        lemma_least_divisor(d);
        let q = least_divisor(d);
        // q * q divides d * d, which divides n
        lemma_divides_witness(q as int, d as int);
        let c = (d / q) as int;
        assert(d * d == (q * q) * (c * c)) by (nonlinear_arith)
            requires
                d as int == q * c,
        ;
        assert(q * q >= 4 && d * d >= 4) by (nonlinear_arith)
            requires
                q >= 2,
                d >= 2,
        ;
        lemma_multiple_divides((q * q) as int, c * c);
        lemma_divides_trans((q * q) as int, (d * d) as int, n as int);
        lemma_prime_map_square(n, q);
    }
}

/// The Moebius function of twice an odd number is the opposite of that of
/// the number; that of four times a number is 0.
pub proof fn lemma_moebius_nat_even(n: nat)
    requires
        2 <= n <= u64::MAX,
        n % 2 == 0,
    ensures
        moebius_nat(n) == if n % 4 == 0 {
            0
        } else {
            -moebius_nat(n / 2)
        },
{
    lemma_least_divisor(n);
    assert(divides(2, n));
    assert(least_divisor(n) == 2);
    lemma_prime_map_moebius(n);
}

/// Doubling an odd number changes the sign of its Moebius function.
pub proof fn lemma_moebius_double(k: nat, v: int)
    requires
        k % 2 == 1,
        2 * k <= u64::MAX,
        moebius_of(k, v),
    ensures
        moebius_of(2 * k, -v),
{
    let m = choose|m: Map<u64, usize>|
        m.dom().finite() && #[trigger] is_factorization(m, k) && v == map_moebius(m);
    if m.contains_key(2) {
        lemma_key_divides_product(m, 2);
    }
    let m2 = m.insert(2, 1);
    lemma_product_insert_new(m, 2, 1);
    lemma_pow1(2);
    if has_square(m) {
        let q = choose|q: u64| m.contains_key(q) && m[q] >= 2;
        assert(m2.contains_key(q) && m2[q] >= 2);
    }
    if has_square(m2) {
        let q = choose|q: u64| m2.contains_key(q) && m2[q] >= 2;
        assert(m.contains_key(q) && m[q] >= 2);
    }
    assert(m2.dom() =~= m.dom().insert(2));
    assert(is_factorization(m2, 2 * k));
}

/// A number that the square of a prime divides has the Moebius function 0.
pub proof fn lemma_moebius_square(n: nat, q: nat)
    requires
        1 <= n <= u64::MAX,
        is_prime_nat(q),
        n % (q * q) == 0,
    ensures
        moebius_of(n, 0),
{
    lemma_prime_map(n);
    lemma_prime_map_square(n, q);
    assert(is_factorization(prime_map(n), n));
}

/// The Moebius function of the prime map is one of those of `n`.
pub proof fn lemma_moebius_prime_map(n: nat)
    requires
        1 <= n <= u64::MAX,
    ensures
        moebius_of(n, map_moebius(prime_map(n))),
{
    lemma_prime_map(n);
    assert(is_factorization(prime_map(n), n));
}

/// The word `k` of the table of the Moebius function.
pub open spec fn moebius_word(k: u64) -> u64 {
    if k == 0 {
        0x4289108a05208102
    } else if k == 1 {
        0x19988004a8a12422
    } else if k == 2 {
        0x1a8245028906a062
    } else {
        0x229428012aa26a00
    }
}

/// The two bits that the table of the Moebius function holds for the odd
/// number `n`: the function plus one.
pub open spec fn moebius_bits(n: u64) -> u64 {
    (moebius_word(((n - 1) as u64) >> 6) >> (((n - 1) as u64) & 63)) & 3
}

/// The table follows the rule by which the Moebius function is found from
/// the least prime factor `p` of `n`: 0 if `p` divides `n / p`, else the
/// opposite of the function of `n / p`.
proof fn lemma_moebius_table(n: u64)
    by (bit_vector)
    requires
        n % 2 == 1,
        3 <= n,
        n < 256,
    ensures
        n % 3 == 0 ==> (if (n / 3) % 3 == 0 {
            moebius_bits(n) == 1
        } else {
            moebius_bits(n) + moebius_bits(n / 3) == 2
        }),
        n % 3 != 0 && n % 5 == 0 ==> (if (n / 5) % 5 == 0 {
            moebius_bits(n) == 1
        } else {
            moebius_bits(n) + moebius_bits(n / 5) == 2
        }),
        n % 3 != 0 && n % 5 != 0 && n % 7 == 0 ==> (if (n / 7) % 7 == 0 {
            moebius_bits(n) == 1
        } else {
            moebius_bits(n) + moebius_bits(n / 7) == 2
        }),
        n % 3 != 0 && n % 5 != 0 && n % 7 != 0 && n % 11 == 0 ==> (if (n / 11) % 11 == 0 {
            moebius_bits(n) == 1
        } else {
            moebius_bits(n) + moebius_bits(n / 11) == 2
        }),
        n % 3 != 0 && n % 5 != 0 && n % 7 != 0 && n % 11 != 0 && n % 13 == 0 ==> (if (n / 13) % 13
            == 0 {
            moebius_bits(n) == 1
        } else {
            moebius_bits(n) + moebius_bits(n / 13) == 2
        }),
        n % 3 != 0 && n % 5 != 0 && n % 7 != 0 && n % 11 != 0 && n % 13 != 0 ==> moebius_bits(n)
            == 0,
        moebius_bits(1) == 2,
{
}

/// The least divisor of an odd number below 256: the first of 3, 5, 7, 11
/// and 13 that divides it, or the number itself.
proof fn lemma_least_divisor_small(n: nat)
    requires
        n % 2 == 1,
        3 <= n < 256,
    ensures
        least_divisor(n) == if n % 3 == 0 {
            3
        } else if n % 5 == 0 {
            5
        } else if n % 7 == 0 {
            7
        } else if n % 11 == 0 {
            11
        } else if n % 13 == 0 {
            13
        } else {
            n
        },
{
    lemma_least_divisor(n);
    let l = least_divisor(n);
    assert(!divides(2, l) || l <= 2);
    assert(!divides(3, l) || l <= 3);
    assert(!divides(5, l) || l <= 5);
    assert(!divides(7, l) || l <= 7);
    assert(l < n ==> l < 16) by (nonlinear_arith)
        requires
            l < n ==> l * l <= n,
            n < 256,
    ;
    assert(divides(l, n));
    if n % 3 == 0 {
        assert(divides(3, n));
    } else if n % 5 == 0 {
        assert(divides(5, n));
    } else if n % 7 == 0 {
        assert(divides(7, n));
    } else if n % 11 == 0 {
        assert(divides(11, n));
    } else if n % 13 == 0 {
        assert(divides(13, n));
    }
}

/// For the odd numbers below 256 the table holds the Moebius function of the
/// prime factorisation.
pub proof fn lemma_moebius_small(n: u64)
    requires
        n % 2 == 1,
        n < 256,
    ensures
        map_moebius(prime_map(n as nat)) == moebius_bits(n) - 1,
    decreases n,
{
    lemma_moebius_table(if n >= 3 {
        n
    } else {
        3
    });
    if n == 1 {
        assert(!has_square(prime_map(1)));
        assert(prime_map(1).dom() =~= Set::<u64>::empty());
    } else {
        lemma_least_divisor_small(n as nat);
        lemma_cofactor(n as nat);
        lemma_prime_map_moebius(n as nat);
        let p = least_divisor(n as nat);
        let k = (n as nat / p) as u64;
        assert(k % 2 == 1) by {
            if k % 2 == 0 {
                lemma_divides_combo(2, k as int, k as int, p as int, 0);
            }
        }
        lemma_moebius_small(k);
        if p == n {
            assert(k == 1) by (nonlinear_arith)
                requires
                    n == p * k,
                    p == n,
                    n >= 3,
            ;
            lemma_small_mod(1, n as nat);
        }
    }
}

/// The Moebius function of an odd number below 256, from the table.
pub fn moebius_odd(n: u8) -> (r: i8)
    requires
        n % 2 == 1,
    ensures
        r == moebius_bits(n as u64) - 1,
        r == moebius_nat(n as nat),
        moebius_of(n as nat, r as int),
{
    let v = (n - 1) as u64;
    assert(v >> 6 < 4 && (v & 63) < 64) by (bit_vector)
        requires
            v < 256,
    ;
    let word = MOEBIUS_ODD[(v >> 6) as usize];
    let bits = (word >> (v & 63)) & 3;
    assert(bits <= 3) by (bit_vector)
        requires
            bits == (word >> (v & 63)) & 3,
    ;
    proof {
        lemma_moebius_small(n as u64);
        lemma_moebius_prime_map(n as nat);
    }
    bits as i8 - 1
}

} // verus!
