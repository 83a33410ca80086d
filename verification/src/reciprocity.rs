//! The Legendre symbol, Gauss's lemma and the law of quadratic reciprocity,
//! by which the Jacobi symbol of the modular operations is the product of
//! the Legendre symbols of the prime factors.

use crate::divisibility::{
    divides, gcd, lemma_coprime_divides_product, lemma_divides_combo, lemma_divides_trans,
    lemma_divides_witness, lemma_divisor_le, lemma_gcd_divides, lemma_gcd_greatest,
    lemma_gcd_symmetric, lemma_inverse_unique, lemma_multiple_divides,
};
use crate::modular::{jacobi_symbol, reciprocity_sign, two_sign};
use crate::primes::{
    factorial, is_prime_nat, least_divisor, lemma_euclid, lemma_factorial_coprime,
    lemma_fermat_little, lemma_least_divisor, lemma_multiples_product, lemma_permutation_product,
    lemma_prime_coprime, lemma_product_remove, lemma_sqrt_of_one, multiples_mod, seq_product,
};
use vstd::arithmetic::div_mod::*;
use vstd::arithmetic::mul::*;
use vstd::arithmetic::power::*;
use vstd::prelude::*;

verus! {

/// `p` is an odd prime.
pub open spec fn odd_prime(p: nat) -> bool {
    is_prime_nat(p) && p % 2 == 1
}

/// `a ^ ((p - 1) / 2) mod p`.
pub open spec fn euler_power(a: nat, p: nat) -> int {
    pow(a as int, ((p - 1) / 2) as nat) % (p as int)
}

/// The symbol of Euler's criterion for an odd prime `p`: 0 where `p`
/// divides `a`, else 1 or -1 as `a ^ ((p - 1) / 2)` is 1 or -1 modulo `p`.
/// By Euler's criterion it is the Legendre symbol.
pub open spec fn euler_symbol(a: nat, p: nat) -> int {
    if a % p == 0 {
        0
    } else if euler_power(a, p) == 1 {
        1
    } else {
        -1
    }
}

/// The power of Euler's criterion is 1 or -1 modulo `p`.
pub proof fn lemma_euler_power(a: nat, p: nat)
    requires
        odd_prime(p),
        a % p != 0,
    ensures
        euler_power(a, p) == 1 || euler_power(a, p) == p - 1,
        p >= 3,
{
    if p == 2 {
    }
    let h = ((p - 1) / 2) as nat;
    let x = euler_power(a, p);
    lemma_mod_bound(pow(a as int, h), p as int);
    lemma_pow_adds(a as int, h, h);
    lemma_mul_mod_noop_general(pow(a as int, h), pow(a as int, h), p as int);
    lemma_fermat_little(p, a);
    lemma_sqrt_of_one(p, x as nat);
}

/// The symbol of Euler's criterion depends on `a` modulo `p` only.
pub proof fn lemma_euler_symbol_mod(a: nat, p: nat)
    requires
        p > 0,
    ensures
        euler_symbol(a % p, p) == euler_symbol(a, p),
{
    lemma_mod_twice(a as int, p as int);
    lemma_pow_mod_noop(a as int, ((p - 1) / 2) as nat, p as int);
}

/// The symbol of Euler's criterion is multiplicative.
pub proof fn lemma_euler_symbol_mul(a: nat, b: nat, p: nat)
    requires
        odd_prime(p),
    ensures
        euler_symbol(a * b, p) == euler_symbol(a, p) * euler_symbol(b, p),
{
    let h = ((p - 1) / 2) as nat;
    if (a * b) % p == 0 {
        lemma_euclid(p, a, b);
    } else {
        if a % p == 0 {
            lemma_divides_combo(p as int, a as int, a as int, b as int, 0);
            lemma_mul_is_commutative(a as int, b as int);
        }
        if b % p == 0 {
            lemma_divides_combo(p as int, b as int, b as int, a as int, 0);
        }
        lemma_euler_power(a, p);
        lemma_euler_power(b, p);
        lemma_euler_power(a * b, p);
        lemma_pow_distributes(a as int, b as int, h);
        lemma_mul_mod_noop_general(pow(a as int, h), pow(b as int, h), p as int);
        let x = euler_power(a, p);
        let y = euler_power(b, p);
        // (p - 1) * (p - 1) == 1 and (p - 1) * 1 == p - 1 modulo p
        if x == p - 1 && y == p - 1 {
            assert(x * y == p * (p - 2) + 1) by (nonlinear_arith)
                requires
                    x == p - 1,
                    y == p - 1,
            ;
            lemma_mod_multiples_vanish(p - 2, 1, p as int);
            lemma_small_mod(1, p);
        } else if x == p - 1 {
            assert(x * y == x) by (nonlinear_arith)
                requires
                    y == 1,
            ;
            lemma_small_mod(x as nat, p);
        } else if y == p - 1 {
            assert(x * y == y) by (nonlinear_arith)
                requires
                    x == 1,
            ;
            lemma_small_mod(y as nat, p);
        } else {
            assert(x * y == 1) by (nonlinear_arith)
                requires
                    x == 1,
                    y == 1,
            ;
            lemma_small_mod(1, p);
        }
    }
}

/// A square that `p` does not divide has the symbol 1 of Euler's criterion:
/// the quadratic residues are among the numbers with the symbol 1.
pub proof fn lemma_euler_symbol_square(x: nat, p: nat)
    requires
        odd_prime(p),
        x % p != 0,
    ensures
        euler_symbol(x * x, p) == 1,
{
    lemma_euler_symbol_mul(x, x, p);
    lemma_euler_power(x, p);
    let l = euler_symbol(x, p);
    assert(l * l == 1) by (nonlinear_arith)
        requires
            l == 1 || l == -1,
    ;
}

/// `a` is a quadratic residue of `p`: the square of a number that `p` does
/// not divide, modulo `p`.
pub open spec fn is_residue(a: nat, p: nat) -> bool {
    exists|x: nat| square_root(a, p, x)
}

/// `x`, between 0 and `p`, is a square root of `a` modulo `p`.
pub open spec fn square_root(a: nat, p: nat, x: nat) -> bool {
    0 < x < p && (x * x) % p == a % p
}

/// A sequence whose entries are paired, the product of each pair being `c`
/// modulo `p`, has a product of `c` to the number of pairs.
proof fn lemma_paired_product(s: Seq<int>, p: nat, c: int, partner: spec_fn(int) -> int)
    requires
        p > 0,
        forall|i: int, j: int| 0 <= i < j < s.len() ==> s[i] != s[j],
        forall|i: int|
            0 <= i < s.len() ==> s.contains(#[trigger] partner(s[i])) && partner(s[i]) != s[i]
                && partner(partner(s[i])) == s[i] && (s[i] * partner(s[i])) % (p as int) == c % (
            p as int),
    ensures
        s.len() % 2 == 0,
        seq_product(s) % (p as int) == pow(c, s.len() / 2) % (p as int),
    decreases s.len(),
{
    reveal(pow);
    if s.len() == 0 {
    } else {
        let x = s[0];
        let y = partner(x);
        let j = choose|j: int| 0 <= j < s.len() && s[j] == y;
        let u = s.remove(j);
        let t = u.remove(0);
        assert(u[0] == x);
        assert forall|i: int| 0 <= i < t.len() implies t[i] == s[if i + 1 < j {
            i + 1
        } else {
            i + 2
        }] by {
            assert(t[i] == u[i + 1]);
        }
        assert forall|i: int, k: int| 0 <= i < k < t.len() implies t[i] != t[k] by {}
        assert forall|i: int| 0 <= i < t.len() implies t.contains(#[trigger] partner(t[i]))
            && partner(t[i]) != t[i] && partner(partner(t[i])) == t[i] && (t[i] * partner(t[i]))
            % (p as int) == c % (p as int) by {
            let si = if i + 1 < j {
                i + 1
            } else {
                i + 2
            };
            let z = s[si];
            let w = partner(z);
            let sk = choose|k: int| 0 <= k < s.len() && s[k] == w;
            // w is neither x nor y, so it stands in t
            assert(sk != 0 && sk != j);
            let tk = if sk < j {
                sk - 1
            } else {
                sk - 2
            };
            assert(t[tk] == w);
        }
        lemma_paired_product(t, p, c, partner);
        lemma_product_remove(s, j);
        lemma_product_remove(u, 0);
        let pt = seq_product(t);
        let e = (t.len() / 2) as nat;
        assert(seq_product(s) == (x * y) * pt) by (nonlinear_arith)
            requires
                seq_product(s) == y * seq_product(u),
                seq_product(u) == x * pt,
        ;
        lemma_mul_mod_noop_general(x * y, pt, p as int);
        lemma_mul_mod_noop_general(c, pow(c, e), p as int);
        assert(s.len() / 2 == e + 1);
    }
}

/// The inverse of `x` modulo the prime `p`: `x ^ (p - 2) mod p`.
pub open spec fn inverse_mod(x: int, p: nat) -> int {
    pow(x, (p - 2) as nat) % (p as int)
}

/// The inverse of a number between 0 and `p` lies between 0 and `p`, is its
/// inverse, and has the number as its inverse.
proof fn lemma_inverse_mod(x: int, p: nat)
    requires
        is_prime_nat(p),
        0 < x < p,
    ensures
        0 < inverse_mod(x, p) < p,
        (x * inverse_mod(x, p)) % (p as int) == 1,
        inverse_mod(inverse_mod(x, p), p) == x,
{
    let y = inverse_mod(x, p);
    lemma_small_mod(x as nat, p);
    lemma_fermat_little(p, x as nat);
    lemma_pow_adds(x, 1, (p - 2) as nat);
    lemma_pow1(x);
    lemma_mul_mod_noop_right(x, pow(x, (p - 2) as nat), p as int);
    lemma_mod_bound(pow(x, (p - 2) as nat), p as int);
    if y == 0 {
        assert(x * 0 == 0);
        lemma_small_mod(0, p);
    }
    // the inverse of y is x, by the uniqueness of inverses
    let z = inverse_mod(y, p);
    lemma_small_mod(y as nat, p);
    lemma_fermat_little(p, y as nat);
    lemma_pow_adds(y, 1, (p - 2) as nat);
    lemma_pow1(y);
    lemma_mul_mod_noop_right(y, pow(y, (p - 2) as nat), p as int);
    lemma_mod_bound(pow(y, (p - 2) as nat), p as int);
    lemma_mul_is_commutative(x, y);
    lemma_small_mod(1, p);
    if z == 0 {
        assert(y * 0 == 0);
        lemma_small_mod(0, p);
    }
    lemma_inverse_unique(y as nat, x as nat, z as nat, p);
}

/// The numbers from `lo` on, `n` of them.
pub open spec fn range_seq(lo: int, n: nat) -> Seq<int> {
    Seq::new(n, |i: int| lo + i)
}

/// The inverse of a number from 2 to `p - 2` is such a number and another
/// one, and has the number as its inverse.
proof fn lemma_inverse_inner(x: int, p: nat)
    requires
        is_prime_nat(p),
        2 <= x <= p - 2,
    ensures
        2 <= inverse_mod(x, p) <= p - 2,
        inverse_mod(x, p) != x,
        inverse_mod(inverse_mod(x, p), p) == x,
        (x * inverse_mod(x, p)) % (p as int) == 1,
{
    let y = inverse_mod(x, p);
    let m = p as int;
    lemma_inverse_mod(x, p);
    assert(0 < y < p);
    assert((x * y) % m == 1);
    lemma_small_mod(x as nat, p);
    assert(x % m == x);
    if y == 1 {
        assert(x * y == x) by (nonlinear_arith)
            requires
                y == 1,
        ;
        assert(false);
    }
    if y == p - 1 {
        // x * (p - 1) + x is a multiple of p, so that 1 + x is one
        assert(x * y + x == m * x) by (nonlinear_arith)
            requires
                y == m - 1,
        ;
        lemma_mod_multiples_basic(x, m);
        lemma_mul_is_commutative(x, m);
        assert((x * y + x) % m == 0);
        lemma_add_mod_noop(x * y, x, m);
        assert((1 + x) % m == 0);
        lemma_small_mod((1 + x) as nat, p);
        assert(false);
    }
    if y == x {
        assert((x * x) % m == 1);
        lemma_sqrt_of_one(p, x as nat);
        assert(false);
    }
}

/// Wilson's theorem: `(p - 1)!` is -1 modulo a prime `p`.
pub proof fn lemma_wilson(p: nat)
    requires
        is_prime_nat(p),
    ensures
        factorial((p - 1) as nat) % p == p - 1,
{
    if p == 2 {
        reveal_with_fuel(factorial, 2);
    } else {
        let all = range_seq(1, (p - 1) as nat);
        let inner = range_seq(2, (p - 3) as nat);
        lemma_permutation_product(all, (p - 1) as nat);
        // the numbers from 2 to p - 2 are paired with their inverses
        let partner = |x: int| inverse_mod(x, p);
        assert forall|i: int| 0 <= i < inner.len() implies inner.contains(
            #[trigger] partner(inner[i]),
        ) && partner(inner[i]) != inner[i] && partner(partner(inner[i])) == inner[i] && (inner[i]
            * partner(inner[i])) % (p as int) == 1int % (p as int) by {
            let x = inner[i];
            assert(x == 2 + i);
            let y = inverse_mod(x, p);
            lemma_inverse_inner(x, p);
            lemma_small_mod(1, p);
            assert(partner(x) == y);
            assert(partner(y) == inverse_mod(y, p));
            assert(0 <= y - 2 < inner.len());
            assert(inner[y - 2] == y);
        }
        lemma_paired_product(inner, p, 1, partner);
        lemma1_pow(inner.len() / 2);
        lemma_small_mod(1, p);
        // (p - 1)! == 1 * (2 * .. * (p - 2)) * (p - 1)
        let front = all.drop_last();
        assert(front.remove(0) =~= inner);
        lemma_product_remove(front, 0);
        let pi = seq_product(inner);
        assert(seq_product(all) == pi * (p - 1)) by (nonlinear_arith)
            requires
                seq_product(all) == seq_product(front) * (p - 1),
                seq_product(front) == 1 * pi,
        ;
        lemma_mul_mod_noop_left(pi, p - 1, p as int);
        assert(1 * (p - 1) == p - 1);
        lemma_small_mod((p - 1) as nat, p);
    }
}

/// Euler's criterion: a number that `p` does not divide has the symbol 1
/// exactly if it is a quadratic residue of `p`.
pub proof fn lemma_euler_criterion(a: nat, p: nat)
    requires
        odd_prime(p),
        a % p != 0,
    ensures
        euler_symbol(a, p) == 1 <==> is_residue(a, p),
{
    lemma_euler_power(a, p);
    if is_residue(a, p) {
        let x = choose|x: nat| square_root(a, p, x);
        lemma_small_mod(x, p);
        lemma_euler_symbol_square(x, p);
        lemma_euler_symbol_mod(x * x, p);
        lemma_euler_symbol_mod(a, p);
    } else {
        // the numbers from 1 to p - 1 are paired, with a as the product of
        // each pair
        let h = ((p - 1) / 2) as nat;
        let all = range_seq(1, (p - 1) as nat);
        let r = a % p;
        lemma_mod_bound(a as int, p as int);
        let partner = |x: int| (r * inverse_mod(x, p)) % (p as int);
        assert forall|i: int| 0 <= i < all.len() implies all.contains(
            #[trigger] partner(all[i]),
        ) && partner(all[i]) != all[i] && partner(partner(all[i])) == all[i] && (all[i] * partner(
            all[i],
        )) % (p as int) == (a as int) % (p as int) by {
            let x = all[i];
            assert(x == 1 + i);
            let y = (r * inverse_mod(x, p)) % (p as int);
            lemma_residue_pair(a, p, x);
            assert(partner(x) == y);
            assert(partner(y) == (r * inverse_mod(y, p)) % (p as int));
            assert(0 <= y - 1 < all.len());
            assert(all[y - 1] == y);
        }
        lemma_paired_product(all, p, a as int, partner);
        lemma_permutation_product(all, (p - 1) as nat);
        lemma_wilson(p);
        assert(all.len() / 2 == h);
    }
}

/// For a number `a` that is no quadratic residue of `p`, the partner of a
/// number `x` between 0 and `p` is such a number and another one, has `x` as
/// its partner, and has the product `a` with `x` modulo `p`.
proof fn lemma_residue_pair(a: nat, p: nat, x: int)
    requires
        is_prime_nat(p),
        a % p != 0,
        !is_residue(a, p),
        0 < x < p,
    ensures
        0 < (a % p * inverse_mod(x, p)) % (p as int) < p,
        (a % p * inverse_mod(x, p)) % (p as int) != x,
        (a % p * inverse_mod((a % p * inverse_mod(x, p)) % (p as int), p)) % (p as int) == x,
        (x * ((a % p * inverse_mod(x, p)) % (p as int))) % (p as int) == a % p,
{
    let r = a % p;
    let m = p as int;
    lemma_mod_bound(a as int, m);
    assert(0 < r < p);
    let y = (r * inverse_mod(x, p)) % m;
    lemma_residue_partner(r, p, x);
    assert(0 < y < p);
    assert((x * y) % m == r);
    if y == x {
        assert((x * x) % m == r);
        assert(square_root(a, p, x as nat));
        assert(false);
    }
    // the partner of y is x: both have the product r with y
    let z = (r * inverse_mod(y, p)) % m;
    lemma_residue_partner(r, p, y);
    assert(0 < z < p);
    assert((y * z) % m == r);
    lemma_mul_is_commutative(x, y);
    assert((y * x) % m == r);
    lemma_cancel(p, y as nat, x as nat, z as nat);
}

/// The partner of `x` for the residue `r`: between 0 and `p`, with the
/// product `r` with `x`.
proof fn lemma_residue_partner(r: nat, p: nat, x: int)
    requires
        is_prime_nat(p),
        0 < r < p,
        0 < x < p,
    ensures
        0 < (r * inverse_mod(x, p)) % (p as int) < p,
        (x * ((r * inverse_mod(x, p)) % (p as int))) % (p as int) == r,
{
    let v = inverse_mod(x, p);
    let y = (r * v) % (p as int);
    lemma_inverse_mod(x, p);
    lemma_mod_bound(r * v, p as int);
    if y == 0 {
        lemma_euclid(p, r, v as nat);
        lemma_small_mod(r, p);
        lemma_small_mod(v as nat, p);
    }
    // x * y == x * r * v == r modulo p
    lemma_mul_mod_noop_right(x, r * v, p as int);
    assert(x * (r * v) == r * (x * v)) by (nonlinear_arith);
    lemma_mul_mod_noop_right(r as int, x * v, p as int);
    assert(r * 1 == r);
    lemma_small_mod(r, p);
}

/// Modulo a prime a factor that the prime does not divide cancels.
proof fn lemma_cancel(p: nat, y: nat, x: nat, z: nat)
    requires
        is_prime_nat(p),
        0 < y < p,
        x < p,
        z < p,
        (y * x) % p == (y * z) % p,
    ensures
        x == z,
{
    if x != z {
        let hi = if x > z { x } else { z };
        let lo = if x > z { z } else { x };
        let d = (hi - lo) as nat;
        assert((y * d) as int == (y * hi) as int - (y * lo) as int) by (nonlinear_arith)
            requires
                d == hi - lo,
        ;
        lemma_mod_equivalence((y * hi) as int, (y * lo) as int, p as int);
        lemma_euclid(p, y, d);
        lemma_small_mod(y, p);
        lemma_small_mod(d, p);
    }
}

/// The sign of the residue of `a * k`: -1 where it lies in the upper half of
/// the residues of `p`.
pub open spec fn half_sign(a: nat, p: nat, k: nat) -> int {
    if (a * k) % p > (p - 1) / 2 {
        -1
    } else {
        1
    }
}

/// The product of the signs of the residues of `a, 2a, .., na`.
pub open spec fn gauss_sign(a: nat, p: nat, n: nat) -> int
    decreases n,
{
    if n == 0 {
        1
    } else {
        gauss_sign(a, p, (n - 1) as nat) * half_sign(a, p, n)
    }
}

/// The least absolute residue of `a * k` modulo `p`, without its sign.
pub open spec fn least_residue(a: nat, p: nat, k: nat) -> int {
    if (a * k) % p > (p - 1) / 2 {
        p - (a * k) % p
    } else {
        ((a * k) % p) as int
    }
}

/// The least absolute residues of `a, 2a, .., na`.
pub open spec fn least_residues(a: nat, p: nat, n: nat) -> Seq<int> {
    Seq::new(n, |i: int| least_residue(a, p, (i + 1) as nat))
}

/// The sign is 1 or -1.
pub proof fn lemma_gauss_sign_range(a: nat, p: nat, n: nat)
    ensures
        gauss_sign(a, p, n) == 1 || gauss_sign(a, p, n) == -1,
    decreases n,
{
    if n > 0 {
        lemma_gauss_sign_range(a, p, (n - 1) as nat);
        let g = gauss_sign(a, p, (n - 1) as nat);
        let s = half_sign(a, p, n);
        assert(g * s == 1 || g * s == -1) by (nonlinear_arith)
            requires
                g == 1 || g == -1,
                s == 1 || s == -1,
        ;
    }
}

/// The product of the residues is the product of the least absolute
/// residues times the product of the signs, modulo `p`.
proof fn lemma_signed_product(a: nat, p: nat, n: nat)
    requires
        p > 0,
    ensures
        seq_product(multiples_mod(a as int, p as int, n)) % (p as int) == (gauss_sign(a, p, n)
            * seq_product(least_residues(a, p, n))) % (p as int),
    decreases n,
{
    if n > 0 {
        let m = (n - 1) as nat;
        lemma_signed_product(a, p, m);
        let rs = multiples_mod(a as int, p as int, n);
        let ls = least_residues(a, p, n);
        assert(rs.drop_last() =~= multiples_mod(a as int, p as int, m));
        assert(ls.drop_last() =~= least_residues(a, p, m));
        let r = (a * n) % p;
        let l = least_residue(a, p, n);
        let s = half_sign(a, p, n);
        let pr = seq_product(multiples_mod(a as int, p as int, m));
        let pl = seq_product(least_residues(a, p, m));
        let g = gauss_sign(a, p, m);
        assert(rs.last() == r);
        assert(ls.last() == l);
        // r == s * l modulo p
        assert((r - s * l) % (p as int) == 0) by {
            if s == -1 {
                assert(r - s * l == p) by (nonlinear_arith)
                    requires
                        s == -1,
                        l == p - r,
                ;
                lemma_mod_self_0(p as int);
            } else {
                assert(r - s * l == 0) by (nonlinear_arith)
                    requires
                        s == 1,
                        l == r,
                ;
                lemma_small_mod(0, p);
            }
        }
        lemma_mod_equivalence(r as int, s * l, p as int);
        // pr * r == (g * pl) * (s * l) modulo p
        lemma_mul_mod_noop_general(pr, r as int, p as int);
        lemma_mul_mod_noop_general(g * pl, s * l, p as int);
        assert((g * pl) * (s * l) == (g * s) * (pl * l)) by (nonlinear_arith);
    }
}

/// The sum of the entries of a sequence.
pub open spec fn seq_sum(s: Seq<int>) -> int
    decreases s.len(),
{
    if s.len() == 0 {
        0
    } else {
        seq_sum(s.drop_last()) + s.last()
    }
}

/// `1 + 2 + .. + n`.
pub open spec fn triangle(n: nat) -> nat
    decreases n,
{
    if n == 0 {
        0
    } else {
        n + triangle((n - 1) as nat)
    }
}

proof fn lemma_sum_remove(s: Seq<int>, k: int)
    requires
        0 <= k < s.len(),
    ensures
        seq_sum(s) == s[k] + seq_sum(s.remove(k)),
    decreases s.len(),
{
    let t = s.drop_last();
    if k == s.len() - 1 {
        assert(s.remove(k) =~= t);
    } else {
        lemma_sum_remove(t, k);
        let r = s.remove(k);
        assert(r.drop_last() =~= t.remove(k));
        assert(r.last() == s.last());
    }
}

/// A sequence of `n` or more distinct values from `1..=n` has length `n` and
/// the sum `1 + 2 + .. + n`.
proof fn lemma_permutation_sum(s: Seq<int>, n: nat)
    requires
        s.len() >= n,
        forall|i: int| 0 <= i < s.len() ==> 1 <= #[trigger] s[i] <= n,
        forall|i: int, j: int| 0 <= i < j < s.len() ==> s[i] != s[j],
    ensures
        s.len() == n,
        seq_sum(s) == triangle(n),
    decreases n,
{
    if n == 0 {
        if s.len() > 0 {
            assert(1 <= s[0]);
        }
    } else if exists|k: int| 0 <= k < s.len() && s[k] == n {
        let k = choose|k: int| 0 <= k < s.len() && s[k] == n;
        let t = s.remove(k);
        assert forall|i: int| 0 <= i < t.len() implies 1 <= #[trigger] t[i] <= n - 1 by {
            if i < k {
                assert(t[i] == s[i]);
            } else {
                assert(t[i] == s[i + 1]);
            }
        }
        assert forall|i: int, j: int| 0 <= i < j < t.len() implies t[i] != t[j] by {
            let si = if i < k { i } else { i + 1 };
            let sj = if j < k { j } else { j + 1 };
            assert(t[i] == s[si] && t[j] == s[sj]);
        }
        lemma_permutation_sum(t, (n - 1) as nat);
        lemma_sum_remove(s, k);
    } else {
        assert forall|i: int| 0 <= i < s.len() implies 1 <= #[trigger] s[i] <= n - 1 by {}
        lemma_permutation_sum(s, (n - 1) as nat);
    }
}

/// The least absolute residue of `a * k` lies between 1 and `(p - 1) / 2`.
proof fn lemma_least_residue_range(a: nat, p: nat, k: nat)
    requires
        odd_prime(p),
        a % p != 0,
        1 <= k <= (p - 1) / 2,
    ensures
        1 <= least_residue(a, p, k) <= (p - 1) / 2,
{
    lemma_mod_bound((a * k) as int, p as int);
    if (a * k) % p == 0 {
        lemma_euclid(p, a, k);
        lemma_small_mod(k, p);
    }
}

/// The least absolute residues of `a * k1` and `a * k2` differ.
proof fn lemma_least_residue_distinct(a: nat, p: nat, k1: nat, k2: nat)
    requires
        odd_prime(p),
        a % p != 0,
        1 <= k1 < k2 <= (p - 1) / 2,
    ensures
        least_residue(a, p, k1) != least_residue(a, p, k2),
{
    let h = (p - 1) / 2;
    if least_residue(a, p, k1) == least_residue(a, p, k2) {
        let r1 = (a * k1) % p;
        let r2 = (a * k2) % p;
        lemma_fundamental_div_mod((a * k1) as int, p as int);
        lemma_fundamental_div_mod((a * k2) as int, p as int);
        let q1 = ((a * k1) / p) as int;
        let q2 = ((a * k2) / p) as int;
        if (r1 > h) == (r2 > h) {
            // a * (k2 - k1) is a multiple of p
            let d = (k2 - k1) as nat;
            assert(a * d == p * (q2 - q1)) by (nonlinear_arith)
                requires
                    a * k1 == p * q1 + r1,
                    a * k2 == p * q2 + r2,
                    r1 == r2,
                    d == k2 - k1,
            ;
            lemma_multiple_divides(p as int, q2 - q1);
            lemma_euclid(p, a, d);
            lemma_small_mod(d, p);
        } else {
            // a * (k1 + k2) is a multiple of p
            let d = k1 + k2;
            assert(a * d == p * (q1 + q2 + 1)) by (nonlinear_arith)
                requires
                    a * k1 == p * q1 + r1,
                    a * k2 == p * q2 + r2,
                    r1 + r2 == p,
                    d == k1 + k2,
            ;
            lemma_multiple_divides(p as int, q1 + q2 + 1);
            lemma_euclid(p, a, d);
            lemma_small_mod(d, p);
        }
    }
}

/// The least absolute residues of `a, 2a, .., ((p - 1) / 2) a` are a
/// permutation of the numbers from 1 to `(p - 1) / 2`.
proof fn lemma_least_residues_permute(a: nat, p: nat)
    requires
        odd_prime(p),
        a % p != 0,
    ensures
        least_residues(a, p, ((p - 1) / 2) as nat).len() == (p - 1) / 2,
        seq_product(least_residues(a, p, ((p - 1) / 2) as nat)) == factorial(
            ((p - 1) / 2) as nat,
        ),
        seq_sum(least_residues(a, p, ((p - 1) / 2) as nat)) == triangle(((p - 1) / 2) as nat),
{
    let h = ((p - 1) / 2) as nat;
    let ls = least_residues(a, p, h);
    assert forall|i: int| 0 <= i < ls.len() implies 1 <= #[trigger] ls[i] <= h by {
        lemma_least_residue_range(a, p, (i + 1) as nat);
    }
    assert forall|i: int, j: int| 0 <= i < j < ls.len() implies ls[i] != ls[j] by {
        lemma_least_residue_distinct(a, p, (i + 1) as nat, (j + 1) as nat);
    }
    lemma_permutation_product(ls, h);
    lemma_permutation_sum(ls, h);
}

/// Gauss's lemma: the symbol of Euler's criterion is the product of the
/// signs of the residues of `a, 2a, .., ((p - 1) / 2) a`.
pub proof fn lemma_gauss(a: nat, p: nat)
    requires
        odd_prime(p),
        a % p != 0,
    ensures
        euler_symbol(a, p) == gauss_sign(a, p, ((p - 1) / 2) as nat),
{
    let h = ((p - 1) / 2) as nat;
    lemma_euler_power(a, p);
    let ls = least_residues(a, p, h);
    lemma_least_residues_permute(a, p);
    lemma_multiples_product(a as int, p as int, h);
    lemma_signed_product(a, p, h);
    lemma_gauss_sign_range(a, p, h);
    // a^h * h! == g * h! modulo p, and h! is coprime to p
    let f = factorial(h);
    let e = pow(a as int, h);
    let g = gauss_sign(a, p, h);
    lemma_factorial_coprime(p, h);
    lemma_prime_coprime(p, f);
    if a == 0 {
        lemma_small_mod(0, p);
    }
    lemma_pow_positive(a as int, h);
    lemma_mod_equivalence(e * f, g * f, p as int);
    if g == 1 {
        let x = (e - 1) as nat;
        assert(e * f - g * f == f * x) by (nonlinear_arith)
            requires
                x == e - 1,
                g == 1,
        ;
        lemma_coprime_divides_product(p, f, x);
        lemma_mod_equivalence(e, 1, p as int);
        lemma_small_mod(1, p);
    } else {
        let x = (e + 1) as nat;
        assert(e * f - g * f == f * x) by (nonlinear_arith)
            requires
                x == e + 1,
                g == -1,
        ;
        lemma_coprime_divides_product(p, f, x);
        lemma_mod_equivalence(e, -1, p as int);
        lemma_mod_add_multiples_vanish(-1, p as int);
        lemma_small_mod((p - 1) as nat, p);
    }
}

/// The residues of `2, 4, .., 2n` change sign from `n = (p - 1) / 4` on.
proof fn lemma_gauss_sign_two(p: nat, n: nat)
    requires
        p % 2 == 1,
        p >= 3,
        n <= (p - 1) / 2,
    ensures
        gauss_sign(2, p, n) == if n <= (p - 1) / 4 {
            1int
        } else if (n - (p - 1) / 4) % 2 == 0 {
            1int
        } else {
            -1int
        },
    decreases n,
{
    if n > 0 {
        lemma_gauss_sign_two(p, (n - 1) as nat);
        lemma_small_mod(2 * n, p);
    }
}

/// The residues of `2, 4, .., p - 1` change sign as often as the sign of 2
/// says.
proof fn lemma_gauss_sign_two_value(p: nat)
    requires
        p % 2 == 1,
        p >= 3,
    ensures
        gauss_sign(2, p, ((p - 1) / 2) as nat) == crate::modular::two_sign(p),
{
    let h = ((p - 1) / 2) as nat;
    let q = ((p - 1) / 4) as nat;
    lemma_gauss_sign_two(p, h);
    // with p == 8k + r the half is 4k + (r - 1) / 2 and the quarter
    // 2k + (r - 1) / 4
    let k = p / 8;
    let r = p % 8;
    assert(p == 8 * k + r);
    if r == 1 {
        assert(h == 4 * k && q == 2 * k);
    } else if r == 3 {
        assert(h == 4 * k + 1 && q == 2 * k);
    } else if r == 5 {
        assert(h == 4 * k + 2 && q == 2 * k + 1);
    } else {
        assert(r == 7);
        assert(h == 4 * k + 3 && q == 2 * k + 1);
    }
}

/// The symbol of 2 is the sign of 2.
pub proof fn lemma_euler_symbol_two(p: nat)
    requires
        odd_prime(p),
    ensures
        euler_symbol(2, p) == crate::modular::two_sign(p),
{
    assert(p >= 3);
    assert(2nat % p != 0) by {
        lemma_small_mod(2, p);
    }
    lemma_gauss(2, p);
    lemma_gauss_sign_two_value(p);
}

/// How many of the residues of `a, 2a, .., na` lie in the upper half.
pub open spec fn gauss_count(a: nat, p: nat, n: nat) -> nat
    decreases n,
{
    if n == 0 {
        0
    } else {
        gauss_count(a, p, (n - 1) as nat) + if (a * n) % p > (p - 1) / 2 {
            1nat
        } else {
            0nat
        }
    }
}

/// The sum of the quotients of `a, 2a, .., na` by `p`.
pub open spec fn floor_sum(a: nat, p: nat, n: nat) -> nat
    decreases n,
{
    if n == 0 {
        0
    } else {
        floor_sum(a, p, (n - 1) as nat) + (a * n) / p
    }
}

/// The sign of a parity: 1 for an even number, -1 for an odd one.
pub open spec fn parity_sign(n: nat) -> int {
    if n % 2 == 0 {
        1
    } else {
        -1
    }
}

proof fn lemma_gauss_count_sign(a: nat, p: nat, n: nat)
    ensures
        gauss_sign(a, p, n) == parity_sign(gauss_count(a, p, n)),
    decreases n,
{
    if n > 0 {
        lemma_gauss_count_sign(a, p, (n - 1) as nat);
    }
}

/// The multiples add up to `p` times the quotients and the residues.
proof fn lemma_multiples_sum(a: nat, p: nat, n: nat)
    requires
        p > 0,
    ensures
        a * triangle(n) == p * floor_sum(a, p, n) + seq_sum(multiples_mod(a as int, p as int, n)),
    decreases n,
{
    if n > 0 {
        let m = (n - 1) as nat;
        lemma_multiples_sum(a, p, m);
        let rs = multiples_mod(a as int, p as int, n);
        assert(rs.drop_last() =~= multiples_mod(a as int, p as int, m));
        assert(rs.last() == (a * n) % p);
        lemma_fundamental_div_mod((a * n) as int, p as int);
        let f = floor_sum(a, p, m);
        let q = (a * n) / p;
        assert(a * triangle(n) == a * triangle(m) + a * n) by (nonlinear_arith)
            requires
                triangle(n) == n + triangle(m),
        ;
        assert(p * (f + q) == p * f + p * q) by (nonlinear_arith);
    } else {
        assert(a * 0 == 0 && p * 0 == 0);
    }
}

/// The residues add up to the least absolute residues and `p` for each
/// residue in the upper half, up to an even number.
proof fn lemma_residues_sum(a: nat, p: nat, n: nat)
    requires
        p > 0,
    ensures
        (seq_sum(multiples_mod(a as int, p as int, n)) - seq_sum(least_residues(a, p, n))
            - gauss_count(a, p, n) * p) % 2 == 0,
    decreases n,
{
    if n > 0 {
        let m = (n - 1) as nat;
        lemma_residues_sum(a, p, m);
        let rs = multiples_mod(a as int, p as int, n);
        let ls = least_residues(a, p, n);
        assert(rs.drop_last() =~= multiples_mod(a as int, p as int, m));
        assert(ls.drop_last() =~= least_residues(a, p, m));
        assert(rs.last() == (a * n) % p);
        assert(ls.last() == least_residue(a, p, n));
        let c = gauss_count(a, p, m);
        assert((c + 1) * p == c * p + p) by (nonlinear_arith);
    } else {
        assert(0 * p == 0);
    }
}

/// A product with an odd number has the parity of the other factor.
proof fn lemma_odd_multiple(a: nat, x: nat)
    requires
        a % 2 == 1,
    ensures
        (a * x) % 2 == x % 2,
{
    let h = a / 2;
    assert(a * x == 2 * (h * x) + x) by (nonlinear_arith)
        requires
            a == 2 * h + 1,
    ;
}

/// Eisenstein's lemma: for odd `a` the symbol of Euler's criterion is the
/// sign of the parity of the sum of the quotients of `a, 2a, ..,
/// ((p - 1) / 2) a` by `p`.
pub proof fn lemma_eisenstein(a: nat, p: nat)
    requires
        odd_prime(p),
        a % p != 0,
        a % 2 == 1,
    ensures
        euler_symbol(a, p) == parity_sign(floor_sum(a, p, ((p - 1) / 2) as nat)),
{
    let h = ((p - 1) / 2) as nat;
    lemma_gauss(a, p);
    lemma_gauss_count_sign(a, p, h);
    lemma_least_residues_permute(a, p);
    lemma_multiples_sum(a, p, h);
    lemma_residues_sum(a, p, h);
    let t = triangle(h);
    let e = floor_sum(a, p, h);
    let c = gauss_count(a, p, h);
    lemma_odd_multiple(a, t);
    lemma_odd_multiple(p, e);
    lemma_odd_multiple(p, c);
    lemma_mul_is_commutative(c as int, p as int);
}

/// How many of `c, 2c, .., nc` lie below `x`.
pub open spec fn count_below(c: nat, x: nat, n: nat) -> nat
    decreases n,
{
    if n == 0 {
        0
    } else {
        count_below(c, x, (n - 1) as nat) + if c * n < x {
            1nat
        } else {
            0nat
        }
    }
}

/// How many of `c, 2c, .., nc` lie above `x`.
pub open spec fn count_above(c: nat, x: nat, n: nat) -> nat
    decreases n,
{
    if n == 0 {
        0
    } else {
        count_above(c, x, (n - 1) as nat) + if c * n > x {
            1nat
        } else {
            0nat
        }
    }
}

/// Below a number `x` that is no multiple of `c` lie the first `x / c`
/// multiples of `c`.
proof fn lemma_count_below(c: nat, x: nat, n: nat)
    requires
        c > 0,
        x % c != 0,
    ensures
        count_below(c, x, n) == if n <= x / c {
            n
        } else {
            x / c
        },
    decreases n,
{
    if n > 0 {
        lemma_count_below(c, x, (n - 1) as nat);
        lemma_fundamental_div_mod(x as int, c as int);
        lemma_mod_bound(x as int, c as int);
        let q = x / c;
        let r = x % c;
        assert((c * n < x) <==> (n <= q)) by (nonlinear_arith)
            requires
                x == c * q + r,
                0 < r < c,
        ;
    }
}

/// None of the multiples of `c` is a number `x` that is no multiple of `c`:
/// each lies below or above it.
proof fn lemma_count_split(c: nat, x: nat, n: nat)
    requires
        c > 0,
        x % c != 0,
    ensures
        count_below(c, x, n) + count_above(c, x, n) == n,
    decreases n,
{
    if n > 0 {
        lemma_count_split(c, x, (n - 1) as nat);
        if c * n == x {
            lemma_multiple_divides(c as int, n as int);
        }
    }
}

/// The lattice points `(k, j)` with `k <= kmax`, `j <= jmax` and
/// `q * k < p * j`, counted column by column.
pub open spec fn lattice_above(p: nat, q: nat, kmax: nat, jmax: nat) -> nat
    decreases jmax,
{
    if jmax == 0 {
        0
    } else {
        lattice_above(p, q, kmax, (jmax - 1) as nat) + count_below(q, p * jmax, kmax)
    }
}

/// One more row adds the points of that row.
proof fn lemma_lattice_row(p: nat, q: nat, kmax: nat, jmax: nat)
    requires
        kmax > 0,
    ensures
        lattice_above(p, q, kmax, jmax) == lattice_above(p, q, (kmax - 1) as nat, jmax)
            + count_above(p, q * kmax, jmax),
    decreases jmax,
{
    if jmax > 0 {
        lemma_lattice_row(p, q, kmax, (jmax - 1) as nat);
    }
}

/// The half range of a prime holds no multiple of another prime, and the
/// quotients of its multiples stay in the half range of the other.
proof fn lemma_no_multiple(p: nat, q: nat, k: nat)
    requires
        odd_prime(p),
        odd_prime(q),
        p != q,
        1 <= k <= (p - 1) / 2,
    ensures
        (q * k) % p != 0,
        (q * k) / p <= (q - 1) / 2,
{
    if q % p == 0 {
        lemma_divisor_le(p as int, q as int);
        assert(divides(p, q));
    }
    if (q * k) % p == 0 {
        lemma_euclid(p, q, k);
        lemma_small_mod(k, p);
    }
    lemma_fundamental_div_mod((q * k) as int, p as int);
    let f = (q * k) / p;
    let hq = (q - 1) / 2;
    assert(f <= hq) by (nonlinear_arith)
        requires
            q * k == p * f + (q * k) % p,
            (q * k) % p >= 0,
            2 * k <= p - 1,
            2 * hq + 1 == q,
            p > 0,
    ;
}

/// The points below the diagonal of the rectangle of the half ranges of `p`
/// and `q`, and those above it in the first `kmax` rows, are all the points
/// of those rows.
proof fn lemma_lattice_rows(p: nat, q: nat, kmax: nat)
    requires
        odd_prime(p),
        odd_prime(q),
        p != q,
        kmax <= (p - 1) / 2,
    ensures
        floor_sum(q, p, kmax) + lattice_above(p, q, kmax, ((q - 1) / 2) as nat) == kmax * ((q - 1)
            / 2),
    decreases kmax,
{
    let hq = ((q - 1) / 2) as nat;
    if kmax == 0 {
        lemma_lattice_empty(p, q, hq);
        assert(0 * hq == 0);
    } else {
        let m = (kmax - 1) as nat;
        lemma_lattice_rows(p, q, m);
        lemma_lattice_row(p, q, kmax, hq);
        lemma_no_multiple(p, q, kmax);
        lemma_count_below(p, q * kmax, hq);
        lemma_count_split(p, q * kmax, hq);
        assert(kmax * hq == m * hq + hq) by (nonlinear_arith)
            requires
                kmax == m + 1,
        ;
    }
}

proof fn lemma_lattice_empty(p: nat, q: nat, jmax: nat)
    ensures
        lattice_above(p, q, 0, jmax) == 0,
    decreases jmax,
{
    if jmax > 0 {
        lemma_lattice_empty(p, q, (jmax - 1) as nat);
    }
}

/// The points above the diagonal, column by column, are the quotients of
/// the multiples of `p` by `q`.
proof fn lemma_lattice_columns(p: nat, q: nat, jmax: nat)
    requires
        odd_prime(p),
        odd_prime(q),
        p != q,
        jmax <= (q - 1) / 2,
    ensures
        lattice_above(p, q, ((p - 1) / 2) as nat, jmax) == floor_sum(p, q, jmax),
    decreases jmax,
{
    if jmax > 0 {
        lemma_lattice_columns(p, q, (jmax - 1) as nat);
        lemma_no_multiple(q, p, jmax);
        lemma_count_below(q, p * jmax, ((p - 1) / 2) as nat);
    }
}

/// A product is odd exactly if both factors are.
proof fn lemma_product_parity(x: nat, y: nat)
    ensures
        (x * y) % 2 == 1 <==> (x % 2 == 1 && y % 2 == 1),
{
    if x % 2 == 1 {
        lemma_odd_multiple(x, y);
    } else {
        let h = x / 2;
        assert(x * y == 2 * (h * y)) by (nonlinear_arith)
            requires
                x == 2 * h,
        ;
    }
}

/// The half range of an odd number `a` is odd exactly if `a` is 3 modulo 4.
proof fn lemma_half_range_parity(a: nat)
    requires
        a % 2 == 1,
    ensures
        a % 4 == 3 <==> ((a - 1) / 2) % 2 == 1,
{
    let k = a / 4;
    assert(a == 4 * k + a % 4);
    if a % 4 == 1 {
        assert((a - 1) / 2 == 2 * k);
    } else {
        assert(a % 4 == 3);
        assert((a - 1) / 2 == 2 * k + 1);
    }
}

/// The sign of quadratic reciprocity is that of the parity of the product
/// of the half ranges.
proof fn lemma_reciprocity_sign(a: nat, n: nat)
    requires
        a % 2 == 1,
        n % 2 == 1,
    ensures
        crate::modular::reciprocity_sign(a, n) == parity_sign(
            (((a - 1) / 2) * ((n - 1) / 2)) as nat,
        ),
{
    let x = ((a - 1) / 2) as nat;
    let y = ((n - 1) / 2) as nat;
    lemma_half_range_parity(a);
    lemma_half_range_parity(n);
    lemma_product_parity(x, y);
}

/// The sign of a sum of parities.
proof fn lemma_parity_sign_add(x: nat, y: nat)
    ensures
        parity_sign(x + y) == parity_sign(x) * parity_sign(y),
{
}

/// Quadratic reciprocity for the symbols of Euler's criterion.
proof fn lemma_quadratic_reciprocity(p: nat, q: nat)
    requires
        odd_prime(p),
        odd_prime(q),
        p != q,
    ensures
        euler_symbol(p, q) * euler_symbol(q, p) == crate::modular::reciprocity_sign(p, q),
{
    let hp = ((p - 1) / 2) as nat;
    let hq = ((q - 1) / 2) as nat;
    if q % p == 0 {
        lemma_divisor_le(p as int, q as int);
        assert(divides(p, q));
    }
    if p % q == 0 {
        lemma_divisor_le(q as int, p as int);
        assert(divides(q, p));
    }
    lemma_eisenstein(q, p);
    lemma_eisenstein(p, q);
    lemma_lattice_rows(p, q, hp);
    lemma_lattice_columns(p, q, hq);
    lemma_parity_sign_add(floor_sum(p, q, hq), floor_sum(q, p, hp));
    lemma_reciprocity_sign(p, q);
}

/// The product of the symbols of Euler's criterion over the prime factors
/// `p` of `n`, each as often as it divides `n`.
pub open spec fn euler_product(a: nat, n: nat) -> int
    decreases n,
    via euler_product_decreases
{
    if n <= 1 {
        1
    } else {
        euler_symbol(a, least_divisor(n)) * euler_product(a, n / least_divisor(n))
    }
}

#[via_fn]
proof fn euler_product_decreases(a: nat, n: nat) {
    if n > 1 {
        lemma_least_divisor(n);
        lemma_div_decreases(n as int, least_divisor(n) as int);
    }
}

/// The least divisor of an odd number above one is an odd prime, and its
/// cofactor is odd.
proof fn lemma_odd_cofactor(n: nat)
    requires
        n > 1,
        n % 2 == 1,
    ensures
        odd_prime(least_divisor(n)),
        divides(least_divisor(n), n),
        n == least_divisor(n) * (n / least_divisor(n)),
        1 <= n / least_divisor(n) < n,
        (n / least_divisor(n)) % 2 == 1,
{
    lemma_least_divisor(n);
    let p = least_divisor(n);
    let k = n / p;
    lemma_divides_witness(p as int, n as int);
    lemma_div_decreases(n as int, p as int);
    if k == 0 {
        assert(p * 0 == 0);
    }
    if p % 2 == 0 {
        lemma_divides_combo(2, p as int, p as int, k as int, 0);
        lemma_mul_is_commutative(p as int, k as int);
    }
    if k % 2 == 0 {
        lemma_divides_combo(2, k as int, k as int, p as int, 0);
    }
}

/// The product of the symbols is -1, 0 or 1.
pub proof fn lemma_euler_product_range(a: nat, n: nat)
    ensures
        -1 <= euler_product(a, n) <= 1,
    decreases n,
{
    if n > 1 {
        lemma_least_divisor(n);
        lemma_div_decreases(n as int, least_divisor(n) as int);
        lemma_euler_product_range(a, n / least_divisor(n));
        let l = euler_symbol(a, least_divisor(n));
        let j = euler_product(a, n / least_divisor(n));
        assert(-1 <= l * j <= 1) by (nonlinear_arith)
            requires
                -1 <= l <= 1,
                -1 <= j <= 1,
        ;
    }
}

/// The product of the symbols depends on `a` modulo `n` only.
pub proof fn lemma_euler_product_congruent(a: nat, b: nat, n: nat)
    requires
        n % 2 == 1,
        a % n == b % n,
    ensures
        euler_product(a, n) == euler_product(b, n),
    decreases n,
{
    if n > 1 {
        lemma_odd_cofactor(n);
        let p = least_divisor(n);
        let k = n / p;
        lemma_mod_mod(a as int, p as int, k as int);
        lemma_mod_mod(b as int, p as int, k as int);
        lemma_mod_mod(a as int, k as int, p as int);
        lemma_mod_mod(b as int, k as int, p as int);
        lemma_mul_is_commutative(p as int, k as int);
        lemma_euler_symbol_mod(a, p);
        lemma_euler_symbol_mod(b, p);
        lemma_euler_product_congruent(a, b, k);
    }
}

/// The product of the symbols is multiplicative in `a`.
pub proof fn lemma_euler_product_mul(a: nat, b: nat, n: nat)
    requires
        n % 2 == 1,
    ensures
        euler_product(a * b, n) == euler_product(a, n) * euler_product(b, n),
    decreases n,
{
    if n > 1 {
        lemma_odd_cofactor(n);
        let p = least_divisor(n);
        let k = n / p;
        lemma_euler_symbol_mul(a, b, p);
        lemma_euler_product_mul(a, b, k);
        let (la, lb) = (euler_symbol(a, p), euler_symbol(b, p));
        let (ja, jb) = (euler_product(a, k), euler_product(b, k));
        assert((la * lb) * (ja * jb) == (la * ja) * (lb * jb)) by (nonlinear_arith);
    }
}

/// The product of the symbols is 0 where `a` and `n` share a prime.
pub proof fn lemma_euler_product_zero(a: nat, n: nat, q: nat)
    requires
        n % 2 == 1,
        is_prime_nat(q),
        divides(q, n),
        divides(q, a),
    ensures
        euler_product(a, n) == 0,
    decreases n,
{
    lemma_divisor_le(q as int, n as int);
    lemma_odd_cofactor(n);
    let p = least_divisor(n);
    let k = n / p;
    if q != p {
        if p % q == 0 {
            lemma_divisor_le(q as int, p as int);
            assert(divides(q, p));
        }
        lemma_euclid(q, p, k);
        lemma_euler_product_zero(a, k, q);
        assert(euler_symbol(a, p) * 0 == 0);
    } else {
        assert(0 * euler_product(a, k) == 0);
    }
}

/// The sign of 2 is multiplicative in odd numbers.
proof fn lemma_two_sign_mul(m: nat, n: nat)
    requires
        m % 2 == 1,
        n % 2 == 1,
    ensures
        two_sign(m * n) == two_sign(m) * two_sign(n),
{
    let x = m % 8;
    let y = n % 8;
    lemma_mul_mod_noop_general(m as int, n as int, 8);
    assert((x * y) % 8 == if x == y {
        1nat
    } else if x == 1 {
        y
    } else if y == 1 {
        x
    } else if x + y == 8 {
        7
    } else if x + y == 10 {
        5
    } else {
        3
    }) by (nonlinear_arith)
        requires
            x == 1 || x == 3 || x == 5 || x == 7,
            y == 1 || y == 3 || y == 5 || y == 7,
    ;
}

/// The sign of reciprocity is multiplicative in odd numbers.
proof fn lemma_reciprocity_sign_mul(a: nat, m: nat, n: nat)
    requires
        a % 2 == 1,
        m % 2 == 1,
        n % 2 == 1,
    ensures
        reciprocity_sign(a, m * n) == reciprocity_sign(a, m) * reciprocity_sign(a, n),
        reciprocity_sign(m * n, a) == reciprocity_sign(m, a) * reciprocity_sign(n, a),
{
    let x = m % 4;
    let y = n % 4;
    lemma_mul_mod_noop_general(m as int, n as int, 4);
    assert((x * y) % 4 == if x == y {
        1nat
    } else {
        3nat
    }) by (nonlinear_arith)
        requires
            x == 1 || x == 3,
            y == 1 || y == 3,
    ;
}

/// The product of the symbols of 2 is the sign of 2.
pub proof fn lemma_euler_product_two(n: nat)
    requires
        n % 2 == 1,
    ensures
        euler_product(2, n) == two_sign(n),
    decreases n,
{
    if n > 1 {
        lemma_odd_cofactor(n);
        let p = least_divisor(n);
        let k = n / p;
        lemma_euler_symbol_two(p);
        lemma_euler_product_two(k);
        lemma_two_sign_mul(p, k);
    }
}

/// The product of the symbols of 1 is 1.
proof fn lemma_euler_product_one(n: nat)
    requires
        n % 2 == 1,
    ensures
        euler_product(1, n) == 1,
    decreases n,
{
    if n > 1 {
        lemma_odd_cofactor(n);
        let p = least_divisor(n);
        lemma_euler_product_one(n / p);
        lemma_small_mod(1, p);
        lemma1_pow(((p - 1) / 2) as nat);
    }
}

/// A number coprime to `n` is coprime to every divisor of `n`.
proof fn lemma_coprime_divisor(a: nat, n: nat, d: nat)
    requires
        gcd(a, n) == 1,
        divides(d, n),
        n > 0,
    ensures
        gcd(a, d) == 1,
{
    lemma_gcd_divides(a, d);
    let g = gcd(a, d);
    lemma_divides_trans(g as int, d as int, n as int);
    lemma_gcd_greatest(a, n, g);
    lemma_divisor_le(g as int, 1);
}

/// Reciprocity between an odd number and an odd prime.
proof fn lemma_reciprocity_prime(a: nat, q: nat)
    requires
        a % 2 == 1,
        odd_prime(q),
        gcd(a, q) == 1,
    ensures
        euler_symbol(a, q) * euler_product(q, a) == reciprocity_sign(a, q),
    decreases a,
{
    if a == 1 {
        lemma_small_mod(1, q);
        lemma1_pow(((q - 1) / 2) as nat);
    } else {
        lemma_odd_cofactor(a);
        let r = least_divisor(a);
        let b = a / r;
        lemma_multiple_divides(b as int, r as int);
        lemma_mul_is_commutative(r as int, b as int);
        lemma_gcd_symmetric(a, q);
        lemma_coprime_divisor(q, a, r);
        lemma_coprime_divisor(q, a, b);
        lemma_gcd_symmetric(q, b);
        if r == q {
            lemma_mod_self_0(q as int);
            assert(gcd(q, q) == q) by {
                reveal_with_fuel(gcd, 2);
            }
        }
        lemma_euler_symbol_mul(r, b, q);
        lemma_quadratic_reciprocity(r, q);
        lemma_reciprocity_prime(b, q);
        lemma_reciprocity_sign_mul(q, r, b);
        let (x1, x2) = (euler_symbol(r, q), euler_symbol(b, q));
        let (y1, y2) = (euler_symbol(q, r), euler_product(q, b));
        assert((x1 * x2) * (y1 * y2) == (x1 * y1) * (x2 * y2)) by (nonlinear_arith);
    }
}

/// Reciprocity for the products of the symbols of Euler's criterion.
proof fn lemma_jacobi_reciprocity(a: nat, n: nat)
    requires
        a % 2 == 1,
        n % 2 == 1,
        gcd(a, n) == 1,
    ensures
        euler_product(a, n) * euler_product(n, a) == reciprocity_sign(a, n),
    decreases n,
{
    if n == 1 {
        lemma_euler_product_one(a);
    } else {
        lemma_odd_cofactor(n);
        let q = least_divisor(n);
        let m = n / q;
        lemma_multiple_divides(m as int, q as int);
        lemma_mul_is_commutative(q as int, m as int);
        lemma_coprime_divisor(a, n, q);
        lemma_coprime_divisor(a, n, m);
        lemma_reciprocity_prime(a, q);
        lemma_jacobi_reciprocity(a, m);
        lemma_euler_product_mul(q, m, a);
        lemma_reciprocity_sign_mul(a, q, m);
        let (x1, x2) = (euler_symbol(a, q), euler_product(a, m));
        let (y1, y2) = (euler_product(q, a), euler_product(m, a));
        assert((x1 * x2) * (y1 * y2) == (x1 * y1) * (x2 * y2)) by (nonlinear_arith);
    }
}

/// The symbol that the reduction rules give is the product of the symbols of
/// Euler's criterion over the prime factors of `n`.
proof fn lemma_jacobi_is_euler_product(a: nat, n: nat)
    requires
        n % 2 == 1,
    ensures
        jacobi_symbol(a, n) == euler_product(a, n),
    decreases n, a,
{
    if n == 1 {
    } else if a == 0 || a % n == 0 {
        lemma_odd_cofactor(n);
        if a == 0 {
            lemma_small_mod(0, least_divisor(n));
        } else {
            lemma_divides_trans(least_divisor(n) as int, n as int, a as int);
        }
        lemma_euler_product_zero(a, n, least_divisor(n));
    } else if a >= n {
        lemma_mod_bound(a as int, n as int);
        lemma_jacobi_is_euler_product(a % n, n);
        lemma_mod_twice(a as int, n as int);
        lemma_euler_product_congruent(a % n, a, n);
    } else if a % 2 == 0 {
        lemma_jacobi_is_euler_product(a / 2, n);
        lemma_euler_product_mul(2, a / 2, n);
        lemma_euler_product_two(n);
    } else {
        lemma_small_mod(a, n);
        lemma_mod_bound(n as int, a as int);
        lemma_jacobi_is_euler_product(n % a, a);
        lemma_mod_twice(n as int, a as int);
        lemma_euler_product_congruent(n % a, n, a);
        if gcd(a, n) == 1 {
            lemma_jacobi_reciprocity(a, n);
            lemma_euler_product_range(a, n);
            lemma_euler_product_range(n, a);
            let x = euler_product(a, n);
            let y = euler_product(n, a);
            let s = reciprocity_sign(a, n);
            assert(x == s * y) by (nonlinear_arith)
                requires
                    x * y == s,
                    s == 1 || s == -1,
                    -1 <= x <= 1,
                    -1 <= y <= 1,
            ;
        } else {
            // a prime divides both, and both symbols vanish
            lemma_gcd_divides(a, n);
            let g = gcd(a, n);
            lemma_least_divisor(g);
            let q = least_divisor(g);
            lemma_divides_trans(q as int, g as int, a as int);
            lemma_divides_trans(q as int, g as int, n as int);
            lemma_euler_product_zero(a, n, q);
            lemma_euler_product_zero(n, a, q);
            assert(reciprocity_sign(a, n) * 0 == 0);
        }
    }
}

/// The Legendre symbol `(a/p)` of an odd prime `p`: 0 where `p` divides
/// `a`, else 1 or -1 as `a` is a quadratic residue of `p` or not.
#[verifier::opaque]
pub open spec fn legendre(a: nat, p: nat) -> int {
    if a % p == 0 {
        0
    } else if is_residue(a, p) {
        1
    } else {
        -1
    }
}

/// The Jacobi symbol `(a/n)` of an odd `n`: the product of the Legendre
/// symbols `(a/p)` over the prime factors `p` of `n`, each as often as it
/// divides `n`.
pub open spec fn jacobi_product(a: nat, n: nat) -> int
    decreases n,
    via jacobi_product_decreases
{
    if n <= 1 {
        1
    } else {
        legendre(a, least_divisor(n)) * jacobi_product(a, n / least_divisor(n))
    }
}

#[via_fn]
proof fn jacobi_product_decreases(a: nat, n: nat) {
    if n > 1 {
        lemma_least_divisor(n);
        lemma_div_decreases(n as int, least_divisor(n) as int);
    }
}

/// Euler's criterion: the Legendre symbol `(a/p)` is `a ^ ((p - 1) / 2)`
/// modulo `p`.
pub proof fn lemma_legendre_euler(a: nat, p: nat)
    requires
        odd_prime(p),
    ensures
        legendre(a, p) == euler_symbol(a, p),
        a % p != 0 ==> euler_power(a, p) == if legendre(a, p) == 1 {
            1
        } else {
            p - 1
        },
{
    reveal(legendre);
    if a % p != 0 {
        lemma_euler_criterion(a, p);
        lemma_euler_power(a, p);
    }
}

proof fn lemma_jacobi_product_euler(a: nat, n: nat)
    requires
        n % 2 == 1,
    ensures
        jacobi_product(a, n) == euler_product(a, n),
    decreases n,
{
    if n > 1 {
        lemma_odd_cofactor(n);
        lemma_legendre_euler(a, least_divisor(n));
        lemma_jacobi_product_euler(a, n / least_divisor(n));
    }
}

/// The symbol that the reduction rules give is the Jacobi symbol: the
/// product of the Legendre symbols over the prime factors of `n`.
pub proof fn lemma_jacobi_is_product(a: nat, n: nat)
    requires
        n % 2 == 1,
    ensures
        jacobi_symbol(a, n) == jacobi_product(a, n),
{
    lemma_jacobi_is_euler_product(a, n);
    lemma_jacobi_product_euler(a, n);
}

/// For an odd prime `p` the Jacobi symbol is the Legendre symbol.
pub proof fn lemma_jacobi_is_legendre(a: nat, p: nat)
    requires
        odd_prime(p),
    ensures
        jacobi_product(a, p) == legendre(a, p),
        jacobi_symbol(a, p) == legendre(a, p),
{
    lemma_jacobi_is_product(a, p);
    lemma_least_divisor(p);
    lemma_div_by_self(p as int);
    assert(jacobi_product(a, 1) == 1);
    assert(legendre(a, p) * 1 == legendre(a, p));
}

/// The Legendre symbol is multiplicative.
pub proof fn lemma_legendre_mul(a: nat, b: nat, p: nat)
    requires
        odd_prime(p),
    ensures
        legendre(a * b, p) == legendre(a, p) * legendre(b, p),
{
    lemma_legendre_euler(a, p);
    lemma_legendre_euler(b, p);
    lemma_legendre_euler(a * b, p);
    lemma_euler_symbol_mul(a, b, p);
}

/// The first supplement to the law of quadratic reciprocity: -1 is a
/// quadratic residue of the primes of the form `4k + 1` only.
pub proof fn lemma_legendre_minus_one(p: nat)
    requires
        odd_prime(p),
    ensures
        legendre((p - 1) as nat, p) == if p % 4 == 1 {
            1int
        } else {
            -1int
        },
{
    assert(p >= 3);
    lemma_euler_power_minus_one(p);
    lemma_legendre_euler((p - 1) as nat, p);
}

/// The power of Euler's criterion for `p - 1`, with an odd `p` above one:
/// 1 if `p` is of the form `4k + 1`, else `p - 1`.
proof fn lemma_euler_power_minus_one(p: nat)
    requires
        p % 2 == 1,
        p >= 3,
    ensures
        ((p - 1) as nat) % p != 0,
        p % 4 == 1 ==> euler_power((p - 1) as nat, p) == 1,
        p % 4 != 1 ==> euler_power((p - 1) as nat, p) == p - 1,
{
    lemma_small_mod((p - 1) as nat, p);
    lemma_half_range_parity(p);
    lemma_minus_one_power(p, ((p - 1) / 2) as nat);
}

/// The powers of `p - 1` are 1 and `p - 1` in turn, modulo `p`.
proof fn lemma_minus_one_power(p: nat, e: nat)
    requires
        p >= 3,
    ensures
        pow((p - 1) as int, e) % (p as int) == if e % 2 == 0 {
            1
        } else {
            p - 1
        },
    decreases e,
{
    reveal(pow);
    if e == 0 {
        lemma_small_mod(1, p);
    } else {
        lemma_minus_one_power(p, (e - 1) as nat);
        let x = pow((p - 1) as int, (e - 1) as nat);
        lemma_mul_mod_noop_right(p - 1, x, p as int);
        if e % 2 == 0 {
            assert((p - 1) * (p - 1) == p * (p - 2) + 1) by (nonlinear_arith);
            lemma_mod_multiples_vanish(p - 2, 1, p as int);
            lemma_small_mod(1, p);
        } else {
            assert((p - 1) * 1 == p - 1);
            lemma_small_mod((p - 1) as nat, p);
        }
    }
}

/// The second supplement to the law of quadratic reciprocity: 2 is a
/// quadratic residue of the primes of the form `8k + 1` and `8k + 7` only.
pub proof fn lemma_legendre_two(p: nat)
    requires
        odd_prime(p),
    ensures
        legendre(2, p) == two_sign(p),
{
    lemma_legendre_euler(2, p);
    lemma_euler_symbol_two(p);
}

/// The law of quadratic reciprocity: for distinct odd primes `p` and `q`
/// the Legendre symbols `(p/q)` and `(q/p)` are equal, unless both primes
/// are of the form `4k + 3`, where they are opposite.
pub proof fn lemma_legendre_reciprocity(p: nat, q: nat)
    requires
        odd_prime(p),
        odd_prime(q),
        p != q,
    ensures
        legendre(p, q) * legendre(q, p) == reciprocity_sign(p, q),
{
    lemma_legendre_euler(p, q);
    lemma_legendre_euler(q, p);
    lemma_quadratic_reciprocity(p, q);
}

/// The Jacobi symbol is multiplicative in `a`.
pub proof fn lemma_jacobi_product_mul(a: nat, b: nat, n: nat)
    requires
        n % 2 == 1,
    ensures
        jacobi_product(a * b, n) == jacobi_product(a, n) * jacobi_product(b, n),
{
    lemma_jacobi_product_euler(a, n);
    lemma_jacobi_product_euler(b, n);
    lemma_jacobi_product_euler(a * b, n);
    lemma_euler_product_mul(a, b, n);
}

/// The law of quadratic reciprocity for the Jacobi symbol: for coprime odd
/// `a` and `n` the symbols `(a/n)` and `(n/a)` are equal, unless both
/// numbers are of the form `4k + 3`, where they are opposite.
pub proof fn lemma_jacobi_product_reciprocity(a: nat, n: nat)
    requires
        a % 2 == 1,
        n % 2 == 1,
        gcd(a, n) == 1,
    ensures
        jacobi_product(a, n) * jacobi_product(n, a) == reciprocity_sign(a, n),
{
    lemma_jacobi_product_euler(a, n);
    lemma_jacobi_product_euler(n, a);
    lemma_jacobi_reciprocity(a, n);
}

/// The least divisor of a product of numbers above one is the least divisor
/// of one of them, and the cofactor is the product with that factor's
/// cofactor.
proof fn lemma_least_divisor_product(m: nat, n: nat)
    requires
        m > 1,
        n > 1,
    ensures
        least_divisor(m * n) == least_divisor(m) || least_divisor(m * n) == least_divisor(n),
        least_divisor(m * n) == least_divisor(m) ==> (m * n) / least_divisor(m) == (m
            / least_divisor(m)) * n,
        least_divisor(m * n) == least_divisor(n) ==> (m * n) / least_divisor(n) == m * (n
            / least_divisor(n)),
{
    let mn = m * n;
    assert(mn > 1) by (nonlinear_arith)
        requires
            mn == m * n,
            m > 1,
            n > 1,
    ;
    lemma_least_divisor(mn);
    lemma_least_divisor(m);
    lemma_least_divisor(n);
    let p = least_divisor(mn);
    let (pm, pn) = (least_divisor(m), least_divisor(n));
    // the least divisors of m and n divide m * n, so p is below neither
    lemma_multiple_divides(m as int, n as int);
    lemma_multiple_divides(n as int, m as int);
    lemma_mul_is_commutative(m as int, n as int);
    lemma_divides_trans(pm as int, m as int, mn as int);
    lemma_divides_trans(pn as int, n as int, mn as int);
    assert(divides(pm, mn) && divides(pn, mn));
    // and p divides m or n, so it is above one of them
    lemma_euclid(p, m, n);
    if m % p == 0 {
        assert(divides(p, m));
        assert(p == pm);
    } else {
        assert(divides(p, n));
        assert(p == pn);
    }
    if p == pm {
        lemma_divides_witness(pm as int, m as int);
        let c = m / pm;
        assert(mn == (c * n) * pm) by (nonlinear_arith)
            requires
                mn == m * n,
                m == pm * c,
        ;
        lemma_div_by_multiple((c * n) as int, pm as int);
    }
    if p == pn {
        lemma_divides_witness(pn as int, n as int);
        let c = n / pn;
        assert(mn == (m * c) * pn) by (nonlinear_arith)
            requires
                mn == m * n,
                n == pn * c,
        ;
        lemma_div_by_multiple((m * c) as int, pn as int);
    }
}

/// The Jacobi symbol is multiplicative in `n`.
pub proof fn lemma_jacobi_product_mul_modulus(a: nat, m: nat, n: nat)
    requires
        m % 2 == 1,
        n % 2 == 1,
    ensures
        jacobi_product(a, m * n) == jacobi_product(a, m) * jacobi_product(a, n),
    decreases m + n,
{
    if m == 1 {
        assert(1 * n == n);
        assert(1 * jacobi_product(a, n) == jacobi_product(a, n));
    } else if n == 1 {
        assert(m * 1 == m);
        assert(jacobi_product(a, m) * 1 == jacobi_product(a, m));
    } else {
        lemma_least_divisor_product(m, n);
        lemma_odd_cofactor(m);
        lemma_odd_cofactor(n);
        let mn = m * n;
        let p = least_divisor(mn);
        let l = legendre(a, p);
        assert(mn > 1) by (nonlinear_arith)
            requires
                mn == m * n,
                m > 1,
                n > 1,
        ;
        if p == least_divisor(m) {
            let c = m / p;
            lemma_jacobi_product_mul_modulus(a, c, n);
            let (x, y) = (jacobi_product(a, c), jacobi_product(a, n));
            assert(l * (x * y) == (l * x) * y) by (nonlinear_arith);
        } else {
            let c = n / p;
            lemma_jacobi_product_mul_modulus(a, m, c);
            let (x, y) = (jacobi_product(a, m), jacobi_product(a, c));
            assert(l * (x * y) == x * (l * y)) by (nonlinear_arith);
        }
    }
}

} // verus!
