//! The mathematics behind the modular operations: the Jacobi symbol, and the
//! facts that carry the loops of multiplication, exponentiation and
//! inversion from one step to the next.

use crate::divisibility::{
    divides, gcd, lemma_coprime_divides_product, lemma_divides_combo, lemma_divides_trans,
    lemma_divisor_le, lemma_gcd_divides, lemma_gcd_greatest, lemma_gcd_mod, lemma_gcd_symmetric,
    lemma_multiple_divides,
};
use crate::primes::{is_prime_nat, lemma_prime_coprime};
use vstd::arithmetic::div_mod::*;
use vstd::arithmetic::mul::*;
use vstd::arithmetic::power::*;
use vstd::arithmetic::power2::*;
use vstd::prelude::*;

verus! {

/// The sign that the factor 2 contributes: `(2/n)` for odd `n`.
pub open spec fn two_sign(n: nat) -> int {
    if n % 8 == 3 || n % 8 == 5 {
        -1
    } else {
        1
    }
}

/// The sign of quadratic reciprocity for odd `a` and `n`.
pub open spec fn reciprocity_sign(a: nat, n: nat) -> int {
    if a % 4 == 3 && n % 4 == 3 {
        -1
    } else {
        1
    }
}

/// The Jacobi symbol `(a/n)` for odd `n`, by its reduction rules: it depends
/// on `a` modulo `n` only, a factor 2 of `a` contributes `(2/n)`, and odd
/// arguments are swapped by quadratic reciprocity. An even `n` gives 0.
pub open spec fn jacobi_symbol(a: nat, n: nat) -> int
    decreases n, a,
{
    if n % 2 == 0 {
        0
    } else if n == 1 {
        1
    } else if a == 0 || a % n == 0 {
        0
    } else if a >= n {
        jacobi_symbol(a % n, n)
    } else if a % 2 == 0 {
        two_sign(n) * jacobi_symbol(a / 2, n)
    } else {
        reciprocity_sign(a, n) * jacobi_symbol(n % a, a)
    }
}

/// The Jacobi symbol takes the values -1, 0 and 1 only.
pub proof fn lemma_jacobi_range(a: nat, n: nat)
    ensures
        -1 <= jacobi_symbol(a, n) <= 1,
    decreases n, a,
{
    if n % 2 == 0 || n == 1 || a == 0 || a % n == 0 {
    } else if a >= n {
        lemma_mod_bound(a as int, n as int);
        lemma_jacobi_range(a % n, n);
    } else if a % 2 == 0 {
        lemma_jacobi_range(a / 2, n);
        let j = jacobi_symbol(a / 2, n);
        assert(-1 <= two_sign(n) * j <= 1) by (nonlinear_arith)
            requires
                -1 <= j <= 1,
                two_sign(n) == 1 || two_sign(n) == -1,
        ;
    } else {
        lemma_small_mod(a, n);
        lemma_mod_bound(n as int, a as int);
        lemma_jacobi_range(n % a, a);
        let j = jacobi_symbol(n % a, a);
        assert(-1 <= reciprocity_sign(a, n) * j <= 1) by (nonlinear_arith)
            requires
                -1 <= j <= 1,
                reciprocity_sign(a, n) == 1 || reciprocity_sign(a, n) == -1,
        ;
    }
}

/// Halving an even number keeps its gcd with an odd number.
pub proof fn lemma_gcd_halve(a: nat, n: nat)
    requires
        a % 2 == 0,
        n % 2 == 1,
    ensures
        gcd(a / 2, n) == gcd(a, n),
{
    let h = a / 2;
    lemma_gcd_divides(h, n);
    lemma_gcd_divides(a, n);
    let g1 = gcd(h, n);
    let g2 = gcd(a, n);
    // g1 divides a = 2 * h
    lemma_divides_combo(g1 as int, h as int, h as int, 2, 0);
    lemma_gcd_greatest(a, n, g1);
    // g2 is odd, hence coprime to 2, hence divides h
    if g2 % 2 == 0 {
        assert(divides(2, g2));
        lemma_divides_trans(2, g2 as int, n as int);
    }
    assert(is_prime_nat(2)) by {
        assert forall|d: nat| 1 < d < 2 implies !#[trigger] divides(d, 2) by {}
    }
    lemma_prime_coprime(2, g2);
    lemma_gcd_symmetric(g2, 2);
    lemma_coprime_divides_product(g2, 2, h);
    lemma_gcd_greatest(h, n, g2);
    crate::divisibility::lemma_divides_antisym(g1 as int, g2 as int);
}

/// For odd `n` the Jacobi symbol vanishes exactly when `a` and `n` share a
/// factor.
pub proof fn lemma_jacobi_zero_iff(a: nat, n: nat)
    requires
        n % 2 == 1,
    ensures
        jacobi_symbol(a, n) == 0 <==> gcd(a, n) != 1,
    decreases n, a,
{
    if n == 1 {
        lemma_gcd_divides(a, 1);
        lemma_divisor_le(gcd(a, 1) as int, 1);
    } else if a == 0 || a % n == 0 {
        if a == 0 {
            lemma_small_mod(0, n);
        }
        assert(gcd(a, n) == gcd(n, 0)) by {
            reveal_with_fuel(gcd, 2);
        }
    } else if a >= n {
        lemma_mod_bound(a as int, n as int);
        lemma_jacobi_zero_iff(a % n, n);
        lemma_gcd_mod(a, n);
    } else if a % 2 == 0 {
        lemma_jacobi_zero_iff(a / 2, n);
        lemma_gcd_halve(a, n);
        let j = jacobi_symbol(a / 2, n);
        assert(two_sign(n) * j == 0 <==> j == 0) by (nonlinear_arith)
            requires
                two_sign(n) == 1 || two_sign(n) == -1,
        ;
    } else {
        lemma_small_mod(a, n);
        lemma_mod_bound(n as int, a as int);
        lemma_jacobi_zero_iff(n % a, a);
        lemma_gcd_mod(n, a);
        lemma_gcd_symmetric(n, a);
        let j = jacobi_symbol(n % a, a);
        assert(reciprocity_sign(a, n) * j == 0 <==> j == 0) by (nonlinear_arith)
            requires
                reciprocity_sign(a, n) == 1 || reciprocity_sign(a, n) == -1,
        ;
    }
}

/// The symbol depends on `a` modulo `n` only.
pub proof fn lemma_jacobi_mod(a: nat, n: nat)
    requires
        n % 2 == 1,
    ensures
        jacobi_symbol(a % n, n) == jacobi_symbol(a, n),
{
    lemma_mod_twice(a as int, n as int);
    lemma_mod_bound(a as int, n as int);
    if a == 0 {
        lemma_small_mod(0, n);
    }
    if n != 1 && a % n != 0 && a < n {
        lemma_small_mod(a, n);
    }
}

/// `b^e` is `(b*b)^(e/2)`, times `b` when `e` is odd.
pub proof fn lemma_pow_halve(b: int, e: nat)
    ensures
        pow(b, e) == pow(b * b, e / 2) * (if e % 2 == 1 { b } else { 1 }),
{
    let h = e / 2;
    reveal_with_fuel(pow, 3);
    assert(pow(b, 2) == b * b) by (nonlinear_arith)
        requires
            pow(b, 2) == b * (b * 1),
    ;
    lemma_pow_multiplies(b, 2, h);
    if e % 2 == 1 {
        lemma_pow_adds(b, 2 * h, 1);
        lemma_pow1(b);
    }
}

/// One round of square-and-multiply keeps `acc * base^exp` modulo `m`.
pub proof fn lemma_powm_step(m: int, base: int, exp: nat, acc: int)
    requires
        m > 0,
        exp > 0,
    ensures
        ((if exp % 2 == 1 { (acc * base) % m } else { acc }) * pow((base * base) % m, exp / 2)) % m
            == (acc * pow(base, exp)) % m,
{
    let h = exp / 2;
    let sq = base * base;
    lemma_pow_halve(base, exp);
    lemma_pow_mod_noop(sq, h, m);
    // pow(sq % m, h) % m == pow(sq, h) % m
    let ps = pow(sq % m, h);
    let p = pow(sq, h);
    if exp % 2 == 1 {
        let acc2 = (acc * base) % m;
        lemma_mul_mod_noop_general(acc * base, p, m);
        lemma_mul_mod_noop_general(acc2, ps, m);
        lemma_mod_twice(acc * base, m);
        assert((acc * base) * p == acc * (p * base)) by (nonlinear_arith);
    } else {
        lemma_mul_mod_noop_general(acc, ps, m);
        lemma_mul_mod_noop_general(acc, p, m);
        assert(p * 1 == p);
    }
}

/// One round of double-and-add keeps `acc + a * b` modulo `m`.
pub proof fn lemma_mulm_step(m: int, a: int, b: nat, acc: int)
    requires
        m > 0,
    ensures
        ((if b % 2 == 1 { (acc + a) % m } else { acc }) + ((a + a) % m) * (b / 2)) % m == (acc + a
            * b) % m,
{
    let h = (b / 2) as int;
    let d = (a + a) % m;
    let acc2 = if b % 2 == 1 { (acc + a) % m } else { acc };
    lemma_mul_mod_noop_left(a + a, h, m);
    lemma_add_mod_noop(acc2, d * h, m);
    lemma_add_mod_noop(acc2, (a + a) * h, m);
    if b % 2 == 1 {
        lemma_add_mod_noop_right((a + a) * h, acc + a, m);
        assert((a + a) * h + (acc + a) == acc + a * b) by (nonlinear_arith)
            requires
                b == 2 * h + 1,
        ;
    } else {
        assert(acc + (a + a) * h == acc + a * b) by (nonlinear_arith)
            requires
                b == 2 * h,
        ;
    }
}

/// One round of the extended Euclidean algorithm: with `lt * x = lr` and
/// `t * x = r` modulo `m`, the new coefficient `lt - q * t` belongs to the
/// new remainder `lr - q * r`.
pub proof fn lemma_invm_step(m: int, x: int, lt: int, t: int, lr: int, r: int, q: int, nt: int)
    requires
        m > 0,
        (lt * x - lr) % m == 0,
        (t * x - r) % m == 0,
        nt == (lt - (q * t) % m) % m,
    ensures
        (nt * x - (lr - q * r)) % m == 0,
{
    lemma_fundamental_div_mod(q * t, m);
    lemma_fundamental_div_mod(lt - (q * t) % m, m);
    lemma_fundamental_div_mod(lt * x - lr, m);
    lemma_fundamental_div_mod(t * x - r, m);
    let k1 = (q * t) / m;
    let k2 = (lt - (q * t) % m) / m;
    let u = (lt * x - lr) / m;
    let v = (t * x - r) / m;
    let qt = q * t;
    let k = k1 - k2;
    assert(nt == lt - qt + m * k) by (nonlinear_arith)
        requires
            qt == m * k1 + qt % m,
            lt - qt % m == m * k2 + nt,
            k == k1 - k2,
    ;
    assert(nt * x == lt * x - qt * x + m * (k * x)) by (nonlinear_arith)
        requires
            nt == lt - qt + m * k,
    ;
    assert(qt * x == m * (q * v) + q * r) by (nonlinear_arith)
        requires
            qt == q * t,
            t * x - r == m * v,
    ;
    assert(nt * x - (lr - q * r) == m * (u - q * v + k * x)) by (nonlinear_arith)
        requires
            nt * x == lt * x - qt * x + m * (k * x),
            qt * x == m * (q * v) + q * r,
            lt * x - lr == m * u,
    ;
    lemma_multiple_divides(m, u - q * v + k * x);
}

/// If `2^j` divides `a` and the quotient is even, `2^(j+1)` divides `a`.
pub proof fn lemma_pow2_divides_step(a: nat, j: nat)
    requires
        a % pow2(j) == 0,
        (a / pow2(j)) % 2 == 0,
    ensures
        a % pow2(j + 1) == 0,
{
    lemma_pow2_pos(j);
    lemma_pow2_unfold(j + 1);
    let p = pow2(j) as int;
    let q = (a / pow2(j)) as int;
    lemma_fundamental_div_mod(a as int, p);
    assert(a as int == (2 * p) * (q / 2)) by (nonlinear_arith)
        requires
            a as int == p * q,
            q % 2 == 0,
    ;
    lemma_multiple_divides(2 * p, q / 2);
}

/// `k` is the exponent of 2 in `a`: `a == 2^k * odd`, and 0 for `a == 0`.
pub open spec fn is_fac2(a: nat, k: nat) -> bool {
    if a == 0 {
        k == 0
    } else {
        a % pow2(k) == 0 && (a / pow2(k)) % 2 == 1
    }
}

/// The exponent of 2 in `a`; 0 for 0.
pub open spec fn two_adicity(a: nat) -> nat
    decreases a,
{
    if a == 0 || a % 2 == 1 {
        0
    } else {
        1 + two_adicity(a / 2)
    }
}

/// `a` without its factors of 2.
pub open spec fn odd_part(a: nat) -> nat {
    a / pow2(two_adicity(a))
}

/// `two_adicity` is the exponent of 2.
pub proof fn lemma_two_adicity(a: nat)
    ensures
        is_fac2(a, two_adicity(a)),
    decreases a,
{
    lemma2_to64();
    if a == 0 || a % 2 == 1 {
    } else {
        let h = a / 2;
        lemma_two_adicity(h);
        let k = two_adicity(h);
        lemma_pow2_pos(k);
        lemma_pow2_unfold(k + 1);
        let p = pow2(k) as int;
        let q = (h / pow2(k)) as int;
        lemma_fundamental_div_mod(h as int, p);
        assert(a as int == q * (2 * p)) by (nonlinear_arith)
            requires
                a == 2 * h,
                h as int == p * q,
        ;
        lemma_mod_multiples_basic(q, 2 * p);
        lemma_div_by_multiple(q, 2 * p);
    }
}

/// The exponent of 2 is unique.
pub proof fn lemma_fac2_unique(a: nat, k: nat)
    requires
        is_fac2(a, k),
    ensures
        k == two_adicity(a),
    decreases k,
{
    lemma2_to64();
    if a == 0 {
    } else if k == 0 {
        assert(a / 1 == a);
    } else {
        let j = (k - 1) as nat;
        lemma_pow2_pos(j);
        lemma_pow2_unfold(k);
        let p = pow2(j) as int;
        let q = (a / pow2(k)) as int;
        lemma_fundamental_div_mod(a as int, 2 * p);
        let h = a / 2;
        assert(a as int == 2 * (p * q) && h as int == q * p) by (nonlinear_arith)
            requires
                a as int == (2 * p) * q,
                h == a / 2,
        ;
        lemma_mod_multiples_basic(q, p);
        lemma_div_by_multiple(q, p);
        lemma_fac2_unique(h, j);
    }
}

/// A number is its odd part times the power of 2 in it.
pub proof fn lemma_odd_part(a: nat)
    requires
        a > 0,
    ensures
        a == odd_part(a) * pow2(two_adicity(a)),
        odd_part(a) % 2 == 1,
{
    lemma_two_adicity(a);
    lemma_pow2_pos(two_adicity(a));
    lemma_fundamental_div_mod(a as int, pow2(two_adicity(a)) as int);
    lemma_mul_is_commutative(odd_part(a) as int, pow2(two_adicity(a)) as int);
}

/// The exponent of 2 in a positive 64-bit number is below 64.
pub proof fn lemma_fac2_below_64(a: u64, k: nat)
    requires
        a > 0,
        is_fac2(a as nat, k),
    ensures
        k < 64,
        pow2(k) <= a,
        a as nat == (a as nat / pow2(k)) * pow2(k),
{
    lemma_pow2_pos(k);
    lemma_fundamental_div_mod(a as int, pow2(k) as int);
    let q = a as nat / pow2(k);
    lemma_mul_is_commutative(q as int, pow2(k) as int);
    assert(q * pow2(k) >= pow2(k)) by (nonlinear_arith)
        requires
            q >= 1,
    ;
    if k >= 64 {
        lemma2_to64();
        lemma_pow2_adds(32, 32);
        if k > 64 {
            lemma_pow2_strictly_increases(64, k);
        }
    }
}

/// `(a - b) mod m` from the two residues.
pub proof fn lemma_subm(x: int, y: int, m: int)
    requires
        m > 0,
    ensures
        (x - y) % m == if x % m >= y % m {
            x % m - y % m
        } else {
            m - (y % m - x % m)
        },
{
    let a = x % m;
    let b = y % m;
    lemma_mod_bound(x, m);
    lemma_mod_bound(y, m);
    lemma_sub_mod_noop(x, y, m);
    if a >= b {
        lemma_small_mod((a - b) as nat, m as nat);
    } else {
        lemma_mod_add_multiples_vanish(a - b, m);
        lemma_small_mod((m + (a - b)) as nat, m as nat);
    }
}

/// The symbol of 1 is 1.
pub proof fn lemma_jacobi_one(n: nat)
    requires
        n % 2 == 1,
    ensures
        jacobi_symbol(1, n) == 1,
{
    reveal_with_fuel(jacobi_symbol, 2);
    if n > 1 {
        lemma_small_mod(1, n);
    }
}

/// Taking a factor 2 out of `a`, for `0 < a < n`.
pub proof fn lemma_jacobi_even(a: nat, n: nat)
    requires
        n % 2 == 1,
        0 < a < n,
        a % 2 == 0,
    ensures
        jacobi_symbol(a, n) == two_sign(n) * jacobi_symbol(a / 2, n),
{
    lemma_small_mod(a, n);
}

/// Swapping odd arguments, for `0 < a < n`.
pub proof fn lemma_jacobi_swap(a: nat, n: nat)
    requires
        n % 2 == 1,
        0 < a < n,
        a % 2 == 1,
    ensures
        jacobi_symbol(a, n) == reciprocity_sign(a, n) * jacobi_symbol(n % a, a),
{
    lemma_small_mod(a, n);
}

/// The symbol of 0 is 1 for `n == 1` and 0 otherwise.
pub proof fn lemma_jacobi_zero(n: nat)
    requires
        n % 2 == 1,
    ensures
        jacobi_symbol(0, n) == if n == 1 {
            1int
        } else {
            0int
        },
{
}

/// A sign change in front of a product.
pub proof fn lemma_sign_flip(t: int, s: int, j: int)
    requires
        s == 1 || s == -1,
    ensures
        t * (s * j) == (if s == 1 {
            t
        } else {
            -t
        }) * j,
{
    assert(t * (s * j) == (t * s) * j) by (nonlinear_arith);
    assert(t * s == if s == 1 {
        t
    } else {
        -t
    }) by (nonlinear_arith)
        requires
            s == 1 || s == -1,
    ;
}

/// What the extended Euclidean loop has found when the remainder is spent.
pub proof fn lemma_invm_done(a: nat, m: nat, last_r: nat, last_t: nat)
    requires
        m > 0,
        last_r > 0,
        gcd(last_r, 0) == gcd(a, m),
        (last_t * (a % m) - last_r) % (m as int) == 0,
    ensures
        gcd(a, m) == last_r,
        last_r == 1 ==> (a * last_t) % m == 1nat % m,
{
    if last_r == 1 {
        let x = a % m;
        lemma_mod_equivalence((last_t * x) as int, 1, m as int);
        lemma_mul_mod_noop_right(last_t as int, a as int, m as int);
        lemma_mul_is_commutative(a as int, last_t as int);
    }
}

} // verus!
