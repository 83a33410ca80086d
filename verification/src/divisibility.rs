//! Divisibility and greatest common divisors over the naturals.

use vstd::arithmetic::div_mod::*;
use vstd::arithmetic::mul::*;
use vstd::prelude::*;

verus! {

/// `d` divides `n`.
pub open spec fn divides(d: nat, n: nat) -> bool {
    d > 0 && n % d == 0
}

/// The greatest common divisor of `a` and `b`; `gcd(0, 0)` is `0`.
pub open spec fn gcd(a: nat, b: nat) -> nat
    decreases b,
{
    if b == 0 {
        a
    } else {
        gcd(b, a % b)
    }
}

/// A multiple of `d` leaves no remainder.
pub proof fn lemma_multiple_divides(d: int, k: int)
    requires
        d > 0,
    ensures
        (d * k) % d == 0,
        (k * d) % d == 0,
{
    lemma_mod_multiples_basic(k, d);
    lemma_mul_is_commutative(d, k);
}

/// A number is its divisor times the quotient.
pub proof fn lemma_divides_witness(d: int, n: int)
    requires
        d > 0,
        n % d == 0,
    ensures
        n == d * (n / d),
{
    lemma_fundamental_div_mod(n, d);
}

/// A common divisor of `x` and `y` divides every integer combination of them.
pub proof fn lemma_divides_combo(d: int, x: int, y: int, a: int, b: int)
    requires
        d > 0,
        x % d == 0,
        y % d == 0,
    ensures
        (a * x + b * y) % d == 0,
{
    lemma_divides_witness(d, x);
    lemma_divides_witness(d, y);
    let qx = x / d;
    let qy = y / d;
    assert(a * x + b * y == d * (a * qx + b * qy)) by (nonlinear_arith)
        requires
            x == d * qx,
            y == d * qy,
    ;
    lemma_multiple_divides(d, a * qx + b * qy);
}

/// Divisibility is transitive.
pub proof fn lemma_divides_trans(a: int, b: int, c: int)
    requires
        a > 0,
        b > 0,
        b % a == 0,
        c % b == 0,
    ensures
        c % a == 0,
{
    lemma_divides_witness(b, c);
    lemma_divides_combo(a, b, b, c / b, 0);
    lemma_mul_is_commutative(b, c / b);
}

/// A positive multiple of `d` is at least `d`.
pub proof fn lemma_divisor_le(d: int, n: int)
    requires
        d > 0,
        n > 0,
        n % d == 0,
    ensures
        d <= n,
{
    if n < d {
        lemma_small_mod(n as nat, d as nat);
    }
}

/// Two positive numbers that divide each other are equal.
pub proof fn lemma_divides_antisym(a: int, b: int)
    requires
        a > 0,
        b > 0,
        a % b == 0,
        b % a == 0,
    ensures
        a == b,
{
    lemma_divisor_le(a, b);
    lemma_divisor_le(b, a);
}

/// The gcd is positive unless both arguments vanish, and divides both.
pub proof fn lemma_gcd_divides(a: nat, b: nat)
    requires
        a > 0 || b > 0,
    ensures
        gcd(a, b) > 0,
        a % gcd(a, b) == 0,
        b % gcd(a, b) == 0,
    decreases b,
{
    if b == 0 {
        lemma_mod_self_0(a as int);
    } else {
        lemma_gcd_divides(b, a % b);
        let g = gcd(b, a % b) as int;
        lemma_fundamental_div_mod(a as int, b as int);
        lemma_divides_combo(g, b as int, (a % b) as int, (a / b) as int, 1);
        lemma_mul_is_commutative(b as int, (a / b) as int);
    }
}

/// Every common divisor divides the gcd.
pub proof fn lemma_gcd_greatest(a: nat, b: nat, d: nat)
    requires
        d > 0,
        a % d == 0,
        b % d == 0,
    ensures
        gcd(a, b) % d == 0,
    decreases b,
{
    if b != 0 {
        lemma_fundamental_div_mod(a as int, b as int);
        lemma_divides_combo(d as int, a as int, b as int, 1, -((a / b) as int));
        assert(1 * (a as int) + (-((a / b) as int)) * (b as int) == (a % b) as int)
            by (nonlinear_arith)
            requires
                a as int == (b as int) * ((a / b) as int) + (a % b) as int,
        ;
        lemma_gcd_greatest(b, a % b, d);
    }
}

/// Bezout's identity: the gcd is an integer combination of the arguments.
pub proof fn lemma_bezout(a: nat, b: nat) -> (c: (int, int))
    ensures
        a * c.0 + b * c.1 == gcd(a, b),
    decreases b,
{
    if b == 0 {
        (1, 0)
    } else {
        let (x, y) = lemma_bezout(b, a % b);
        let q = (a / b) as int;
        lemma_fundamental_div_mod(a as int, b as int);
        assert(a * y + b * (x - q * y) == b * x + (a % b) * y) by (nonlinear_arith)
            requires
                a as int == (b as int) * q + (a % b) as int,
        ;
        (y, x - q * y)
    }
}

/// The gcd does not depend on the order of its arguments.
pub proof fn lemma_gcd_symmetric(a: nat, b: nat)
    ensures
        gcd(a, b) == gcd(b, a),
{
    if a == 0 && b == 0 {
    } else {
        lemma_gcd_divides(a, b);
        lemma_gcd_divides(b, a);
        lemma_gcd_greatest(a, b, gcd(b, a));
        lemma_gcd_greatest(b, a, gcd(a, b));
        lemma_divides_antisym(gcd(a, b) as int, gcd(b, a) as int);
    }
}

/// Reducing the first argument modulo the second keeps the gcd.
pub proof fn lemma_gcd_mod(a: nat, m: nat)
    requires
        m > 0,
    ensures
        gcd(a % m, m) == gcd(a, m),
{
    lemma_gcd_symmetric(a % m, m);
}

/// Characterisation: a positive common divisor that every common divisor
/// divides is the gcd.
pub proof fn lemma_gcd_unique(a: nat, b: nat, g: nat)
    requires
        g > 0,
        a % g == 0,
        b % g == 0,
        forall|d: nat| d > 0 && a % d == 0 && b % d == 0 ==> #[trigger] (g % d) == 0,
    ensures
        gcd(a, b) == g,
{
    lemma_mod_self_0(g as int);
    if a == 0 && b == 0 {
        // every positive d divides both, so g + 1 divides g: impossible
        let d = g + 1;
        assert(0nat % d == 0);
        assert(g % d == 0);
        lemma_small_mod(g, d);
    } else {
        lemma_gcd_divides(a, b);
        lemma_gcd_greatest(a, b, g);
        let h = gcd(a, b);
        assert(g % h == 0);
        lemma_divides_antisym(g as int, h as int);
    }
}

/// Gauss: a number coprime to `a` that divides `a * b` divides `b`.
pub proof fn lemma_coprime_divides_product(n: nat, a: nat, b: nat)
    requires
        n > 0,
        gcd(a, n) == 1,
        (a * b) % n == 0,
    ensures
        b % n == 0,
{
    let (x, y) = lemma_bezout(a, n);
    assert(b as int == x * ((a * b) as int) + (b * y) * (n as int)) by (nonlinear_arith)
        requires
            a * x + n * y == 1,
    ;
    lemma_mod_self_0(n as int);
    lemma_divides_combo(n as int, (a * b) as int, n as int, x, b * y);
}

/// A residue with a multiplicative inverse is coprime to the modulus.
pub proof fn lemma_invertible_is_coprime(a: nat, x: nat, m: nat)
    requires
        m > 0,
        (a * x) % m == 1nat % m,
    ensures
        gcd(a, m) == 1,
{
    lemma_gcd_divides(a, m);
    let g = gcd(a, m);
    if m == 1 {
        lemma_divisor_le(g as int, m as int);
    } else {
        lemma_small_mod(1, m);
        // a * x == m * q + 1, and g divides a and m
        lemma_fundamental_div_mod((a * x) as int, m as int);
        let q = ((a * x) / m) as int;
        lemma_divides_combo(g as int, a as int, m as int, x as int, -q);
        assert((x as int) * (a as int) + (-q) * (m as int) == 1) by (nonlinear_arith)
            requires
                (a * x) as int == (m as int) * q + 1,
        ;
        assert(1int % (g as int) == 0);
        if g > 1 {
            lemma_small_mod(1, g);
        }
    }
}

/// A residue coprime to the modulus has an inverse in `[0, m)`.
pub proof fn lemma_coprime_has_inverse(a: nat, m: nat) -> (x: nat)
    requires
        m > 0,
        gcd(a, m) == 1,
    ensures
        x < m,
        (a * x) % m == 1nat % m,
{
    let (u, v) = lemma_bezout(a, m);
    let x = (u % (m as int)) as nat;
    lemma_mod_bound(u, m as int);
    // a * x == a * u == 1 - m * v (mod m)
    lemma_mul_mod_noop_right(a as int, u, m as int);
    assert(a * u == m * (-v) + 1) by (nonlinear_arith)
        requires
            a * u + m * v == 1,
    ;
    lemma_mod_multiples_vanish(-v, 1, m as int);
    x
}

/// Inverses modulo `m` are unique among the residues.
pub proof fn lemma_inverse_unique(a: nat, x: nat, y: nat, m: nat)
    requires
        m > 0,
        x < m,
        y < m,
        (a * x) % m == 1nat % m,
        (a * y) % m == 1nat % m,
    ensures
        x == y,
{
    lemma_invertible_is_coprime(a, x, m);
    if x != y {
        let hi = if x > y { x } else { y };
        let lo = if x > y { y } else { x };
        let diff = (hi - lo) as nat;
        assert((a * diff) as int == (a * hi) as int - (a * lo) as int) by (nonlinear_arith)
            requires
                diff == hi - lo,
        ;
        lemma_mod_equivalence((a * hi) as int, (a * lo) as int, m as int);
        lemma_coprime_divides_product(m, a, diff);
        lemma_small_mod(diff, m);
    }
}

} // verus!
