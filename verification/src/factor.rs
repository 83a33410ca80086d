//! Finding one proper divisor: Pollard's rho, Shanks's square forms, and
//! trial division.

use crate::divisibility::{
    divides, gcd, lemma_divisor_le, lemma_gcd_divides, lemma_multiple_divides,
};
use crate::primes::{is_prime_nat, least_divisor, lemma_least_divisor};
use crate::traits::ModInt;
use vstd::arithmetic::div_mod::*;
use vstd::arithmetic::mul::*;
use vstd::prelude::*;

verus! {

/// The integer square root, by `num_integer::Roots::sqrt`, which documents
/// its result `r` as the truncated root: `r * r <= n < (r + 1) * (r + 1)`.
#[verifier::external_body]
fn isqrt(n: u64) -> (r: u64)
    ensures
        r * r <= n < (r + 1) * (r + 1),
{
    num_integer::Roots::sqrt(&n)
}

/// The greatest common divisor, by Euclid's algorithm.
pub fn gcd64(a: u64, b: u64) -> (g: u64)
    ensures
        g == gcd(a as nat, b as nat),
{
    let mut x = a;
    let mut y = b;
    while y != 0
        invariant
            gcd(x as nat, y as nat) == gcd(a as nat, b as nat),
        decreases y,
    {
        let r = x % y;
        x = y;
        y = r;
    }
    x
}

/// The polynomial that Pollard's rho iterates: `x^2 + c mod n`.
pub open spec fn rho_next(x: nat, c: nat, n: nat) -> nat {
    (x * x + c) % n
}

/// The distance between two naturals.
pub open spec fn abs_diff(x: nat, y: nat) -> nat {
    if x > y {
        (x - y) as nat
    } else {
        (y - x) as nat
    }
}

/// Pollard's rho with Floyd's cycle detection, for at most `steps` rounds: a
/// tortoise `x` moves one step of `rho_next`, a hare `y` two; the first round
/// in which their distance shares a factor with `n` decides: that factor, or
/// nothing if it is `n` itself.
pub open spec fn rho_search(n: nat, x: nat, y: nat, c: nat, steps: nat) -> Option<nat>
    decreases steps,
{
    if steps == 0 {
        None
    } else {
        let x1 = rho_next(x, c, n);
        let y1 = rho_next(rho_next(y, c, n), c, n);
        let d = gcd(abs_diff(x1, y1), n);
        if d == 1 {
            rho_search(n, x1, y1, c, (steps - 1) as nat)
        } else if d == n {
            None
        } else {
            Some(d)
        }
    }
}

/// One step of the rho iteration.
fn rho_step(x: u64, offset: u64, target: u64) -> (r: u64)
    requires
        target > 0,
    ensures
        r == rho_next(x as nat, offset as nat, target as nat),
        r < target,
{
    proof {
        lemma_add_mod_noop_right(offset as int, (x * x) as int, target as int);
        lemma_mod_bound(x * x + offset, target as int);
    }
    x.mulm(&x, &target).addm(&offset, &target)
}

/// Pollard's rho on `target`, from the seed `start` with the polynomial
/// `x^2 + offset`, for at most `target` rounds. A divisor that it returns is
/// a proper one.
pub fn pollard_rho(target: u64, start: u64, offset: u64) -> (r: Option<u64>)
    requires
        target > 0,
    ensures
        match r {
            Some(d) => rho_search(
                target as nat,
                start as nat,
                start as nat,
                offset as nat,
                target as nat,
            ) == Some(d as nat) && 1 < d < target && target % d == 0,
            None => rho_search(
                target as nat,
                start as nat,
                start as nat,
                offset as nat,
                target as nat,
            ) is None,
        },
{
    let mut x = start;
    let mut y = start;
    let mut i: u64 = 0;
    while i < target
        invariant
            target > 0,
            i <= target,
            rho_search(
                target as nat,
                start as nat,
                start as nat,
                offset as nat,
                target as nat,
            ) == rho_search(target as nat, x as nat, y as nat, offset as nat, (target - i) as nat),
        decreases target - i,
    {
        x = rho_step(x, offset, target);
        y = rho_step(rho_step(y, offset, target), offset, target);
        let diff = if x > y {
            x - y
        } else {
            y - x
        };
        let d = gcd64(diff, target);
        if d != 1 {
            proof {
                lemma_gcd_divides(diff as nat, target as nat);
                lemma_divisor_le(d as int, target as int);
            }
            if d == target {
                return None;
            }
            return Some(d);
        }
        i = i + 1;
    }
    None
}

/// `r` is the integer square root of `n`: the largest number whose square
/// does not exceed `n`.
pub open spec fn is_isqrt(n: nat, r: nat) -> bool {
    r * r <= n < (r + 1) * (r + 1)
}

/// The integer square root of `n`.
pub open spec fn isqrt_nat(n: nat) -> nat {
    choose|r: nat| is_isqrt(n, r)
}

/// There is only one integer square root.
pub proof fn lemma_isqrt_unique(n: nat, r: nat)
    requires
        r * r <= n < (r + 1) * (r + 1),
    ensures
        isqrt_nat(n) == r,
{
    let s = isqrt_nat(n);
    assert(is_isqrt(n, r));
    assert(s == r) by (nonlinear_arith)
        requires
            s * s <= n < (s + 1) * (s + 1),
            r * r <= n < (r + 1) * (r + 1),
    ;
}

/// The integer square root.
pub fn integer_sqrt(n: u64) -> (r: u64)
    ensures
        r == isqrt_nat(n as nat),
        r * r <= n < (r + 1) * (r + 1),
        r < 0x1_0000_0000,
{
    let r = isqrt(n);
    proof {
        lemma_isqrt_unique(n as nat, r as nat);
        assert(r < 0x1_0000_0000) by (nonlinear_arith)
            requires
                r * r <= n,
                n <= u64::MAX,
        ;
    }
    r
}

/// One step along the cycle of reduced quadratic forms of discriminant
/// `4 k n`: from the form with the middle coefficient `p` between the ends
/// `q_prev` and `q` to its neighbour, in 64-bit arithmetic that wraps
/// around. The result holds the new `p`, `q_prev` and `q`.
pub open spec fn form_step(p0: u64, p: u64, q_prev: u64, q: u64) -> (u64, u64, u64) {
    let b = (p0.wrapping_add(p) / q) as u64;
    let p2 = b.wrapping_mul(q).wrapping_sub(p);
    let q2 = q_prev.wrapping_add(b.wrapping_mul(p.wrapping_sub(p2)));
    (p2, q, q2)
}

/// The forward cycle: steps from the round `i` up to the round `bound`,
/// until an even round ends in a form whose end `q` is a square; the result
/// holds the `p` of that form and the root of its `q`. The search fails at a
/// form with `q == 0`.
pub open spec fn forward_search(p0: u64, p: u64, q_prev: u64, q: u64, i: nat, bound: nat) -> Option<
    (u64, u64),
>
    decreases bound - i,
{
    if i >= bound || q == 0 {
        None
    } else {
        let (p2, q_prev2, q2) = form_step(p0, p, q_prev, q);
        let r = isqrt_nat(q2 as nat);
        if i % 2 == 0 && r * r == q2 {
            Some((p2, r as u64))
        } else {
            forward_search(p0, p2, q_prev2, q2, i + 1, bound)
        }
    }
}

/// The reverse cycle: steps from the round `j` up to the round `bound`, or
/// until a step leaves `p` as it was; the result is the end `q_prev` of the
/// last form. The search fails at a form with `q == 0`.
pub open spec fn reverse_search(p0: u64, p: u64, q_prev: u64, q: u64, j: nat, bound: nat) -> Option<
    u64,
>
    decreases bound - j,
{
    if j >= bound {
        Some(q_prev)
    } else if q == 0 {
        None
    } else {
        let (p2, q_prev2, q2) = form_step(p0, p, q_prev, q);
        if p2 == p {
            Some(q_prev2)
        } else {
            reverse_search(p0, p2, q_prev2, q2, j + 1, bound)
        }
    }
}

/// How many rounds each cycle is followed for: six times the square root of
/// twice the square root of `n`.
pub open spec fn squfof_rounds(n: u64) -> nat {
    6 * isqrt_nat(2 * isqrt_nat(n as nat))
}

/// What Shanks's square forms factorisation finds for `n` with the
/// multiplier `k`. The root of a square is found at once. Else the forward
/// cycle from the principal form of discriminant `4 k n` leads to a form with
/// a square end, the reverse cycle from the root of that form leads to an
/// ambiguous form, and the gcd of its end with `n` is the result where it is
/// a proper divisor of `n`.
pub open spec fn squfof_factor(n: u64, k: u64) -> Option<u64> {
    if n < 2 || n * k > u64::MAX {
        None
    } else if n >= 4 && isqrt_nat(n as nat) * isqrt_nat(n as nat) == n {
        Some(isqrt_nat(n as nat) as u64)
    } else {
        let kn = (n * k) as u64;
        let p0 = isqrt_nat(kn as nat) as u64;
        let bound = squfof_rounds(n);
        match forward_search(p0, p0, 1, (kn - p0 * p0) as u64, 2, bound) {
            None => None,
            Some((p, r)) => if r == 0 {
                None
            } else {
                let b = (p0.wrapping_sub(p) / r) as u64;
                let p1 = b.wrapping_mul(r).wrapping_add(p);
                let q = (kn.wrapping_sub(p1.wrapping_mul(p1)) / r) as u64;
                match reverse_search(p0, p1, r, q, 0, bound) {
                    None => None,
                    Some(end) => {
                        let d = gcd(n as nat, end as nat);
                        if 1 < d < n {
                            Some(d as u64)
                        } else {
                            None
                        }
                    },
                }
            },
        }
    }
}

/// One step along the cycle of forms.
fn next_form(p0: u64, p: u64, q_prev: u64, q: u64) -> (r: (u64, u64, u64))
    requires
        q != 0,
    ensures
        r == form_step(p0, p, q_prev, q),
{
    let b = p0.wrapping_add(p) / q;
    let p2 = b.wrapping_mul(q).wrapping_sub(p);
    let q2 = q_prev.wrapping_add(b.wrapping_mul(p.wrapping_sub(p2)));
    (p2, q, q2)
}

/// The forward cycle from the principal form.
fn forward_cycle(p0: u64, q0: u64, bound: u64) -> (r: Option<(u64, u64)>)
    ensures
        r == forward_search(p0, p0, 1, q0, 2, bound as nat),
{
    let mut p = p0;
    let mut q_prev: u64 = 1;
    let mut q = q0;
    let mut i: u64 = 2;
    while i < bound
        invariant
            i >= 2,
            forward_search(p0, p0, 1, q0, 2, bound as nat) == forward_search(
                p0,
                p,
                q_prev,
                q,
                i as nat,
                bound as nat,
            ),
        decreases bound - i,
    {
        if q == 0 {
            return None;
        }
        let (p2, q_prev2, q2) = next_form(p0, p, q_prev, q);
        if i % 2 == 0 {
            let r = integer_sqrt(q2);
            if r * r == q2 {
                return Some((p2, r));
            }
        }
        p = p2;
        q_prev = q_prev2;
        q = q2;
        i = i + 1;
    }
    None
}

/// The reverse cycle from the root of a form with a square end.
fn reverse_cycle(p0: u64, p1: u64, r: u64, q1: u64, bound: u64) -> (end: Option<u64>)
    ensures
        end == reverse_search(p0, p1, r, q1, 0, bound as nat),
{
    let mut p = p1;
    let mut q_prev = r;
    let mut q = q1;
    let mut j: u64 = 0;
    while j < bound
        invariant
            reverse_search(p0, p1, r, q1, 0, bound as nat) == reverse_search(
                p0,
                p,
                q_prev,
                q,
                j as nat,
                bound as nat,
            ),
        decreases bound - j,
    {
        if q == 0 {
            return None;
        }
        let (p2, q_prev2, q2) = next_form(p0, p, q_prev, q);
        if p2 == p {
            return Some(q_prev2);
        }
        p = p2;
        q_prev = q_prev2;
        q = q2;
        j = j + 1;
    }
    Some(q_prev)
}

/// Shanks's square forms factorisation of `target` with the multiplier
/// `multiplier`. A divisor that it returns is a proper one; it gives up
/// where `multiplier * target` does not fit in 64 bits.
pub fn squfof(target: u64, multiplier: u64) -> (r: Option<u64>)
    ensures
        r == squfof_factor(target, multiplier),
        r matches Some(d) ==> 1 < d < target && target % d == 0,
{
    if target < 2 {
        return None;
    }
    let kn = match target.checked_mul(multiplier) {
        Some(v) => v,
        None => {
            return None;
        },
    };
    let p0 = integer_sqrt(kn);
    let root = integer_sqrt(target);
    if target >= 4 && root * root == target {
        proof {
            lemma_multiple_divides(root as int, root as int);
            assert(1 < root < target) by (nonlinear_arith)
                requires
                    root * root == target,
                    target >= 4,
            ;
        }
        return Some(root);
    }
    let small = integer_sqrt(2 * root);
    assert(small < 0x2_0000) by (nonlinear_arith)
        requires
            small * small <= 2 * root,
            root < 0x1_0000_0000,
    ;
    let bound = 6 * small;
    // the forward cycle, until a form with a square end is found
    let (p, r) = match forward_cycle(p0, kn - p0 * p0, bound) {
        Some(found) => found,
        None => {
            return None;
        },
    };
    if r == 0 {
        return None;
    }
    // the reverse cycle, until the form repeats
    let b = p0.wrapping_sub(p) / r;
    let p1 = b.wrapping_mul(r).wrapping_add(p);
    let q = kn.wrapping_sub(p1.wrapping_mul(p1)) / r;
    let end = match reverse_cycle(p0, p1, r, q, bound) {
        Some(end) => end,
        None => {
            return None;
        },
    };
    let d = gcd64(target, end);
    proof {
        lemma_gcd_divides(target as nat, end as nat);
    }
    if d > 1 && d < target {
        Some(d)
    } else {
        None
    }
}

/// The least divisor above one, by trial division up to the square root.
pub fn smallest_factor(n: u64) -> (d: u64)
    requires
        n >= 2,
    ensures
        d == least_divisor(n as nat),
        2 <= d <= n,
        n % d == 0,
        is_prime_nat(d as nat),
        d == n <==> is_prime_nat(n as nat),
{
    let mut k: u64 = 2;
    while k <= n / k
        invariant
            2 <= k <= n,
            forall|j: nat| 1 < j < k ==> !#[trigger] divides(j, n as nat),
        decreases n - k,
    {
        if n % k == 0 {
            proof {
                lemma_least_divisor(n as nat);
                assert(divides(k as nat, n as nat));
                assert(divides(least_divisor(n as nat), n as nat));
            }
            return k;
        }
        proof {
            lemma_fundamental_div_mod(n as int, k as int);
            assert(k * (n / k) >= 2 * k) by (nonlinear_arith)
                requires
                    n / k >= k,
                    k >= 2,
            ;
        }
        k = k + 1;
    }
    proof {
        lemma_least_divisor(n as nat);
        let l = least_divisor(n as nat);
        if l < n {
            // l * l <= n, so l <= n / l, and the loop met l
            lemma_fundamental_div_mod(n as int, k as int);
            assert(l < k) by (nonlinear_arith)
                requires
                    l * l <= n,
                    n == k * (n / k) + n % k,
                    n % k < k,
                    k > n / k,
                    k >= 2,
                    l >= 2,
            ;
            assert(divides(l, n as nat));
        }
    }
    n
}

} // verus!
