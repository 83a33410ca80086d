//! The modular operations on the primitive unsigned integers.

use crate::divisibility::{gcd, lemma_gcd_mod, lemma_gcd_symmetric};
use crate::modular::{
    is_fac2, jacobi_symbol, lemma_invm_done, lemma_invm_step, lemma_jacobi_even, lemma_jacobi_mod,
    lemma_jacobi_one, lemma_jacobi_swap, lemma_jacobi_zero, lemma_mulm_step,
    lemma_pow2_divides_step, lemma_powm_step, lemma_sign_flip, lemma_subm, reciprocity_sign,
    two_sign,
};
use crate::traits::{lemma_jacobi, ModInt, PrimalityBase};
use vstd::arithmetic::div_mod::*;
use vstd::arithmetic::mul::*;
use vstd::arithmetic::power::*;
use vstd::arithmetic::power2::*;
use vstd::bits::*;
use vstd::prelude::*;
use vstd::std_specs::bits::*;

verus! {

proof fn lemma_u8_low_bits_clear(a: u8, j: nat)
    requires
        j <= 8,
        forall|i: u8| 0 <= i < j ==> #[trigger] (a >> i) & 1u8 == 0u8,
    ensures
        a as nat % pow2(j) == 0,
    decreases j,
{
    if j == 0 {
        lemma2_to64();
    } else {
        let p = (j - 1) as nat;
        lemma_u8_low_bits_clear(a, p);
        let i = p as u8;
        assert((a >> i) & 1u8 == 0u8);
        lemma_u8_shr_is_div(a, i);
        let y = a >> i;
        assert(y & 1u8 == y % 2) by (bit_vector);
        lemma_pow2_divides_step(a as nat, p);
    }
}

proof fn lemma_u8_trailing_zeros_is_fac2(a: u8)
    requires
        a > 0,
    ensures
        u8_trailing_zeros(a) < 8,
        is_fac2(a as nat, u8_trailing_zeros(a) as nat),
{
    axiom_u8_trailing_zeros(a);
    let k = u8_trailing_zeros(a);
    lemma_u8_low_bits_clear(a, k as nat);
    let i = k as u8;
    lemma_u8_shr_is_div(a, i);
    let y = a >> i;
    assert(y & 1u8 == y % 2) by (bit_vector);
}

impl ModInt for u8 {
    open spec fn value(&self) -> nat {
        *self as nat
    }

    fn fac2(&self) -> (k: usize) {
        let a = *self;
        if a == 0 {
            return 0;
        }
        proof {
            lemma_u8_trailing_zeros_is_fac2(a);
        }
        a.trailing_zeros() as usize
    }

    fn addm(&self, rhs: &u8, m: &u8) -> (r: u8) {
        ((*self as u16 + *rhs as u16) % (*m as u16)) as u8
    }

    fn subm(&self, rhs: &u8, m: &u8) -> (r: u8) {
        let a = *self % *m;
        let b = *rhs % *m;
        proof {
            lemma_subm(*self as int, *rhs as int, *m as int);
        }
        if a >= b {
            a - b
        } else {
            *m - (b - a)
        }
    }

    fn mulm(&self, rhs: &u8, m: &u8) -> (r: u8) {
        assert(*self * *rhs <= u8::MAX * u8::MAX) by (nonlinear_arith);
        ((*self as u16 * *rhs as u16) % (*m as u16)) as u8
    }

    fn powm(&self, exp: &u8, m: &u8) -> (r: u8) {
        let m = *m;
        let base = *self;
        let e0 = *exp;
        if e0 == 1 {
            proof {
                lemma_pow1(base as int);
            }
            return base % m;
        }
        if e0 == 2 {
            proof {
                lemma_square_is_pow2(base as int);
            }
            return base.mulm(&base, &m);
        }
        let mut multi = base % m;
        let mut exp = e0;
        let mut result: u8 = 1 % m;
        proof {
            lemma_pow_mod_noop(base as int, e0 as nat, m as int);
            lemma_mul_mod_noop_left(1, pow(multi as int, exp as nat), m as int);
        }
        while exp > 0
            invariant
                m > 0,
                multi < m,
                result < m,
                (result * pow(multi as int, exp as nat)) % (m as int) == pow(
                    base as int,
                    e0 as nat,
                ) % (m as int),
            decreases exp,
        {
            proof {
                lemma_powm_step(m as int, multi as int, exp as nat, result as int);
            }
            if exp % 2 == 1 {
                result = result.mulm(&multi, &m);
            }
            multi = multi.mulm(&multi, &m);
            exp = exp / 2;
        }
        proof {
            lemma_pow0(multi as int);
            lemma_small_mod(result as nat, m as nat);
        }
        result
    }

    fn invm(&self, m: &u8) -> (r: Option<u8>) {
        let m = *m;
        let a = *self;
        let x = if a >= m {
            a % m
        } else {
            a
        };
        let mut last_r = m;
        let mut r = x;
        let mut last_t: u8 = 0;
        let mut t: u8 = 1;
        proof {
            lemma_small_mod(x as nat, m as nat);
            lemma_mod_twice(a as int, m as int);
            lemma_gcd_mod(a as nat, m as nat);
            lemma_gcd_symmetric(x as nat, m as nat);
            lemma_mod_multiples_basic(-1, m as int);
            lemma_small_mod(0, m as nat);
        }
        while r > 0
            invariant
                m > 0,
                x == a % m,
                last_r > 0,
                gcd(last_r as nat, r as nat) == gcd(a as nat, m as nat),
                (last_t * x - last_r) % (m as int) == 0,
                (t * x - r) % (m as int) == 0,
                last_t < m,
                r > 0 ==> t < m,
            decreases r,
        {
            let quo = last_r / r;
            let rem = last_r % r;
            let new_t = last_t.subm(&quo.mulm(&t, &m), &m);
            proof {
                lemma_fundamental_div_mod(last_r as int, r as int);
                lemma_mul_is_commutative(quo as int, r as int);
                lemma_invm_step(
                    m as int,
                    x as int,
                    last_t as int,
                    t as int,
                    last_r as int,
                    r as int,
                    quo as int,
                    new_t as int,
                );
                lemma_mod_bound(last_t - (quo * t) % (m as int), m as int);
            }
            last_r = r;
            r = rem;
            last_t = t;
            t = new_t;
        }
        proof {
            lemma_invm_done(a as nat, m as nat, last_r as nat, last_t as nat);
        }
        if last_r > 1 {
            None
        } else {
            Some(last_t)
        }
    }

    fn jacobi(&self, n: &u8) -> (r: i8) {
        let a0 = *self;
        let n0 = *n;
        proof {
            lemma_jacobi(a0 as nat, n0 as nat);
        }
        if a0 == 1 {
            proof {
                lemma_jacobi_one(n0 as nat);
            }
            return 1;
        }
        let mut a = a0 % n0;
        let mut n = n0;
        let mut t: i8 = 1;
        proof {
            lemma_jacobi_mod(a0 as nat, n0 as nat);
        }
        while a > 0
            invariant
                n % 2 == 1,
                a < n,
                t == 1 || t == -1,
                jacobi_symbol(a0 as nat, n0 as nat) == t * jacobi_symbol(a as nat, n as nat),
            decreases n,
        {
            while a % 2 == 0
                invariant
                    n % 2 == 1,
                    0 < a < n,
                    t == 1 || t == -1,
                    jacobi_symbol(a0 as nat, n0 as nat) == t * jacobi_symbol(a as nat, n as nat),
                decreases a,
            {
                proof {
                    lemma_jacobi_even(a as nat, n as nat);
                    lemma_sign_flip(
                        t as int,
                        two_sign(n as nat),
                        jacobi_symbol((a / 2) as nat, n as nat),
                    );
                }
                a = a / 2;
                if n % 8 == 3 || n % 8 == 5 {
                    t = -t;
                }
            }
            proof {
                lemma_jacobi_swap(a as nat, n as nat);
                lemma_sign_flip(
                    t as int,
                    reciprocity_sign(a as nat, n as nat),
                    jacobi_symbol((n % a) as nat, a as nat),
                );
            }
            std::mem::swap(&mut a, &mut n);
            if a % 4 == 3 && n % 4 == 3 {
                t = -t;
            }
            a = a % n;
        }
        proof {
            lemma_jacobi_zero(n as nat);
        }
        if n == 1 {
            t
        } else {
            0
        }
    }
}

impl PrimalityBase for u8 {
    open spec fn limit() -> nat {
        0x100
    }

    proof fn lemma_limit() {
    }

    fn try_from_u64(x: u64) -> (r: Option<u8>) {
        if x <= u8::MAX as u64 {
            Some(x as u8)
        } else {
            None
        }
    }

    fn as_u64(&self) -> (r: Option<u64>) {
        Some(*self as u64)
    }

    fn duplicate(&self) -> (r: u8) {
        *self
    }

    fn equals(&self, other: &u8) -> (r: bool) {
        *self == *other
    }

    fn add_small(&self, d: u8) -> (r: Option<u8>) {
        self.checked_add(d as u8)
    }

    fn sub_small(&self, d: u8) -> (r: u8) {
        *self - d as u8
    }

    fn rem_small(&self, m: u8) -> (r: u8) {
        (*self % (m as u8)) as u8
    }

    fn shift_right(&self, k: usize) -> (r: u8) {
        if k >= 8 {
            proof {
                lemma2_to64();
                if k > 8 {
                    lemma_pow2_strictly_increases(8, k as nat);
                }
                lemma_basic_div(*self as int, pow2(k as nat) as int);
            }
            0
        } else {
            proof {
                lemma_u8_shr_is_div(*self, k as u8);
            }
            *self >> (k as u8)
        }
    }

    fn times(&self, k: u64) -> (r: Option<u8>) {
        if *self == 0 {
            assert(0 * k == 0);
            return Some(0);
        }
        if k > u8::MAX as u64 {
            assert(*self * k >= k) by (nonlinear_arith)
                requires
                    *self >= 1,
            ;
            return None;
        }
        self.checked_mul(k as u8)
    }

    fn twice_plus_one(&self) -> (r: Option<u8>) {
        if *self <= (u8::MAX - 1) / 2 {
            Some(2 * *self + 1)
        } else {
            None
        }
    }
}

proof fn lemma_u16_low_bits_clear(a: u16, j: nat)
    requires
        j <= 16,
        forall|i: u16| 0 <= i < j ==> #[trigger] (a >> i) & 1u16 == 0u16,
    ensures
        a as nat % pow2(j) == 0,
    decreases j,
{
    if j == 0 {
        lemma2_to64();
    } else {
        let p = (j - 1) as nat;
        lemma_u16_low_bits_clear(a, p);
        let i = p as u16;
        assert((a >> i) & 1u16 == 0u16);
        lemma_u16_shr_is_div(a, i);
        let y = a >> i;
        assert(y & 1u16 == y % 2) by (bit_vector);
        lemma_pow2_divides_step(a as nat, p);
    }
}

proof fn lemma_u16_trailing_zeros_is_fac2(a: u16)
    requires
        a > 0,
    ensures
        u16_trailing_zeros(a) < 16,
        is_fac2(a as nat, u16_trailing_zeros(a) as nat),
{
    axiom_u16_trailing_zeros(a);
    let k = u16_trailing_zeros(a);
    lemma_u16_low_bits_clear(a, k as nat);
    let i = k as u16;
    lemma_u16_shr_is_div(a, i);
    let y = a >> i;
    assert(y & 1u16 == y % 2) by (bit_vector);
}

impl ModInt for u16 {
    open spec fn value(&self) -> nat {
        *self as nat
    }

    fn fac2(&self) -> (k: usize) {
        let a = *self;
        if a == 0 {
            return 0;
        }
        proof {
            lemma_u16_trailing_zeros_is_fac2(a);
        }
        a.trailing_zeros() as usize
    }

    fn addm(&self, rhs: &u16, m: &u16) -> (r: u16) {
        ((*self as u32 + *rhs as u32) % (*m as u32)) as u16
    }

    fn subm(&self, rhs: &u16, m: &u16) -> (r: u16) {
        let a = *self % *m;
        let b = *rhs % *m;
        proof {
            lemma_subm(*self as int, *rhs as int, *m as int);
        }
        if a >= b {
            a - b
        } else {
            *m - (b - a)
        }
    }

    fn mulm(&self, rhs: &u16, m: &u16) -> (r: u16) {
        assert(*self * *rhs <= u16::MAX * u16::MAX) by (nonlinear_arith);
        ((*self as u32 * *rhs as u32) % (*m as u32)) as u16
    }

    fn powm(&self, exp: &u16, m: &u16) -> (r: u16) {
        let m = *m;
        let base = *self;
        let e0 = *exp;
        if e0 == 1 {
            proof {
                lemma_pow1(base as int);
            }
            return base % m;
        }
        if e0 == 2 {
            proof {
                lemma_square_is_pow2(base as int);
            }
            return base.mulm(&base, &m);
        }
        let mut multi = base % m;
        let mut exp = e0;
        let mut result: u16 = 1 % m;
        proof {
            lemma_pow_mod_noop(base as int, e0 as nat, m as int);
            lemma_mul_mod_noop_left(1, pow(multi as int, exp as nat), m as int);
        }
        while exp > 0
            invariant
                m > 0,
                multi < m,
                result < m,
                (result * pow(multi as int, exp as nat)) % (m as int) == pow(
                    base as int,
                    e0 as nat,
                ) % (m as int),
            decreases exp,
        {
            proof {
                lemma_powm_step(m as int, multi as int, exp as nat, result as int);
            }
            if exp % 2 == 1 {
                result = result.mulm(&multi, &m);
            }
            multi = multi.mulm(&multi, &m);
            exp = exp / 2;
        }
        proof {
            lemma_pow0(multi as int);
            lemma_small_mod(result as nat, m as nat);
        }
        result
    }

    fn invm(&self, m: &u16) -> (r: Option<u16>) {
        let m = *m;
        let a = *self;
        let x = if a >= m {
            a % m
        } else {
            a
        };
        let mut last_r = m;
        let mut r = x;
        let mut last_t: u16 = 0;
        let mut t: u16 = 1;
        proof {
            lemma_small_mod(x as nat, m as nat);
            lemma_mod_twice(a as int, m as int);
            lemma_gcd_mod(a as nat, m as nat);
            lemma_gcd_symmetric(x as nat, m as nat);
            lemma_mod_multiples_basic(-1, m as int);
            lemma_small_mod(0, m as nat);
        }
        while r > 0
            invariant
                m > 0,
                x == a % m,
                last_r > 0,
                gcd(last_r as nat, r as nat) == gcd(a as nat, m as nat),
                (last_t * x - last_r) % (m as int) == 0,
                (t * x - r) % (m as int) == 0,
                last_t < m,
                r > 0 ==> t < m,
            decreases r,
        {
            let quo = last_r / r;
            let rem = last_r % r;
            let new_t = last_t.subm(&quo.mulm(&t, &m), &m);
            proof {
                lemma_fundamental_div_mod(last_r as int, r as int);
                lemma_mul_is_commutative(quo as int, r as int);
                lemma_invm_step(
                    m as int,
                    x as int,
                    last_t as int,
                    t as int,
                    last_r as int,
                    r as int,
                    quo as int,
                    new_t as int,
                );
                lemma_mod_bound(last_t - (quo * t) % (m as int), m as int);
            }
            last_r = r;
            r = rem;
            last_t = t;
            t = new_t;
        }
        proof {
            lemma_invm_done(a as nat, m as nat, last_r as nat, last_t as nat);
        }
        if last_r > 1 {
            None
        } else {
            Some(last_t)
        }
    }

    fn jacobi(&self, n: &u16) -> (r: i8) {
        let a0 = *self;
        let n0 = *n;
        proof {
            lemma_jacobi(a0 as nat, n0 as nat);
        }
        if a0 == 1 {
            proof {
                lemma_jacobi_one(n0 as nat);
            }
            return 1;
        }
        let mut a = a0 % n0;
        let mut n = n0;
        let mut t: i8 = 1;
        proof {
            lemma_jacobi_mod(a0 as nat, n0 as nat);
        }
        while a > 0
            invariant
                n % 2 == 1,
                a < n,
                t == 1 || t == -1,
                jacobi_symbol(a0 as nat, n0 as nat) == t * jacobi_symbol(a as nat, n as nat),
            decreases n,
        {
            while a % 2 == 0
                invariant
                    n % 2 == 1,
                    0 < a < n,
                    t == 1 || t == -1,
                    jacobi_symbol(a0 as nat, n0 as nat) == t * jacobi_symbol(a as nat, n as nat),
                decreases a,
            {
                proof {
                    lemma_jacobi_even(a as nat, n as nat);
                    lemma_sign_flip(
                        t as int,
                        two_sign(n as nat),
                        jacobi_symbol((a / 2) as nat, n as nat),
                    );
                }
                a = a / 2;
                if n % 8 == 3 || n % 8 == 5 {
                    t = -t;
                }
            }
            proof {
                lemma_jacobi_swap(a as nat, n as nat);
                lemma_sign_flip(
                    t as int,
                    reciprocity_sign(a as nat, n as nat),
                    jacobi_symbol((n % a) as nat, a as nat),
                );
            }
            std::mem::swap(&mut a, &mut n);
            if a % 4 == 3 && n % 4 == 3 {
                t = -t;
            }
            a = a % n;
        }
        proof {
            lemma_jacobi_zero(n as nat);
        }
        if n == 1 {
            t
        } else {
            0
        }
    }
}

impl PrimalityBase for u16 {
    open spec fn limit() -> nat {
        0x1_0000
    }

    proof fn lemma_limit() {
    }

    fn try_from_u64(x: u64) -> (r: Option<u16>) {
        if x <= u16::MAX as u64 {
            Some(x as u16)
        } else {
            None
        }
    }

    fn as_u64(&self) -> (r: Option<u64>) {
        Some(*self as u64)
    }

    fn duplicate(&self) -> (r: u16) {
        *self
    }

    fn equals(&self, other: &u16) -> (r: bool) {
        *self == *other
    }

    fn add_small(&self, d: u8) -> (r: Option<u16>) {
        self.checked_add(d as u16)
    }

    fn sub_small(&self, d: u8) -> (r: u16) {
        *self - d as u16
    }

    fn rem_small(&self, m: u8) -> (r: u8) {
        (*self % (m as u16)) as u8
    }

    fn shift_right(&self, k: usize) -> (r: u16) {
        if k >= 16 {
            proof {
                lemma2_to64();
                if k > 16 {
                    lemma_pow2_strictly_increases(16, k as nat);
                }
                lemma_basic_div(*self as int, pow2(k as nat) as int);
            }
            0
        } else {
            proof {
                lemma_u16_shr_is_div(*self, k as u16);
            }
            *self >> (k as u16)
        }
    }

    fn times(&self, k: u64) -> (r: Option<u16>) {
        if *self == 0 {
            assert(0 * k == 0);
            return Some(0);
        }
        if k > u16::MAX as u64 {
            assert(*self * k >= k) by (nonlinear_arith)
                requires
                    *self >= 1,
            ;
            return None;
        }
        self.checked_mul(k as u16)
    }

    fn twice_plus_one(&self) -> (r: Option<u16>) {
        if *self <= (u16::MAX - 1) / 2 {
            Some(2 * *self + 1)
        } else {
            None
        }
    }
}

proof fn lemma_u32_low_bits_clear(a: u32, j: nat)
    requires
        j <= 32,
        forall|i: u32| 0 <= i < j ==> #[trigger] (a >> i) & 1u32 == 0u32,
    ensures
        a as nat % pow2(j) == 0,
    decreases j,
{
    if j == 0 {
        lemma2_to64();
    } else {
        let p = (j - 1) as nat;
        lemma_u32_low_bits_clear(a, p);
        let i = p as u32;
        assert((a >> i) & 1u32 == 0u32);
        lemma_u32_shr_is_div(a, i);
        let y = a >> i;
        assert(y & 1u32 == y % 2) by (bit_vector);
        lemma_pow2_divides_step(a as nat, p);
    }
}

proof fn lemma_u32_trailing_zeros_is_fac2(a: u32)
    requires
        a > 0,
    ensures
        u32_trailing_zeros(a) < 32,
        is_fac2(a as nat, u32_trailing_zeros(a) as nat),
{
    axiom_u32_trailing_zeros(a);
    let k = u32_trailing_zeros(a);
    lemma_u32_low_bits_clear(a, k as nat);
    let i = k as u32;
    lemma_u32_shr_is_div(a, i);
    let y = a >> i;
    assert(y & 1u32 == y % 2) by (bit_vector);
}

impl ModInt for u32 {
    open spec fn value(&self) -> nat {
        *self as nat
    }

    fn fac2(&self) -> (k: usize) {
        let a = *self;
        if a == 0 {
            return 0;
        }
        proof {
            lemma_u32_trailing_zeros_is_fac2(a);
        }
        a.trailing_zeros() as usize
    }

    fn addm(&self, rhs: &u32, m: &u32) -> (r: u32) {
        ((*self as u64 + *rhs as u64) % (*m as u64)) as u32
    }

    fn subm(&self, rhs: &u32, m: &u32) -> (r: u32) {
        let a = *self % *m;
        let b = *rhs % *m;
        proof {
            lemma_subm(*self as int, *rhs as int, *m as int);
        }
        if a >= b {
            a - b
        } else {
            *m - (b - a)
        }
    }

    fn mulm(&self, rhs: &u32, m: &u32) -> (r: u32) {
        assert(*self * *rhs <= u32::MAX * u32::MAX) by (nonlinear_arith);
        ((*self as u64 * *rhs as u64) % (*m as u64)) as u32
    }

    fn powm(&self, exp: &u32, m: &u32) -> (r: u32) {
        let m = *m;
        let base = *self;
        let e0 = *exp;
        if e0 == 1 {
            proof {
                lemma_pow1(base as int);
            }
            return base % m;
        }
        if e0 == 2 {
            proof {
                lemma_square_is_pow2(base as int);
            }
            return base.mulm(&base, &m);
        }
        let mut multi = base % m;
        let mut exp = e0;
        let mut result: u32 = 1 % m;
        proof {
            lemma_pow_mod_noop(base as int, e0 as nat, m as int);
            lemma_mul_mod_noop_left(1, pow(multi as int, exp as nat), m as int);
        }
        while exp > 0
            invariant
                m > 0,
                multi < m,
                result < m,
                (result * pow(multi as int, exp as nat)) % (m as int) == pow(
                    base as int,
                    e0 as nat,
                ) % (m as int),
            decreases exp,
        {
            proof {
                lemma_powm_step(m as int, multi as int, exp as nat, result as int);
            }
            if exp % 2 == 1 {
                result = result.mulm(&multi, &m);
            }
            multi = multi.mulm(&multi, &m);
            exp = exp / 2;
        }
        proof {
            lemma_pow0(multi as int);
            lemma_small_mod(result as nat, m as nat);
        }
        result
    }

    fn invm(&self, m: &u32) -> (r: Option<u32>) {
        let m = *m;
        let a = *self;
        let x = if a >= m {
            a % m
        } else {
            a
        };
        let mut last_r = m;
        let mut r = x;
        let mut last_t: u32 = 0;
        let mut t: u32 = 1;
        proof {
            lemma_small_mod(x as nat, m as nat);
            lemma_mod_twice(a as int, m as int);
            lemma_gcd_mod(a as nat, m as nat);
            lemma_gcd_symmetric(x as nat, m as nat);
            lemma_mod_multiples_basic(-1, m as int);
            lemma_small_mod(0, m as nat);
        }
        while r > 0
            invariant
                m > 0,
                x == a % m,
                last_r > 0,
                gcd(last_r as nat, r as nat) == gcd(a as nat, m as nat),
                (last_t * x - last_r) % (m as int) == 0,
                (t * x - r) % (m as int) == 0,
                last_t < m,
                r > 0 ==> t < m,
            decreases r,
        {
            let quo = last_r / r;
            let rem = last_r % r;
            let new_t = last_t.subm(&quo.mulm(&t, &m), &m);
            proof {
                lemma_fundamental_div_mod(last_r as int, r as int);
                lemma_mul_is_commutative(quo as int, r as int);
                lemma_invm_step(
                    m as int,
                    x as int,
                    last_t as int,
                    t as int,
                    last_r as int,
                    r as int,
                    quo as int,
                    new_t as int,
                );
                lemma_mod_bound(last_t - (quo * t) % (m as int), m as int);
            }
            last_r = r;
            r = rem;
            last_t = t;
            t = new_t;
        }
        proof {
            lemma_invm_done(a as nat, m as nat, last_r as nat, last_t as nat);
        }
        if last_r > 1 {
            None
        } else {
            Some(last_t)
        }
    }

    fn jacobi(&self, n: &u32) -> (r: i8) {
        let a0 = *self;
        let n0 = *n;
        proof {
            lemma_jacobi(a0 as nat, n0 as nat);
        }
        if a0 == 1 {
            proof {
                lemma_jacobi_one(n0 as nat);
            }
            return 1;
        }
        let mut a = a0 % n0;
        let mut n = n0;
        let mut t: i8 = 1;
        proof {
            lemma_jacobi_mod(a0 as nat, n0 as nat);
        }
        while a > 0
            invariant
                n % 2 == 1,
                a < n,
                t == 1 || t == -1,
                jacobi_symbol(a0 as nat, n0 as nat) == t * jacobi_symbol(a as nat, n as nat),
            decreases n,
        {
            while a % 2 == 0
                invariant
                    n % 2 == 1,
                    0 < a < n,
                    t == 1 || t == -1,
                    jacobi_symbol(a0 as nat, n0 as nat) == t * jacobi_symbol(a as nat, n as nat),
                decreases a,
            {
                proof {
                    lemma_jacobi_even(a as nat, n as nat);
                    lemma_sign_flip(
                        t as int,
                        two_sign(n as nat),
                        jacobi_symbol((a / 2) as nat, n as nat),
                    );
                }
                a = a / 2;
                if n % 8 == 3 || n % 8 == 5 {
                    t = -t;
                }
            }
            proof {
                lemma_jacobi_swap(a as nat, n as nat);
                lemma_sign_flip(
                    t as int,
                    reciprocity_sign(a as nat, n as nat),
                    jacobi_symbol((n % a) as nat, a as nat),
                );
            }
            std::mem::swap(&mut a, &mut n);
            if a % 4 == 3 && n % 4 == 3 {
                t = -t;
            }
            a = a % n;
        }
        proof {
            lemma_jacobi_zero(n as nat);
        }
        if n == 1 {
            t
        } else {
            0
        }
    }
}

impl PrimalityBase for u32 {
    open spec fn limit() -> nat {
        0x1_0000_0000
    }

    proof fn lemma_limit() {
    }

    fn try_from_u64(x: u64) -> (r: Option<u32>) {
        if x <= u32::MAX as u64 {
            Some(x as u32)
        } else {
            None
        }
    }

    fn as_u64(&self) -> (r: Option<u64>) {
        Some(*self as u64)
    }

    fn duplicate(&self) -> (r: u32) {
        *self
    }

    fn equals(&self, other: &u32) -> (r: bool) {
        *self == *other
    }

    fn add_small(&self, d: u8) -> (r: Option<u32>) {
        self.checked_add(d as u32)
    }

    fn sub_small(&self, d: u8) -> (r: u32) {
        *self - d as u32
    }

    fn rem_small(&self, m: u8) -> (r: u8) {
        (*self % (m as u32)) as u8
    }

    fn shift_right(&self, k: usize) -> (r: u32) {
        if k >= 32 {
            proof {
                lemma2_to64();
                if k > 32 {
                    lemma_pow2_strictly_increases(32, k as nat);
                }
                lemma_basic_div(*self as int, pow2(k as nat) as int);
            }
            0
        } else {
            proof {
                lemma_u32_shr_is_div(*self, k as u32);
            }
            *self >> (k as u32)
        }
    }

    fn times(&self, k: u64) -> (r: Option<u32>) {
        if *self == 0 {
            assert(0 * k == 0);
            return Some(0);
        }
        if k > u32::MAX as u64 {
            assert(*self * k >= k) by (nonlinear_arith)
                requires
                    *self >= 1,
            ;
            return None;
        }
        self.checked_mul(k as u32)
    }

    fn twice_plus_one(&self) -> (r: Option<u32>) {
        if *self <= (u32::MAX - 1) / 2 {
            Some(2 * *self + 1)
        } else {
            None
        }
    }
}

proof fn lemma_u64_low_bits_clear(a: u64, j: nat)
    requires
        j <= 64,
        forall|i: u64| 0 <= i < j ==> #[trigger] (a >> i) & 1u64 == 0u64,
    ensures
        a as nat % pow2(j) == 0,
    decreases j,
{
    if j == 0 {
        lemma2_to64();
    } else {
        let p = (j - 1) as nat;
        lemma_u64_low_bits_clear(a, p);
        let i = p as u64;
        assert((a >> i) & 1u64 == 0u64);
        lemma_u64_shr_is_div(a, i);
        let y = a >> i;
        assert(y & 1u64 == y % 2) by (bit_vector);
        lemma_pow2_divides_step(a as nat, p);
    }
}

proof fn lemma_u64_trailing_zeros_is_fac2(a: u64)
    requires
        a > 0,
    ensures
        u64_trailing_zeros(a) < 64,
        is_fac2(a as nat, u64_trailing_zeros(a) as nat),
{
    axiom_u64_trailing_zeros(a);
    let k = u64_trailing_zeros(a);
    lemma_u64_low_bits_clear(a, k as nat);
    let i = k as u64;
    lemma_u64_shr_is_div(a, i);
    let y = a >> i;
    assert(y & 1u64 == y % 2) by (bit_vector);
}

impl ModInt for u64 {
    open spec fn value(&self) -> nat {
        *self as nat
    }

    fn fac2(&self) -> (k: usize) {
        let a = *self;
        if a == 0 {
            return 0;
        }
        proof {
            lemma_u64_trailing_zeros_is_fac2(a);
        }
        a.trailing_zeros() as usize
    }

    fn addm(&self, rhs: &u64, m: &u64) -> (r: u64) {
        ((*self as u128 + *rhs as u128) % (*m as u128)) as u64
    }

    fn subm(&self, rhs: &u64, m: &u64) -> (r: u64) {
        let a = *self % *m;
        let b = *rhs % *m;
        proof {
            lemma_subm(*self as int, *rhs as int, *m as int);
        }
        if a >= b {
            a - b
        } else {
            *m - (b - a)
        }
    }

    fn mulm(&self, rhs: &u64, m: &u64) -> (r: u64) {
        assert(*self * *rhs <= u64::MAX * u64::MAX) by (nonlinear_arith);
        ((*self as u128 * *rhs as u128) % (*m as u128)) as u64
    }

    fn powm(&self, exp: &u64, m: &u64) -> (r: u64) {
        let m = *m;
        let base = *self;
        let e0 = *exp;
        if e0 == 1 {
            proof {
                lemma_pow1(base as int);
            }
            return base % m;
        }
        if e0 == 2 {
            proof {
                lemma_square_is_pow2(base as int);
            }
            return base.mulm(&base, &m);
        }
        let mut multi = base % m;
        let mut exp = e0;
        let mut result: u64 = 1 % m;
        proof {
            lemma_pow_mod_noop(base as int, e0 as nat, m as int);
            lemma_mul_mod_noop_left(1, pow(multi as int, exp as nat), m as int);
        }
        while exp > 0
            invariant
                m > 0,
                multi < m,
                result < m,
                (result * pow(multi as int, exp as nat)) % (m as int) == pow(
                    base as int,
                    e0 as nat,
                ) % (m as int),
            decreases exp,
        {
            proof {
                lemma_powm_step(m as int, multi as int, exp as nat, result as int);
            }
            if exp % 2 == 1 {
                result = result.mulm(&multi, &m);
            }
            multi = multi.mulm(&multi, &m);
            exp = exp / 2;
        }
        proof {
            lemma_pow0(multi as int);
            lemma_small_mod(result as nat, m as nat);
        }
        result
    }

    fn invm(&self, m: &u64) -> (r: Option<u64>) {
        let m = *m;
        let a = *self;
        let x = if a >= m {
            a % m
        } else {
            a
        };
        let mut last_r = m;
        let mut r = x;
        let mut last_t: u64 = 0;
        let mut t: u64 = 1;
        proof {
            lemma_small_mod(x as nat, m as nat);
            lemma_mod_twice(a as int, m as int);
            lemma_gcd_mod(a as nat, m as nat);
            lemma_gcd_symmetric(x as nat, m as nat);
            lemma_mod_multiples_basic(-1, m as int);
            lemma_small_mod(0, m as nat);
        }
        while r > 0
            invariant
                m > 0,
                x == a % m,
                last_r > 0,
                gcd(last_r as nat, r as nat) == gcd(a as nat, m as nat),
                (last_t * x - last_r) % (m as int) == 0,
                (t * x - r) % (m as int) == 0,
                last_t < m,
                r > 0 ==> t < m,
            decreases r,
        {
            let quo = last_r / r;
            let rem = last_r % r;
            let new_t = last_t.subm(&quo.mulm(&t, &m), &m);
            proof {
                lemma_fundamental_div_mod(last_r as int, r as int);
                lemma_mul_is_commutative(quo as int, r as int);
                lemma_invm_step(
                    m as int,
                    x as int,
                    last_t as int,
                    t as int,
                    last_r as int,
                    r as int,
                    quo as int,
                    new_t as int,
                );
                lemma_mod_bound(last_t - (quo * t) % (m as int), m as int);
            }
            last_r = r;
            r = rem;
            last_t = t;
            t = new_t;
        }
        proof {
            lemma_invm_done(a as nat, m as nat, last_r as nat, last_t as nat);
        }
        if last_r > 1 {
            None
        } else {
            Some(last_t)
        }
    }

    fn jacobi(&self, n: &u64) -> (r: i8) {
        let a0 = *self;
        let n0 = *n;
        proof {
            lemma_jacobi(a0 as nat, n0 as nat);
        }
        if a0 == 1 {
            proof {
                lemma_jacobi_one(n0 as nat);
            }
            return 1;
        }
        let mut a = a0 % n0;
        let mut n = n0;
        let mut t: i8 = 1;
        proof {
            lemma_jacobi_mod(a0 as nat, n0 as nat);
        }
        while a > 0
            invariant
                n % 2 == 1,
                a < n,
                t == 1 || t == -1,
                jacobi_symbol(a0 as nat, n0 as nat) == t * jacobi_symbol(a as nat, n as nat),
            decreases n,
        {
            while a % 2 == 0
                invariant
                    n % 2 == 1,
                    0 < a < n,
                    t == 1 || t == -1,
                    jacobi_symbol(a0 as nat, n0 as nat) == t * jacobi_symbol(a as nat, n as nat),
                decreases a,
            {
                proof {
                    lemma_jacobi_even(a as nat, n as nat);
                    lemma_sign_flip(
                        t as int,
                        two_sign(n as nat),
                        jacobi_symbol((a / 2) as nat, n as nat),
                    );
                }
                a = a / 2;
                if n % 8 == 3 || n % 8 == 5 {
                    t = -t;
                }
            }
            proof {
                lemma_jacobi_swap(a as nat, n as nat);
                lemma_sign_flip(
                    t as int,
                    reciprocity_sign(a as nat, n as nat),
                    jacobi_symbol((n % a) as nat, a as nat),
                );
            }
            std::mem::swap(&mut a, &mut n);
            if a % 4 == 3 && n % 4 == 3 {
                t = -t;
            }
            a = a % n;
        }
        proof {
            lemma_jacobi_zero(n as nat);
        }
        if n == 1 {
            t
        } else {
            0
        }
    }
}

impl PrimalityBase for u64 {
    open spec fn limit() -> nat {
        0x1_0000_0000_0000_0000
    }

    proof fn lemma_limit() {
    }

    fn try_from_u64(x: u64) -> (r: Option<u64>) {
        Some(x)
    }

    fn as_u64(&self) -> (r: Option<u64>) {
        Some(*self)
    }

    fn duplicate(&self) -> (r: u64) {
        *self
    }

    fn equals(&self, other: &u64) -> (r: bool) {
        *self == *other
    }

    fn add_small(&self, d: u8) -> (r: Option<u64>) {
        self.checked_add(d as u64)
    }

    fn sub_small(&self, d: u8) -> (r: u64) {
        *self - d as u64
    }

    fn rem_small(&self, m: u8) -> (r: u8) {
        (*self % (m as u64)) as u8
    }

    fn shift_right(&self, k: usize) -> (r: u64) {
        if k >= 64 {
            proof {
                lemma2_to64();
                if k > 64 {
                    lemma_pow2_strictly_increases(64, k as nat);
                }
                lemma_basic_div(*self as int, pow2(k as nat) as int);
            }
            0
        } else {
            proof {
                lemma_u64_shr_is_div(*self, k as u64);
            }
            *self >> (k as u64)
        }
    }

    fn times(&self, k: u64) -> (r: Option<u64>) {
        self.checked_mul(k)
    }

    fn twice_plus_one(&self) -> (r: Option<u64>) {
        if *self <= (u64::MAX - 1) / 2 {
            Some(2 * *self + 1)
        } else {
            None
        }
    }
}

/// `2^k <= a` forces `k < 128` for a 128-bit `a`.
proof fn lemma_pow2_below_u128(a: u128, x: nat, k: nat)
    requires
        x > 0,
        a as nat == x * pow2(k),
    ensures
        k < 128,
{
    if k >= 128 {
        lemma2_to64();
        lemma_pow2_adds(64, 64);
        if k > 128 {
            lemma_pow2_strictly_increases(128, k);
        }
        assert(x * pow2(k) >= pow2(k)) by (nonlinear_arith)
            requires
                x > 0,
        ;
    }
}

/// Dividing `x * 2^k` with even `x` by two moves a factor into the power.
proof fn lemma_fac2_step(x: nat, k: nat)
    requires
        x % 2 == 0,
    ensures
        (x / 2) * pow2(k + 1) == x * pow2(k),
{
    lemma_pow2_unfold(k + 1);
    let h = x / 2;
    assert(h * (2 * pow2(k)) == x * pow2(k)) by (nonlinear_arith)
        requires
            x == 2 * h,
    ;
}

/// An odd cofactor of `2^k` makes `k` the exponent of 2.
proof fn lemma_fac2_done(a: nat, x: nat, k: nat)
    requires
        a == x * pow2(k),
        x % 2 == 1,
    ensures
        is_fac2(a, k),
{
    lemma_pow2_pos(k);
    lemma_mod_multiples_basic(x as int, pow2(k) as int);
    lemma_div_by_multiple(x as int, pow2(k) as int);
    assert(a > 0) by (nonlinear_arith)
        requires
            a == x * pow2(k),
            x > 0,
            pow2(k) > 0,
    ;
}

impl ModInt for u128 {
    open spec fn value(&self) -> nat {
        *self as nat
    }

    fn fac2(&self) -> (k: usize) {
        let a = *self;
        if a == 0 {
            return 0;
        }
        let mut x = a;
        let mut k: usize = 0;
        proof {
            lemma2_to64();
        }
        while x % 2 == 0
            invariant
                x > 0,
                k < 128,
                a as nat == x as nat * pow2(k as nat),
            decreases x,
        {
            proof {
                lemma_fac2_step(x as nat, k as nat);
                lemma_pow2_below_u128(a, (x / 2) as nat, (k + 1) as nat);
            }
            x = x / 2;
            k = k + 1;
        }
        proof {
            lemma_fac2_done(a as nat, x as nat, k as nat);
        }
        k
    }

    fn addm(&self, rhs: &u128, m: &u128) -> (r: u128) {
        let m = *m;
        if let Some(ab) = self.checked_add(*rhs) {
            return ab % m;
        }
        let a = *self % m;
        let b = *rhs % m;
        proof {
            lemma_add_mod_noop(*self as int, *rhs as int, m as int);
            if a < m - b {
                lemma_small_mod((a + b) as nat, m as nat);
            } else {
                lemma_mod_sub_multiples_vanish(a + b, m as int);
                lemma_small_mod((a + b - m) as nat, m as nat);
            }
        }
        if a < m - b {
            a + b
        } else {
            let lo = if a < b {
                a
            } else {
                b
            };
            let hi = if a < b {
                b
            } else {
                a
            };
            lo - (m - hi)
        }
    }

    fn subm(&self, rhs: &u128, m: &u128) -> (r: u128) {
        let a = *self % *m;
        let b = *rhs % *m;
        proof {
            lemma_subm(*self as int, *rhs as int, *m as int);
        }
        if a >= b {
            a - b
        } else {
            *m - (b - a)
        }
    }

    fn mulm(&self, rhs: &u128, m: &u128) -> (r: u128) {
        let m = *m;
        if let Some(ab) = self.checked_mul(*rhs) {
            return ab % m;
        }
        let mut a = *self % m;
        let mut b = *rhs % m;
        proof {
            lemma_mul_mod_noop_general(*self as int, *rhs as int, m as int);
        }
        if let Some(ab) = a.checked_mul(b) {
            return ab % m;
        }
        let ghost a0 = a;
        let ghost b0 = b;
        let mut result: u128 = 0;
        while b > 0
            invariant
                m > 0,
                a < m,
                result < m,
                (result + a * b) % (m as int) == (a0 * b0) % (m as int),
            decreases b,
        {
            proof {
                lemma_mulm_step(m as int, a as int, b as nat, result as int);
            }
            if b % 2 == 1 {
                result = result.addm(&a, &m);
            }
            a = a.addm(&a, &m);
            b = b / 2;
        }
        proof {
            lemma_mul_basics(a as int);
            lemma_small_mod(result as nat, m as nat);
        }
        result
    }

    fn powm(&self, exp: &u128, m: &u128) -> (r: u128) {
        let m = *m;
        let base = *self;
        let e0 = *exp;
        if e0 == 1 {
            proof {
                lemma_pow1(base as int);
            }
            return base % m;
        }
        if e0 == 2 {
            proof {
                lemma_square_is_pow2(base as int);
            }
            return base.mulm(&base, &m);
        }
        let mut multi = base % m;
        let mut exp = e0;
        let mut result: u128 = 1 % m;
        proof {
            lemma_pow_mod_noop(base as int, e0 as nat, m as int);
            lemma_mul_mod_noop_left(1, pow(multi as int, exp as nat), m as int);
        }
        while exp > 0
            invariant
                m > 0,
                multi < m,
                result < m,
                (result * pow(multi as int, exp as nat)) % (m as int) == pow(
                    base as int,
                    e0 as nat,
                ) % (m as int),
            decreases exp,
        {
            proof {
                lemma_powm_step(m as int, multi as int, exp as nat, result as int);
            }
            if exp % 2 == 1 {
                result = result.mulm(&multi, &m);
            }
            multi = multi.mulm(&multi, &m);
            exp = exp / 2;
        }
        proof {
            lemma_pow0(multi as int);
            lemma_small_mod(result as nat, m as nat);
        }
        result
    }

    fn invm(&self, m: &u128) -> (r: Option<u128>) {
        let m = *m;
        let a = *self;
        let x = if a >= m {
            a % m
        } else {
            a
        };
        let mut last_r = m;
        let mut r = x;
        let mut last_t: u128 = 0;
        let mut t: u128 = 1;
        proof {
            lemma_small_mod(x as nat, m as nat);
            lemma_mod_twice(a as int, m as int);
            lemma_gcd_mod(a as nat, m as nat);
            lemma_gcd_symmetric(x as nat, m as nat);
            lemma_mod_multiples_basic(-1, m as int);
            lemma_small_mod(0, m as nat);
        }
        while r > 0
            invariant
                m > 0,
                x == a % m,
                last_r > 0,
                gcd(last_r as nat, r as nat) == gcd(a as nat, m as nat),
                (last_t * x - last_r) % (m as int) == 0,
                (t * x - r) % (m as int) == 0,
                last_t < m,
                r > 0 ==> t < m,
            decreases r,
        {
            let quo = last_r / r;
            let rem = last_r % r;
            let new_t = last_t.subm(&quo.mulm(&t, &m), &m);
            proof {
                lemma_fundamental_div_mod(last_r as int, r as int);
                lemma_mul_is_commutative(quo as int, r as int);
                lemma_invm_step(
                    m as int,
                    x as int,
                    last_t as int,
                    t as int,
                    last_r as int,
                    r as int,
                    quo as int,
                    new_t as int,
                );
                lemma_mod_bound(last_t - (quo * t) % (m as int), m as int);
            }
            last_r = r;
            r = rem;
            last_t = t;
            t = new_t;
        }
        proof {
            lemma_invm_done(a as nat, m as nat, last_r as nat, last_t as nat);
        }
        if last_r > 1 {
            None
        } else {
            Some(last_t)
        }
    }

    fn jacobi(&self, n: &u128) -> (r: i8) {
        let a0 = *self;
        let n0 = *n;
        proof {
            lemma_jacobi(a0 as nat, n0 as nat);
        }
        if a0 == 1 {
            proof {
                lemma_jacobi_one(n0 as nat);
            }
            return 1;
        }
        let mut a = a0 % n0;
        let mut n = n0;
        let mut t: i8 = 1;
        proof {
            lemma_jacobi_mod(a0 as nat, n0 as nat);
        }
        while a > 0
            invariant
                n % 2 == 1,
                a < n,
                t == 1 || t == -1,
                jacobi_symbol(a0 as nat, n0 as nat) == t * jacobi_symbol(a as nat, n as nat),
            decreases n,
        {
            while a % 2 == 0
                invariant
                    n % 2 == 1,
                    0 < a < n,
                    t == 1 || t == -1,
                    jacobi_symbol(a0 as nat, n0 as nat) == t * jacobi_symbol(a as nat, n as nat),
                decreases a,
            {
                proof {
                    lemma_jacobi_even(a as nat, n as nat);
                    lemma_sign_flip(
                        t as int,
                        two_sign(n as nat),
                        jacobi_symbol((a / 2) as nat, n as nat),
                    );
                }
                a = a / 2;
                if n % 8 == 3 || n % 8 == 5 {
                    t = -t;
                }
            }
            proof {
                lemma_jacobi_swap(a as nat, n as nat);
                lemma_sign_flip(
                    t as int,
                    reciprocity_sign(a as nat, n as nat),
                    jacobi_symbol((n % a) as nat, a as nat),
                );
            }
            std::mem::swap(&mut a, &mut n);
            if a % 4 == 3 && n % 4 == 3 {
                t = -t;
            }
            a = a % n;
        }
        proof {
            lemma_jacobi_zero(n as nat);
        }
        if n == 1 {
            t
        } else {
            0
        }
    }
}

impl PrimalityBase for u128 {
    open spec fn limit() -> nat {
        0x1_0000_0000_0000_0000_0000_0000_0000_0000nat
    }

    proof fn lemma_limit() {
    }

    fn try_from_u64(x: u64) -> (r: Option<u128>) {
        Some(x as u128)
    }

    fn as_u64(&self) -> (r: Option<u64>) {
        if *self <= u64::MAX as u128 {
            Some(*self as u64)
        } else {
            None
        }
    }

    fn duplicate(&self) -> (r: u128) {
        *self
    }

    fn equals(&self, other: &u128) -> (r: bool) {
        *self == *other
    }

    fn add_small(&self, d: u8) -> (r: Option<u128>) {
        self.checked_add(d as u128)
    }

    fn sub_small(&self, d: u8) -> (r: u128) {
        *self - d as u128
    }

    fn rem_small(&self, m: u8) -> (r: u8) {
        (*self % (m as u128)) as u8
    }

    fn shift_right(&self, k: usize) -> (r: u128) {
        if k >= 128 {
            proof {
                lemma2_to64();
                lemma_pow2_adds(64, 64);
                if k > 128 {
                    lemma_pow2_strictly_increases(128, k as nat);
                }
                lemma_basic_div(*self as int, pow2(k as nat) as int);
            }
            0
        } else {
            proof {
                lemma_u128_shr_is_div(*self, k as u128);
            }
            *self >> (k as u128)
        }
    }

    fn times(&self, k: u64) -> (r: Option<u128>) {
        self.checked_mul(k as u128)
    }

    fn twice_plus_one(&self) -> (r: Option<u128>) {
        if *self <= (u128::MAX - 1) / 2 {
            Some(2 * *self + 1)
        } else {
            None
        }
    }
}

} // verus!
