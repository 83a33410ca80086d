//! Natural numbers of arbitrary precision and the modular operations on
//! them. The numbers are held by their digits in base `2^32`; the arithmetic
//! on the digits is that of `num_bigint::BigUint`.

use crate::divisibility::{gcd, lemma_gcd_mod, lemma_gcd_symmetric};
use crate::modular::{
    is_fac2, jacobi_symbol, lemma_invm_done, lemma_invm_step, lemma_jacobi_even, lemma_jacobi_mod,
    lemma_jacobi_one, lemma_jacobi_swap, lemma_jacobi_zero, lemma_sign_flip, lemma_subm,
    reciprocity_sign, two_sign,
};
use crate::traits::{lemma_jacobi, ModInt, PrimalityBase};
use vstd::arithmetic::div_mod::*;
use vstd::arithmetic::mul::*;
use vstd::arithmetic::power::*;
use vstd::arithmetic::power2::*;
use vstd::prelude::*;

verus! {

/// The number that the digits `d` stand for in base `2^32`, the least
/// significant digit first.
pub open spec fn digits_value(d: Seq<u32>) -> nat
    decreases d.len(),
{
    if d.len() == 0 {
        0
    } else {
        d[0] as nat + 0x1_0000_0000 * digits_value(d.subrange(1, d.len() as int))
    }
}

/// The digits have no leading zero: the last one, the most significant, is
/// not 0.
pub open spec fn canonical(d: Seq<u32>) -> bool {
    d.len() == 0 || d.last() != 0
}

/// The most digits that a `BigNat` holds: enough for the numbers below
/// `2^(2^32)`.
pub const MAX_DIGITS: usize = 0x800_0000;

/// `n` digits stand for a number below `2^(32 n)`.
pub proof fn lemma_digits_below(d: Seq<u32>)
    ensures
        digits_value(d) < pow2(32 * d.len()),
    decreases d.len(),
{
    lemma2_to64();
    if d.len() > 0 {
        let rest = d.subrange(1, d.len() as int);
        lemma_digits_below(rest);
        lemma_pow2_adds(32, 32 * rest.len());
        let h = pow2(32 * rest.len()) as int;
        let v = digits_value(rest) as int;
        assert(0x1_0000_0000 * v + 0x1_0000_0000 <= 0x1_0000_0000 * h) by (nonlinear_arith)
            requires
                v < h,
        ;
    }
}

/// `n` digits without a leading zero stand for a number from `2^(32 (n-1))`
/// on.
pub proof fn lemma_canonical_above(d: Seq<u32>)
    requires
        d.len() > 0,
        canonical(d),
    ensures
        digits_value(d) >= pow2((32 * (d.len() - 1)) as nat),
    decreases d.len(),
{
    lemma2_to64();
    let rest = d.subrange(1, d.len() as int);
    if d.len() == 1 {
        assert(digits_value(rest) == 0);
    } else {
        assert(rest.last() == d.last());
        lemma_canonical_above(rest);
        lemma_pow2_adds(32, (32 * (rest.len() - 1)) as nat);
    }
}

/// Of two numbers the smaller has no more digits, if it has no leading
/// zero.
pub proof fn lemma_canonical_len(d: Seq<u32>, e: Seq<u32>)
    requires
        canonical(d),
        digits_value(d) <= digits_value(e),
    ensures
        d.len() <= e.len(),
{
    if d.len() > e.len() {
        lemma_canonical_above(d);
        lemma_digits_below(e);
        if 32 * e.len() < 32 * (d.len() - 1) {
            lemma_pow2_strictly_increases(32 * e.len(), (32 * (d.len() - 1)) as nat);
        }
    }
}

/// No more than `MAX_DIGITS` digits stand for a number below the limit of
/// `BigNat`.
pub proof fn lemma_digits_limit(d: Seq<u32>)
    requires
        d.len() <= MAX_DIGITS,
    ensures
        digits_value(d) < pow2(32 * (MAX_DIGITS as nat)),
{
    lemma_digits_below(d);
    if d.len() < MAX_DIGITS {
        lemma_pow2_strictly_increases(32 * d.len(), 32 * (MAX_DIGITS as nat));
    }
}

// The arithmetic is done by `num_bigint::BigUint`. Each of the functions
// below reads its arguments with `BigUint::from_slice`, which takes the
// digits in base `2^32`, the least significant first, and writes its result
// with `BigUint::to_u32_digits`, which gives the digits in the same order
// without a leading zero. Between the two stands the one operation that the
// function is named after; its contract says what the documentation of
// `BigUint` says of that operation, in terms of the numbers that the digits
// stand for.

/// The digits of `x`: `BigUint::from` makes the number of a `u64`.
#[verifier::external_body]
fn big_from_u64(x: u64) -> (r: Vec<u32>)
    ensures
        digits_value(r@) == x,
        canonical(r@),
{
    num_bigint::BigUint::from(x).to_u32_digits()
}

/// The number as a `u64`: `num_traits::ToPrimitive::to_u64` of `BigUint`
/// gives `None` exactly where the number does not fit in 64 bits.
#[verifier::external_body]
fn big_to_u64(a: &Vec<u32>) -> (r: Option<u64>)
    ensures
        match r {
            Some(x) => x == digits_value(a@),
            None => digits_value(a@) > u64::MAX,
        },
{
    num_traits::ToPrimitive::to_u64(&num_bigint::BigUint::from_slice(a))
}

/// The sum: `Add` of `BigUint`.
#[verifier::external_body]
fn big_add(a: &Vec<u32>, b: &Vec<u32>) -> (r: Vec<u32>)
    ensures
        digits_value(r@) == digits_value(a@) + digits_value(b@),
        canonical(r@),
{
    (num_bigint::BigUint::from_slice(a) + num_bigint::BigUint::from_slice(b)).to_u32_digits()
}

/// The difference: `Sub` of `BigUint`, which panics where the difference
/// would be negative.
#[verifier::external_body]
fn big_sub(a: &Vec<u32>, b: &Vec<u32>) -> (r: Vec<u32>)
    requires
        digits_value(a@) >= digits_value(b@),
    ensures
        digits_value(r@) == digits_value(a@) - digits_value(b@),
        canonical(r@),
{
    (num_bigint::BigUint::from_slice(a) - num_bigint::BigUint::from_slice(b)).to_u32_digits()
}

/// The product: `Mul` of `BigUint`.
#[verifier::external_body]
fn big_mul(a: &Vec<u32>, b: &Vec<u32>) -> (r: Vec<u32>)
    ensures
        digits_value(r@) == digits_value(a@) * digits_value(b@),
        canonical(r@),
{
    (num_bigint::BigUint::from_slice(a) * num_bigint::BigUint::from_slice(b)).to_u32_digits()
}

/// The remainder: `Rem` of `BigUint`, which panics on a zero divisor.
#[verifier::external_body]
fn big_rem(a: &Vec<u32>, m: &Vec<u32>) -> (r: Vec<u32>)
    requires
        digits_value(m@) > 0,
    ensures
        digits_value(r@) == digits_value(a@) % digits_value(m@),
        canonical(r@),
{
    (num_bigint::BigUint::from_slice(a) % num_bigint::BigUint::from_slice(m)).to_u32_digits()
}

/// Quotient and remainder: `num_integer::Integer::div_rem` of `BigUint`,
/// which panics on a zero divisor.
#[verifier::external_body]
fn big_div_rem(a: &Vec<u32>, b: &Vec<u32>) -> (r: (Vec<u32>, Vec<u32>))
    requires
        digits_value(b@) > 0,
    ensures
        digits_value(r.0@) == digits_value(a@) / digits_value(b@),
        digits_value(r.1@) == digits_value(a@) % digits_value(b@),
        canonical(r.0@),
        canonical(r.1@),
{
    let (q, r) = num_integer::Integer::div_rem(
        &num_bigint::BigUint::from_slice(a),
        &num_bigint::BigUint::from_slice(b),
    );
    (q.to_u32_digits(), r.to_u32_digits())
}

/// `a ^ e mod m`: `BigUint::modpow`, which panics on a zero modulus, and
/// gives 1 for the exponent 0 whatever the modulus is, so that the modulus
/// 1 is kept out too.
#[verifier::external_body]
fn big_modpow(a: &Vec<u32>, e: &Vec<u32>, m: &Vec<u32>) -> (r: Vec<u32>)
    requires
        digits_value(m@) > 1,
    ensures
        digits_value(r@) == pow(digits_value(a@) as int, digits_value(e@)) % (digits_value(
            m@,
        ) as int),
        canonical(r@),
{
    num_bigint::BigUint::from_slice(a).modpow(
        &num_bigint::BigUint::from_slice(e),
        &num_bigint::BigUint::from_slice(m),
    ).to_u32_digits()
}

/// The number divided by `2^k`, rounded down: `Shr` of `BigUint`.
#[verifier::external_body]
fn big_shr(a: &Vec<u32>, k: usize) -> (r: Vec<u32>)
    ensures
        digits_value(r@) == digits_value(a@) / pow2(k as nat),
        canonical(r@),
{
    (num_bigint::BigUint::from_slice(a) >> k).to_u32_digits()
}

/// The number of trailing zero bits, which is the exponent of 2 in the
/// number: `BigUint::trailing_zeros`, which gives `None` for 0.
#[verifier::external_body]
fn big_trailing_zeros(a: &Vec<u32>) -> (r: Option<u64>)
    ensures
        match r {
            Some(k) => digits_value(a@) > 0 && is_fac2(digits_value(a@), k as nat),
            None => digits_value(a@) == 0,
        },
{
    num_bigint::BigUint::from_slice(a).trailing_zeros()
}

/// Whether `a >= b`: `PartialOrd` of `BigUint`.
#[verifier::external_body]
fn big_ge(a: &Vec<u32>, b: &Vec<u32>) -> (r: bool)
    ensures
        r == (digits_value(a@) >= digits_value(b@)),
{
    num_bigint::BigUint::from_slice(a) >= num_bigint::BigUint::from_slice(b)
}

/// Whether the number is even: `num_integer::Integer::is_even` of
/// `BigUint`.
#[verifier::external_body]
fn big_is_even(a: &Vec<u32>) -> (r: bool)
    ensures
        r == (digits_value(a@) % 2 == 0),
{
    num_integer::Integer::is_even(&num_bigint::BigUint::from_slice(a))
}

/// Whether the number is 0: `num_traits::Zero::is_zero` of `BigUint`.
#[verifier::external_body]
fn big_is_zero(a: &Vec<u32>) -> (r: bool)
    ensures
        r == (digits_value(a@) == 0),
{
    num_traits::Zero::is_zero(&num_bigint::BigUint::from_slice(a))
}

/// Whether the number is 1: `num_traits::One::is_one` of `BigUint`.
#[verifier::external_body]
fn big_is_one(a: &Vec<u32>) -> (r: bool)
    ensures
        r == (digits_value(a@) == 1),
{
    num_traits::One::is_one(&num_bigint::BigUint::from_slice(a))
}

/// A natural number of arbitrary precision, below `2^(2^32)`.
#[derive(Debug, PartialEq, Eq)]
pub struct BigNat {
    digits: Vec<u32>,
}

impl BigNat {
    #[verifier::type_invariant]
    spec fn well_formed(self) -> bool {
        self.digits@.len() <= MAX_DIGITS
    }

    /// The digits in base `2^32`, the least significant first.
    pub closed spec fn spec_digits(self) -> Seq<u32> {
        self.digits@
    }

    /// The number `x`.
    pub fn from_u64(x: u64) -> (r: BigNat)
        ensures
            r.value() == x,
    {
        let digits = big_from_u64(x);
        proof {
            lemma_digits_below(digits@);
            if digits@.len() > 2 {
                lemma_canonical_above(digits@);
                lemma2_to64();
                lemma_pow2_adds(32, 32);
                if 64 < 32 * (digits@.len() - 1) {
                    lemma_pow2_strictly_increases(64, (32 * (digits@.len() - 1)) as nat);
                }
            }
        }
        BigNat { digits }
    }

    /// The number with the given digits in base `2^32`, the least
    /// significant first, unless they are more than `MAX_DIGITS`.
    pub fn from_digits(digits: Vec<u32>) -> (r: Option<BigNat>)
        ensures
            match r {
                Some(n) => n.value() == digits_value(digits@) && n.spec_digits() == digits@,
                None => digits@.len() > MAX_DIGITS,
            },
    {
        if digits.len() <= MAX_DIGITS {
            Some(BigNat { digits })
        } else {
            None
        }
    }

    /// The digits in base `2^32`, the least significant first.
    pub fn digits(&self) -> (r: &Vec<u32>)
        ensures
            r@ == self.spec_digits(),
            digits_value(r@) == self.value(),
    {
        &self.digits
    }

    /// The number as a `u64`, if it fits.
    pub fn to_u64(&self) -> (r: Option<u64>)
        ensures
            match r {
                Some(x) => x == self.value(),
                None => self.value() > u64::MAX,
            },
    {
        big_to_u64(&self.digits)
    }

    /// The number with the digits `digits`, which stand for no more than the
    /// digits `bound` of another number do.
    fn bounded(digits: Vec<u32>, Ghost(bound): Ghost<Seq<u32>>) -> (r: BigNat)
        requires
            canonical(digits@),
            digits_value(digits@) <= digits_value(bound),
            bound.len() <= MAX_DIGITS,
        ensures
            r.value() == digits_value(digits@),
    {
        proof {
            lemma_canonical_len(digits@, bound);
        }
        BigNat { digits }
    }

    /// `self mod m`.
    fn reduce(&self, m: &BigNat) -> (r: BigNat)
        requires
            m.value() > 0,
        ensures
            r.value() == self.value() % m.value(),
    {
        proof {
            use_type_invariant(m);
            lemma_mod_bound(self.value() as int, m.value() as int);
        }
        BigNat::bounded(big_rem(&self.digits, &m.digits), Ghost(m.digits@))
    }

    /// The number modulo the small number `k`.
    fn residue(&self, k: u64) -> (r: u64)
        requires
            k > 0,
        ensures
            r == self.value() % (k as nat),
    {
        let small = big_from_u64(k);
        let rest = big_rem(&self.digits, &small);
        proof {
            lemma_mod_bound(self.value() as int, k as int);
        }
        big_to_u64(&rest).unwrap()
    }
}

impl Clone for BigNat {
    /// A copy of the number.
    fn clone(&self) -> (r: BigNat)
        ensures
            r.value() == self.value(),
    {
        proof {
            use_type_invariant(self);
        }
        let digits = self.digits.clone();
        assert(digits@ =~= self.digits@);
        BigNat { digits }
    }
}

impl ModInt for BigNat {
    closed spec fn value(&self) -> nat {
        digits_value(self.digits@)
    }

    fn fac2(&self) -> (k: usize) {
        match big_trailing_zeros(&self.digits) {
            Some(a) => {
                proof {
                    use_type_invariant(self);
                    // 2^a divides a number below 2^(32 * MAX_DIGITS)
                    let v = self.value();
                    lemma_digits_below(self.digits@);
                    lemma_pow2_pos(a as nat);
                    lemma_fundamental_div_mod(v as int, pow2(a as nat) as int);
                    let q = (v / pow2(a as nat)) as int;
                    assert(pow2(a as nat) * q >= pow2(a as nat)) by (nonlinear_arith)
                        requires
                            q >= 1,
                            pow2(a as nat) > 0,
                    ;
                    if a as nat >= 32 * self.digits@.len() {
                        if a as nat > 32 * self.digits@.len() {
                            lemma_pow2_strictly_increases(32 * self.digits@.len(), a as nat);
                        }
                    }
                }
                a as usize
            },
            None => 0,
        }
    }

    fn addm(&self, rhs: &BigNat, m: &BigNat) -> (r: BigNat) {
        proof {
            use_type_invariant(m);
            lemma_mod_bound((self.value() + rhs.value()) as int, m.value() as int);
        }
        let sum = big_add(&self.digits, &rhs.digits);
        BigNat::bounded(big_rem(&sum, &m.digits), Ghost(m.digits@))
    }

    fn subm(&self, rhs: &BigNat, m: &BigNat) -> (r: BigNat) {
        let a = self.reduce(m);
        let b = rhs.reduce(m);
        proof {
            use_type_invariant(m);
            lemma_subm(self.value() as int, rhs.value() as int, m.value() as int);
            lemma_mod_bound(self.value() as int, m.value() as int);
            lemma_mod_bound(rhs.value() as int, m.value() as int);
        }
        if big_ge(&a.digits, &b.digits) {
            BigNat::bounded(big_sub(&a.digits, &b.digits), Ghost(m.digits@))
        } else {
            let gap = big_sub(&b.digits, &a.digits);
            BigNat::bounded(big_sub(&m.digits, &gap), Ghost(m.digits@))
        }
    }

    fn mulm(&self, rhs: &BigNat, m: &BigNat) -> (r: BigNat) {
        let a = self.reduce(m);
        let b = rhs.reduce(m);
        proof {
            use_type_invariant(m);
            lemma_mul_mod_noop_general(self.value() as int, rhs.value() as int, m.value() as int);
            lemma_mod_bound(self.value() as int, m.value() as int);
            lemma_mod_bound(rhs.value() as int, m.value() as int);
            lemma_mod_bound((a.value() * b.value()) as int, m.value() as int);
        }
        if let Some(sm) = m.to_u64() {
            let sself = a.to_u64().unwrap();
            let srhs = b.to_u64().unwrap();
            return BigNat::from_u64(sself.mulm(&srhs, &sm));
        }
        let product = big_mul(&a.digits, &b.digits);
        BigNat::bounded(big_rem(&product, &m.digits), Ghost(m.digits@))
    }

    fn powm(&self, exp: &BigNat, m: &BigNat) -> (r: BigNat) {
        proof {
            use_type_invariant(m);
            lemma_mod_bound(pow(self.value() as int, exp.value()), m.value() as int);
        }
        if big_is_one(&m.digits) {
            return BigNat::from_u64(0);
        }
        BigNat::bounded(big_modpow(&self.digits, &exp.digits, &m.digits), Ghost(m.digits@))
    }

    fn invm(&self, m: &BigNat) -> (r: Option<BigNat>) {
        let x = if big_ge(&self.digits, &m.digits) {
            self.reduce(m)
        } else {
            self.clone()
        };
        let mut last_r = m.clone();
        let mut r = x.clone();
        let mut last_t = BigNat::from_u64(0);
        let mut t = BigNat::from_u64(1);
        proof {
            let (a, mv) = (self.value(), m.value());
            lemma_small_mod(x.value(), mv);
            lemma_mod_twice(a as int, mv as int);
            lemma_gcd_mod(a, mv);
            lemma_gcd_symmetric(x.value(), mv);
            lemma_mod_multiples_basic(-1, mv as int);
            lemma_small_mod(0, mv);
        }
        while !big_is_zero(&r.digits)
            invariant
                m.value() > 0,
                x.value() == self.value() % m.value(),
                last_r.value() > 0,
                gcd(last_r.value(), r.value()) == gcd(self.value(), m.value()),
                (last_t.value() * x.value() - last_r.value()) % (m.value() as int) == 0,
                (t.value() * x.value() - r.value()) % (m.value() as int) == 0,
                last_t.value() < m.value(),
                r.value() > 0 ==> t.value() < m.value(),
            decreases r.value(),
        {
            proof {
                use_type_invariant(&last_r);
                use_type_invariant(&r);
                lemma_fundamental_div_mod(last_r.value() as int, r.value() as int);
                lemma_mod_bound(last_r.value() as int, r.value() as int);
                lemma_div_nonincreasing(last_r.value() as int, r.value() as int);
                lemma_div_pos_is_pos(last_r.value() as int, r.value() as int);
            }
            let (quo, rem) = big_div_rem(&last_r.digits, &r.digits);
            let quo = BigNat::bounded(quo, Ghost(last_r.digits@));
            let rem = BigNat::bounded(rem, Ghost(r.digits@));
            let new_t = last_t.subm(&quo.mulm(&t, m), m);
            proof {
                lemma_mul_is_commutative(quo.value() as int, r.value() as int);
                lemma_invm_step(
                    m.value() as int,
                    x.value() as int,
                    last_t.value() as int,
                    t.value() as int,
                    last_r.value() as int,
                    r.value() as int,
                    quo.value() as int,
                    new_t.value() as int,
                );
                lemma_mod_bound(
                    last_t.value() - (quo.value() * t.value()) % m.value(),
                    m.value() as int,
                );
            }
            last_r = r;
            r = rem;
            last_t = t;
            t = new_t;
        }
        proof {
            lemma_invm_done(self.value(), m.value(), last_r.value(), last_t.value());
        }
        if big_is_one(&last_r.digits) {
            Some(last_t)
        } else {
            None
        }
    }

    fn jacobi(&self, n: &BigNat) -> (r: i8) {
        proof {
            lemma_jacobi(self.value(), n.value());
        }
        if big_is_one(&self.digits) {
            proof {
                lemma_jacobi_one(n.value());
            }
            return 1;
        }
        let mut a = self.reduce(n);
        let mut n = n.clone();
        let mut t: i8 = 1;
        let ghost a0 = self.value();
        let ghost n0 = n.value();
        proof {
            lemma_jacobi_mod(a0, n0);
            lemma_mod_bound(a0 as int, n0 as int);
        }
        while !big_is_zero(&a.digits)
            invariant
                n.value() % 2 == 1,
                a.value() < n.value(),
                t == 1 || t == -1,
                jacobi_symbol(a0, n0) == t * jacobi_symbol(a.value(), n.value()),
            decreases n.value(),
        {
            while big_is_even(&a.digits)
                invariant
                    n.value() % 2 == 1,
                    0 < a.value() < n.value(),
                    t == 1 || t == -1,
                    jacobi_symbol(a0, n0) == t * jacobi_symbol(a.value(), n.value()),
                decreases a.value(),
            {
                proof {
                    use_type_invariant(&a);
                    lemma2_to64();
                    lemma_jacobi_even(a.value(), n.value());
                    lemma_sign_flip(
                        t as int,
                        two_sign(n.value()),
                        jacobi_symbol(a.value() / 2, n.value()),
                    );
                }
                a = BigNat::bounded(big_shr(&a.digits, 1), Ghost(a.digits@));
                let low = n.residue(8);
                if low == 3 || low == 5 {
                    t = -t;
                }
            }
            proof {
                lemma_jacobi_swap(a.value(), n.value());
                lemma_sign_flip(
                    t as int,
                    reciprocity_sign(a.value(), n.value()),
                    jacobi_symbol(n.value() % a.value(), a.value()),
                );
                lemma_mod_bound(n.value() as int, a.value() as int);
            }
            std::mem::swap(&mut a, &mut n);
            if a.residue(4) == 3 && n.residue(4) == 3 {
                t = -t;
            }
            a = a.reduce(&n);
        }
        proof {
            lemma_jacobi_zero(n.value());
        }
        if big_is_one(&n.digits) {
            t
        } else {
            0
        }
    }
}

impl PrimalityBase for BigNat {
    open spec fn limit() -> nat {
        pow2(32 * (MAX_DIGITS as nat))
    }

    proof fn lemma_limit() {
        lemma2_to64();
        lemma_pow2_strictly_increases(8, 32 * (MAX_DIGITS as nat));
    }

    fn try_from_u64(x: u64) -> (r: Option<BigNat>) {
        proof {
            lemma2_to64();
            lemma_pow2_strictly_increases(64, 32 * (MAX_DIGITS as nat));
        }
        Some(BigNat::from_u64(x))
    }

    fn as_u64(&self) -> (r: Option<u64>) {
        self.to_u64()
    }

    fn duplicate(&self) -> (r: BigNat) {
        proof {
            use_type_invariant(self);
            lemma_digits_limit(self.digits@);
        }
        self.clone()
    }

    fn equals(&self, other: &BigNat) -> (r: bool) {
        big_ge(&self.digits, &other.digits) && big_ge(&other.digits, &self.digits)
    }

    fn add_small(&self, d: u8) -> (r: Option<BigNat>) {
        let sum = big_add(&self.digits, &big_from_u64(d as u64));
        if sum.len() <= MAX_DIGITS {
            proof {
                lemma_digits_limit(sum@);
            }
            Some(BigNat { digits: sum })
        } else {
            proof {
                lemma_canonical_above(sum@);
                if sum@.len() - 1 > MAX_DIGITS {
                    lemma_pow2_strictly_increases(
                        32 * (MAX_DIGITS as nat),
                        (32 * (sum@.len() - 1)) as nat,
                    );
                }
            }
            None
        }
    }

    fn sub_small(&self, d: u8) -> (r: BigNat) {
        proof {
            use_type_invariant(self);
        }
        BigNat::bounded(big_sub(&self.digits, &big_from_u64(d as u64)), Ghost(self.digits@))
    }

    fn rem_small(&self, m: u8) -> (r: u8) {
        self.residue(m as u64) as u8
    }

    fn shift_right(&self, k: usize) -> (r: BigNat) {
        proof {
            use_type_invariant(self);
            lemma_pow2_pos(k as nat);
            lemma_div_nonincreasing(self.value() as int, pow2(k as nat) as int);
            lemma_div_pos_is_pos(self.value() as int, pow2(k as nat) as int);
        }
        BigNat::bounded(big_shr(&self.digits, k), Ghost(self.digits@))
    }

    fn times(&self, k: u64) -> (r: Option<BigNat>) {
        let product = big_mul(&self.digits, &big_from_u64(k));
        if product.len() <= MAX_DIGITS {
            proof {
                lemma_digits_limit(product@);
            }
            Some(BigNat { digits: product })
        } else {
            proof {
                lemma_canonical_above(product@);
                if product@.len() - 1 > MAX_DIGITS {
                    lemma_pow2_strictly_increases(
                        32 * (MAX_DIGITS as nat),
                        (32 * (product@.len() - 1)) as nat,
                    );
                }
            }
            None
        }
    }

    fn twice_plus_one(&self) -> (r: Option<BigNat>) {
        let twice = big_add(&self.digits, &self.digits);
        let sum = big_add(&twice, &big_from_u64(1));
        if sum.len() <= MAX_DIGITS {
            proof {
                lemma_digits_limit(sum@);
            }
            Some(BigNat { digits: sum })
        } else {
            proof {
                lemma_canonical_above(sum@);
                if sum@.len() - 1 > MAX_DIGITS {
                    lemma_pow2_strictly_increases(
                        32 * (MAX_DIGITS as nat),
                        (32 * (sum@.len() - 1)) as nat,
                    );
                }
            }
            None
        }
    }
}

} // verus!
