//! The interface of the modular operations.

use crate::divisibility::gcd;
use crate::modular::{is_fac2, jacobi_symbol, lemma_jacobi_range, lemma_jacobi_zero_iff};
use crate::reciprocity::{
    jacobi_product, legendre, lemma_jacobi_is_legendre, lemma_jacobi_is_product, odd_prime,
};
use vstd::arithmetic::power::pow;
use vstd::arithmetic::power2::pow2;
use vstd::prelude::*;

verus! {

/// Modular arithmetic on an unsigned integer type. Every operation returns
/// the canonical representative in `[0, m)`.
pub trait ModInt: Sized {
    /// The number that `self` stands for.
    spec fn value(&self) -> nat;

    /// The exponent of 2 in `self`; 0 for 0.
    fn fac2(&self) -> (k: usize)
        ensures
            is_fac2(self.value(), k as nat),
    ;

    /// `(self + rhs) mod m`.
    fn addm(&self, rhs: &Self, m: &Self) -> (r: Self)
        requires
            m.value() > 0,
        ensures
            r.value() == (self.value() + rhs.value()) % m.value(),
    ;

    /// `(self - rhs) mod m`, in the range `[0, m)`.
    fn subm(&self, rhs: &Self, m: &Self) -> (r: Self)
        requires
            m.value() > 0,
        ensures
            r.value() == (self.value() - rhs.value()) % (m.value() as int),
    ;

    /// `(self * rhs) mod m`.
    fn mulm(&self, rhs: &Self, m: &Self) -> (r: Self)
        requires
            m.value() > 0,
        ensures
            r.value() == (self.value() * rhs.value()) % m.value(),
    ;

    /// `self ^ exp mod m`.
    fn powm(&self, exp: &Self, m: &Self) -> (r: Self)
        requires
            m.value() > 0,
        ensures
            r.value() == pow(self.value() as int, exp.value()) % (m.value() as int),
    ;

    /// The inverse of `self` modulo `m`: there is one exactly when `self` and
    /// `m` are coprime, and then it is the one in `[0, m)`.
    fn invm(&self, m: &Self) -> (r: Option<Self>)
        requires
            m.value() > 0,
        ensures
            match r {
                Some(x) => gcd(self.value(), m.value()) == 1 && x.value() < m.value() && (
                self.value() * x.value()) % m.value() == 1nat % m.value(),
                None => gcd(self.value(), m.value()) != 1,
            },
    ;

    /// The Jacobi symbol `(self / n)` for odd `n`: the product of the
    /// Legendre symbols of `self` over the prime factors of `n`. It is 0
    /// exactly when the two numbers share a factor, and for an odd prime `n`
    /// it is the Legendre symbol.
    fn jacobi(&self, n: &Self) -> (r: i8)
        requires
            n.value() % 2 == 1,
        ensures
            r == jacobi_product(self.value(), n.value()),
            r == -1 || r == 0 || r == 1,
            r == 0 <==> gcd(self.value(), n.value()) != 1,
            odd_prime(n.value()) ==> r == legendre(self.value(), n.value()),
    ;
}

/// An unsigned integer type on which primality is tested: the modular
/// operations, and the few plain ones that the tests need beside them.
pub trait PrimalityBase: ModInt {
    /// One more than the largest number of the type.
    spec fn limit() -> nat;

    /// The type holds every byte.
    proof fn lemma_limit()
        ensures
            Self::limit() >= 256,
    ;

    /// The number `x` in this type, if the type holds it.
    fn try_from_u64(x: u64) -> (r: Option<Self>)
        ensures
            match r {
                Some(v) => v.value() == x,
                None => x >= Self::limit(),
            },
    ;

    /// The number as a `u64`, if 64 bits hold it.
    fn as_u64(&self) -> (r: Option<u64>)
        ensures
            match r {
                Some(x) => x == self.value(),
                None => self.value() > u64::MAX,
            },
    ;

    /// A copy of the number, which lies below the limit of the type.
    fn duplicate(&self) -> (r: Self)
        ensures
            r.value() == self.value(),
            r.value() < Self::limit(),
    ;

    /// Whether the two numbers are equal.
    fn equals(&self, other: &Self) -> (r: bool)
        ensures
            r == (self.value() == other.value()),
    ;

    /// The number plus the byte `d`, if the type holds it.
    fn add_small(&self, d: u8) -> (r: Option<Self>)
        ensures
            match r {
                Some(v) => v.value() == self.value() + d && v.value() < Self::limit(),
                None => self.value() + d >= Self::limit(),
            },
    ;

    /// The number less the byte `d`.
    fn sub_small(&self, d: u8) -> (r: Self)
        requires
            self.value() >= d,
        ensures
            r.value() == self.value() - d,
    ;

    /// The number modulo the byte `m`.
    fn rem_small(&self, m: u8) -> (r: u8)
        requires
            m > 0,
        ensures
            r == self.value() % (m as nat),
    ;

    /// The number divided by `2^k`, rounded down.
    fn shift_right(&self, k: usize) -> (r: Self)
        ensures
            r.value() == self.value() / pow2(k as nat),
    ;

    /// The number times `k`, if the type holds it.
    fn times(&self, k: u64) -> (r: Option<Self>)
        ensures
            match r {
                Some(v) => v.value() == self.value() * k && v.value() < Self::limit(),
                None => self.value() * k >= Self::limit(),
            },
    ;

    /// Twice the number and one, if the type holds it.
    fn twice_plus_one(&self) -> (r: Option<Self>)
        ensures
            match r {
                Some(v) => v.value() == 2 * self.value() + 1 && v.value() < Self::limit(),
                None => 2 * self.value() + 1 >= Self::limit(),
            },
    ;
}

/// The verdict of a primality test.
#[derive(Clone, Copy, Debug, PartialEq, Eq, Structural)]
pub enum Primality {
    /// The number is a prime.
    Yes,
    /// The number is no prime.
    No,
    /// The number passed every test made, and none of them was conclusive.
    Probable,
}

impl Primality {
    /// Whether the number may be a prime: everything but `No`.
    pub fn probably(self) -> (r: bool)
        ensures
            r == (self != Primality::No),
    {
        match self {
            Primality::No => false,
            _ => true,
        }
    }

    /// The verdict on two tests together: `No` if either says `No`, `Yes` if
    /// both say `Yes`, and `Probable` otherwise.
    pub fn and(self, other: Primality) -> (r: Primality)
        ensures
            r == self.and_spec(other),
    {
        match self {
            Primality::No => Primality::No,
            Primality::Yes => other,
            Primality::Probable => match other {
                Primality::No => Primality::No,
                _ => Primality::Probable,
            },
        }
    }

    /// The verdict on two tests together.
    pub open spec fn and_spec(self, other: Primality) -> Primality {
        if self == Primality::No || other == Primality::No {
            Primality::No
        } else if self == Primality::Yes && other == Primality::Yes {
            Primality::Yes
        } else {
            Primality::Probable
        }
    }
}

/// How hard to test an integer beyond 64 bits for primality. Below that the
/// test is deterministic and the configuration has no bearing on it.
#[derive(Clone, Copy, Debug, PartialEq, Eq, Structural)]
pub struct PrimalityTestConfig {
    /// Number of strong probable prime tests to the first primes as bases.
    pub sprp_trials: usize,
    /// Number of strong probable prime tests to random bases.
    pub sprp_random_trials: usize,
}

impl PrimalityTestConfig {
    /// The default configuration: two tests to fixed bases and three to
    /// random ones.
    pub fn default() -> (r: Self)
        ensures
            r == (PrimalityTestConfig { sprp_trials: 2, sprp_random_trials: 3 }),
    {
        PrimalityTestConfig { sprp_trials: 2, sprp_random_trials: 3 }
    }

    /// The strict configuration: twelve tests to fixed bases and four to
    /// random ones.
    pub fn strict() -> (r: Self)
        ensures
            r == (PrimalityTestConfig { sprp_trials: 12, sprp_random_trials: 4 }),
    {
        PrimalityTestConfig { sprp_trials: 12, sprp_random_trials: 4 }
    }
}

/// How to factor an integer. The factorisation of 64-bit integers looks at
/// no part of it.
#[derive(Clone, Copy, Debug, PartialEq, Eq, Structural)]
pub struct FactorizationConfig {
    /// How to test the factors for primality.
    pub primality_config: PrimalityTestConfig,
    /// The bound of trial division, if there is one.
    pub td_limit: Option<u64>,
    /// Number of trials of Pollard's rho.
    pub rho_trials: usize,
}

impl FactorizationConfig {
    /// The default configuration.
    pub fn default() -> (r: Self)
        ensures
            r.primality_config == (PrimalityTestConfig { sprp_trials: 2, sprp_random_trials: 3 }),
            r.td_limit == Some(8192u64),
            r.rho_trials == 4,
    {
        FactorizationConfig {
            primality_config: PrimalityTestConfig::default(),
            td_limit: Some(8192),
            rho_trials: 4,
        }
    }

    /// The strict configuration: the primality of the factors is tested
    /// strictly.
    pub fn strict() -> (r: Self)
        ensures
            r.primality_config == (PrimalityTestConfig { sprp_trials: 12, sprp_random_trials: 4 }),
            r.td_limit == Some(8192u64),
            r.rho_trials == 4,
    {
        let mut config = FactorizationConfig::default();
        config.primality_config = PrimalityTestConfig::strict();
        config
    }
}

/// The Jacobi symbol of an odd `n` is what the reduction rules give. It is
/// -1, 0 or 1; it is 0 exactly when the two numbers share a factor; and
/// for an odd prime `n` it is the Legendre symbol.
pub proof fn lemma_jacobi(a: nat, n: nat)
    requires
        n % 2 == 1,
    ensures
        jacobi_product(a, n) == jacobi_symbol(a, n),
        -1 <= jacobi_product(a, n) <= 1,
        jacobi_product(a, n) == 0 <==> gcd(a, n) != 1,
        odd_prime(n) ==> jacobi_product(a, n) == legendre(a, n),
{
    lemma_jacobi_is_product(a, n);
    lemma_jacobi_range(a, n);
    lemma_jacobi_zero_iff(a, n);
    if odd_prime(n) {
        lemma_jacobi_is_legendre(a, n);
    }
}

} // verus!
