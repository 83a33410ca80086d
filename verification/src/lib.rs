//! Primality testing, integer factorisation and modular arithmetic on
//! unsigned integers, with machine-checked contracts.
//!
//! - `traits`, `integer`, `bigint`: the modular operations `addm`, `subm`,
//!   `mulm`, `powm`, `invm`, `jacobi` and `fac2` on the primitive unsigned
//!   integers and on natural numbers of arbitrary precision.
//! - `primality`: the strong probable prime test and the deterministic
//!   Miller-Rabin test on 64-bit integers.
//! - `factor`: Pollard's rho, Shanks's square forms and trial division.
//! - `nt_funcs`: factorisation of 64-bit integers, primes next to a number,
//!   lists and counts of primes, the Moebius function.
//! - `tables`: the constant tables.
//! - `divisibility`, `primes`, `modular`, `factor_map`, `counting`,
//!   `moebius`, `reciprocity`: the number theory that the contracts speak
//!   of, from Euclid's lemma to the law of quadratic reciprocity.

pub mod divisibility;
pub mod primes;
pub mod modular;
pub mod reciprocity;
pub mod traits;
pub mod integer;
pub mod bigint;
pub mod tables;
pub mod primality;
pub mod factor;
pub mod factor_map;
pub mod counting;
pub mod moebius;
pub mod nt_funcs;
