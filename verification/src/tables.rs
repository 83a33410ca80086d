//! The constant tables, and what is known of their contents.

use crate::primes::{is_prime_nat, lemma_prime_below_289, no_small_factor, prime_count};
use vstd::prelude::*;

verus! {

/// The primes below 256, ascending.
pub const SMALL_PRIMES: [u8; 54] = [
    2, 3, 5, 7, 11, 13, 17, 19, 23, 29, 31, 37, 41, 43, 47, 53, 59, 61, 67, 71, 73, 79, 83, 89, 97,
    101, 103, 107, 109, 113, 127, 131, 137, 139, 149, 151, 157, 163, 167, 173, 179, 181, 191, 193,
    197, 199, 211, 223, 227, 229, 233, 239, 241, 251,
];

/// For each odd prime of the table its inverse modulo `2^64`; the entry of
/// 2 is void.
pub const SMALL_PRIMES_INV: [u64; 54] = [
    0x0000000000000000, 0xaaaaaaaaaaaaaaab, 0xcccccccccccccccd, 0x6db6db6db6db6db7,
    0x2e8ba2e8ba2e8ba3, 0x4ec4ec4ec4ec4ec5, 0xf0f0f0f0f0f0f0f1, 0x86bca1af286bca1b,
    0xd37a6f4de9bd37a7, 0x34f72c234f72c235, 0xef7bdef7bdef7bdf, 0x14c1bacf914c1bad,
    0x8f9c18f9c18f9c19, 0x82fa0be82fa0be83, 0x51b3bea3677d46cf, 0x21cfb2b78c13521d,
    0xcbeea4e1a08ad8f3, 0x4fbcda3ac10c9715, 0xf0b7672a07a44c6b, 0x193d4bb7e327a977,
    0x7e3f1f8fc7e3f1f9, 0x9b8b577e613716af, 0xa3784a062b2e43db, 0xf47e8fd1fa3f47e9,
    0xa3a0fd5c5f02a3a1, 0x3a4c0a237c32b16d, 0xdab7ec1dd3431b57, 0x77a04c8f8d28ac43,
    0xa6c0964fda6c0965, 0x90fdbc090fdbc091, 0x7efdfbf7efdfbf7f, 0x03e88cb3c9484e2b,
    0xe21a291c077975b9, 0x3aef6ca970586723, 0xdf5b0f768ce2cabd, 0x6fe4dfc9bf937f27,
    0x5b4fe5e92c0685b5, 0x1f693a1c451ab30b, 0x8d07aa27db35a717, 0x882383b30d516325,
    0xed6866f8d962ae7b, 0x3454dca410f8ed9d, 0x1d7ca632ee936f3f, 0x70bf015390948f41,
    0xc96bdb9d3d137e0d, 0x2697cc8aef46c0f7, 0xc0e8f2a76e68575b, 0x687763dfdb43bb1f,
    0x1b10ea929ba144cb, 0x1d10c4c0478bbced, 0x63fb9aeb1fdcd759, 0x64afaa4f437b2e0f,
    0xf010fef010fef011, 0x28cbfbeb9a020a33,
];

/// For each prime `p` of the table the largest quotient of a 64-bit number
/// by it: `(2^64 - 1) / p`.
pub const SMALL_PRIMES_INVLIM: [u64; 54] = [
    0x7fffffffffffffff, 0x5555555555555555, 0x3333333333333333, 0x2492492492492492,
    0x1745d1745d1745d1, 0x13b13b13b13b13b1, 0x0f0f0f0f0f0f0f0f, 0x0d79435e50d79435,
    0x0b21642c8590b216, 0x08d3dcb08d3dcb08, 0x0842108421084210, 0x06eb3e45306eb3e4,
    0x063e7063e7063e70, 0x05f417d05f417d05, 0x0572620ae4c415c9, 0x04d4873ecade304d,
    0x0456c797dd49c341, 0x04325c53ef368eb0, 0x03d226357e16ece5, 0x039b0ad12073615a,
    0x0381c0e070381c0e, 0x033d91d2a2067b23, 0x03159721ed7e7534, 0x02e05c0b81702e05,
    0x02a3a0fd5c5f02a3, 0x0288df0cac5b3f5d, 0x027c45979c95204f, 0x02647c69456217ec,
    0x02593f69b02593f6, 0x0243f6f0243f6f02, 0x0204081020408102, 0x01f44659e4a42715,
    0x01de5d6e3f8868a4, 0x01d77b654b82c339, 0x01b7d6c3dda338b2, 0x01b2036406c80d90,
    0x01a16d3f97a4b01a, 0x01920fb49d0e228d, 0x01886e5f0abb0499, 0x017ad2208e0ecc35,
    0x016e1f76b4337c6c, 0x016a13cd15372904, 0x01571ed3c506b39a, 0x015390948f40feac,
    0x014cab88725af6e7, 0x0149539e3b2d066e, 0x013698df3de07479, 0x0125e22708092f11,
    0x0120b470c67c0d88, 0x011e2ef3b3fb8744, 0x0119453808ca29c0, 0x0112358e75d30336,
    0x010fef010fef010f, 0x0105197f7d734041,
];

/// Bases for which the strong probable prime test decides primality below
/// `2^64`.
pub const WITNESS64: [u64; 7] = [2, 325, 9375, 28178, 450775, 9780504, 1795265022];

/// The multipliers that the square forms factorisation is tried with.
pub const SQUFOF_MULTIPLIERS: [u16; 16] = [
    1, 3, 5, 7, 11, 15, 21, 33, 35, 55, 77, 105, 165, 231, 385, 1155,
];

/// The Moebius function of the odd numbers below 256, two bits each, biased
/// by one: the entry of `n` is at bit `(n - 1) % 64` of word `(n - 1) / 64`.
pub const MOEBIUS_ODD: [u64; 4] = [
    0x4289108a05208102, 0x19988004a8a12422, 0x1a8245028906a062, 0x229428012aa26a00,
];

/// The size of the wheel: the product of 2, 3 and 5.
pub const WHEEL_SIZE: u8 = 30;

/// From each residue modulo the wheel, the distance up to the next residue
/// coprime to it.
pub const WHEEL_NEXT: [u8; 30] = [
    1, 6, 5, 4, 3, 2, 1, 4, 3, 2, 1, 2, 1, 4, 3, 2, 1, 2, 1, 4, 3, 2, 1, 6, 5, 4, 3, 2, 1, 2,
];

/// From each residue modulo the wheel, the distance down to the previous
/// residue coprime to it.
pub const WHEEL_PREV: [u8; 30] = [
    1, 2, 1, 2, 3, 4, 5, 6, 1, 2, 3, 4, 1, 2, 1, 2, 3, 4, 1, 2, 1, 2, 3, 4, 1, 2, 3, 4, 5, 6,
];

/// The entry `i` of the table of small primes.
pub closed spec fn small_prime_at(i: int) -> int {
    SMALL_PRIMES[i] as int
}

/// The entry `i` of the table of inverses.
pub closed spec fn small_prime_inv_at(i: int) -> int {
    SMALL_PRIMES_INV[i] as int
}

/// The entry `i` of the table of largest quotients.
pub closed spec fn small_prime_invlim_at(i: int) -> int {
    SMALL_PRIMES_INVLIM[i] as int
}

/// The entry `i` of the table of multipliers.
pub closed spec fn squfof_multiplier_at(i: int) -> int {
    SQUFOF_MULTIPLIERS[i] as int
}

/// The entry `i` of the table of witnesses.
pub closed spec fn witness_at(i: int) -> int {
    WITNESS64[i] as int
}

/// The step up the wheel from the residue `i`.
pub closed spec fn wheel_next_at(i: int) -> int {
    WHEEL_NEXT[i] as int
}

/// The step down the wheel from the residue `i`.
pub closed spec fn wheel_prev_at(i: int) -> int {
    WHEEL_PREV[i] as int
}

/// The entry `i` of the table of small primes.
pub fn small_prime(i: usize) -> (p: u8)
    requires
        i < 54,
    ensures
        p == small_prime_at(i as int),
{
    SMALL_PRIMES[i]
}

/// The entry `i` of the table of inverses.
pub fn small_prime_inv(i: usize) -> (v: u64)
    requires
        i < 54,
    ensures
        v == small_prime_inv_at(i as int),
{
    SMALL_PRIMES_INV[i]
}

/// The entry `i` of the table of largest quotients.
pub fn small_prime_invlim(i: usize) -> (v: u64)
    requires
        i < 54,
    ensures
        v == small_prime_invlim_at(i as int),
{
    SMALL_PRIMES_INVLIM[i]
}

/// The entry `i` of the table of witnesses.
pub fn witness64(i: usize) -> (w: u64)
    requires
        i < 7,
    ensures
        w == witness_at(i as int),
{
    WITNESS64[i]
}

/// The entry `i` of the table of multipliers.
pub fn squfof_multiplier(i: usize) -> (k: u16)
    requires
        i < 16,
    ensures
        k == squfof_multiplier_at(i as int),
        1 <= k <= 1155,
{
    SQUFOF_MULTIPLIERS[i]
}

/// The step up the wheel from the residue `i`.
pub fn wheel_next(i: u8) -> (d: u8)
    requires
        i < 30,
    ensures
        d == wheel_next_at(i as int),
{
    WHEEL_NEXT[i as usize]
}

/// The step down the wheel from the residue `i`.
pub fn wheel_prev(i: u8) -> (d: u8)
    requires
        i < 30,
    ensures
        d == wheel_prev_at(i as int),
{
    WHEEL_PREV[i as usize]
}

/// `inv` is the inverse of `p` modulo `2^64`, and `lim` the largest quotient
/// of a 64-bit number by `p`.
pub open spec fn is_inverse_pair(p: int, inv: int, lim: int) -> bool {
    &&& (p * inv) % 0x1_0000_0000_0000_0000 == 1
    &&& lim == 0xffff_ffff_ffff_ffffint / p
}

/// Beside each odd prime of the table stand its inverse modulo `2^64` and
/// the largest quotient of a 64-bit number by it.
pub proof fn lemma_small_primes_inverse(i: int)
    requires
        1 <= i < 54,
    ensures
        is_inverse_pair(small_prime_at(i), small_prime_inv_at(i), small_prime_invlim_at(i)),
{
    if i == 1 {
        assert(is_inverse_pair(3, 0xaaaaaaaaaaaaaaab, 0x5555555555555555));
    } else if i == 2 {
        assert(is_inverse_pair(5, 0xcccccccccccccccd, 0x3333333333333333));
    } else if i == 3 {
        assert(is_inverse_pair(7, 0x6db6db6db6db6db7, 0x2492492492492492));
    } else if i == 4 {
        assert(is_inverse_pair(11, 0x2e8ba2e8ba2e8ba3, 0x1745d1745d1745d1));
    } else if i == 5 {
        assert(is_inverse_pair(13, 0x4ec4ec4ec4ec4ec5, 0x13b13b13b13b13b1));
    } else if i == 6 {
        assert(is_inverse_pair(17, 0xf0f0f0f0f0f0f0f1, 0x0f0f0f0f0f0f0f0f));
    } else if i == 7 {
        assert(is_inverse_pair(19, 0x86bca1af286bca1b, 0x0d79435e50d79435));
    } else if i == 8 {
        assert(is_inverse_pair(23, 0xd37a6f4de9bd37a7, 0x0b21642c8590b216));
    } else if i == 9 {
        assert(is_inverse_pair(29, 0x34f72c234f72c235, 0x08d3dcb08d3dcb08));
    } else if i == 10 {
        assert(is_inverse_pair(31, 0xef7bdef7bdef7bdf, 0x0842108421084210));
    } else if i == 11 {
        assert(is_inverse_pair(37, 0x14c1bacf914c1bad, 0x06eb3e45306eb3e4));
    } else if i == 12 {
        assert(is_inverse_pair(41, 0x8f9c18f9c18f9c19, 0x063e7063e7063e70));
    } else if i == 13 {
        assert(is_inverse_pair(43, 0x82fa0be82fa0be83, 0x05f417d05f417d05));
    } else if i == 14 {
        assert(is_inverse_pair(47, 0x51b3bea3677d46cf, 0x0572620ae4c415c9));
    } else if i == 15 {
        assert(is_inverse_pair(53, 0x21cfb2b78c13521d, 0x04d4873ecade304d));
    } else if i == 16 {
        assert(is_inverse_pair(59, 0xcbeea4e1a08ad8f3, 0x0456c797dd49c341));
    } else if i == 17 {
        assert(is_inverse_pair(61, 0x4fbcda3ac10c9715, 0x04325c53ef368eb0));
    } else if i == 18 {
        assert(is_inverse_pair(67, 0xf0b7672a07a44c6b, 0x03d226357e16ece5));
    } else if i == 19 {
        assert(is_inverse_pair(71, 0x193d4bb7e327a977, 0x039b0ad12073615a));
    } else if i == 20 {
        assert(is_inverse_pair(73, 0x7e3f1f8fc7e3f1f9, 0x0381c0e070381c0e));
    } else if i == 21 {
        assert(is_inverse_pair(79, 0x9b8b577e613716af, 0x033d91d2a2067b23));
    } else if i == 22 {
        assert(is_inverse_pair(83, 0xa3784a062b2e43db, 0x03159721ed7e7534));
    } else if i == 23 {
        assert(is_inverse_pair(89, 0xf47e8fd1fa3f47e9, 0x02e05c0b81702e05));
    } else if i == 24 {
        assert(is_inverse_pair(97, 0xa3a0fd5c5f02a3a1, 0x02a3a0fd5c5f02a3));
    } else if i == 25 {
        assert(is_inverse_pair(101, 0x3a4c0a237c32b16d, 0x0288df0cac5b3f5d));
    } else if i == 26 {
        assert(is_inverse_pair(103, 0xdab7ec1dd3431b57, 0x027c45979c95204f));
    } else if i == 27 {
        assert(is_inverse_pair(107, 0x77a04c8f8d28ac43, 0x02647c69456217ec));
    } else if i == 28 {
        assert(is_inverse_pair(109, 0xa6c0964fda6c0965, 0x02593f69b02593f6));
    } else if i == 29 {
        assert(is_inverse_pair(113, 0x90fdbc090fdbc091, 0x0243f6f0243f6f02));
    } else if i == 30 {
        assert(is_inverse_pair(127, 0x7efdfbf7efdfbf7f, 0x0204081020408102));
    } else if i == 31 {
        assert(is_inverse_pair(131, 0x03e88cb3c9484e2b, 0x01f44659e4a42715));
    } else if i == 32 {
        assert(is_inverse_pair(137, 0xe21a291c077975b9, 0x01de5d6e3f8868a4));
    } else if i == 33 {
        assert(is_inverse_pair(139, 0x3aef6ca970586723, 0x01d77b654b82c339));
    } else if i == 34 {
        assert(is_inverse_pair(149, 0xdf5b0f768ce2cabd, 0x01b7d6c3dda338b2));
    } else if i == 35 {
        assert(is_inverse_pair(151, 0x6fe4dfc9bf937f27, 0x01b2036406c80d90));
    } else if i == 36 {
        assert(is_inverse_pair(157, 0x5b4fe5e92c0685b5, 0x01a16d3f97a4b01a));
    } else if i == 37 {
        assert(is_inverse_pair(163, 0x1f693a1c451ab30b, 0x01920fb49d0e228d));
    } else if i == 38 {
        assert(is_inverse_pair(167, 0x8d07aa27db35a717, 0x01886e5f0abb0499));
    } else if i == 39 {
        assert(is_inverse_pair(173, 0x882383b30d516325, 0x017ad2208e0ecc35));
    } else if i == 40 {
        assert(is_inverse_pair(179, 0xed6866f8d962ae7b, 0x016e1f76b4337c6c));
    } else if i == 41 {
        assert(is_inverse_pair(181, 0x3454dca410f8ed9d, 0x016a13cd15372904));
    } else if i == 42 {
        assert(is_inverse_pair(191, 0x1d7ca632ee936f3f, 0x01571ed3c506b39a));
    } else if i == 43 {
        assert(is_inverse_pair(193, 0x70bf015390948f41, 0x015390948f40feac));
    } else if i == 44 {
        assert(is_inverse_pair(197, 0xc96bdb9d3d137e0d, 0x014cab88725af6e7));
    } else if i == 45 {
        assert(is_inverse_pair(199, 0x2697cc8aef46c0f7, 0x0149539e3b2d066e));
    } else if i == 46 {
        assert(is_inverse_pair(211, 0xc0e8f2a76e68575b, 0x013698df3de07479));
    } else if i == 47 {
        assert(is_inverse_pair(223, 0x687763dfdb43bb1f, 0x0125e22708092f11));
    } else if i == 48 {
        assert(is_inverse_pair(227, 0x1b10ea929ba144cb, 0x0120b470c67c0d88));
    } else if i == 49 {
        assert(is_inverse_pair(229, 0x1d10c4c0478bbced, 0x011e2ef3b3fb8744));
    } else if i == 50 {
        assert(is_inverse_pair(233, 0x63fb9aeb1fdcd759, 0x0119453808ca29c0));
    } else if i == 51 {
        assert(is_inverse_pair(239, 0x64afaa4f437b2e0f, 0x0112358e75d30336));
    } else if i == 52 {
        assert(is_inverse_pair(241, 0xf010fef010fef011, 0x010fef010fef010f));
    } else if i == 53 {
        assert(is_inverse_pair(251, 0x28cbfbeb9a020a33, 0x0105197f7d734041));
    }
}

/// The witnesses lie between 2 and `2^32`.
pub proof fn lemma_witness_range()
    ensures
        forall|i: int| 0 <= i < 7 ==> 2 <= #[trigger] witness_at(i) < 0x1_0000_0000,
{
}

/// The table of small primes ascends strictly, from 2 to 251.
pub proof fn lemma_small_primes_sorted()
    ensures
        forall|i: int, j: int| 0 <= i < j < 54 ==> small_prime_at(i) < small_prime_at(j),
        small_prime_at(0) == 2,
        small_prime_at(1) == 3,
        small_prime_at(53) == 251,
{
}

/// The first sixteen entries of the table of small primes.
pub proof fn lemma_small_primes_head()
    ensures
        small_prime_at(0) == 2,
        small_prime_at(1) == 3,
        small_prime_at(2) == 5,
        small_prime_at(3) == 7,
        small_prime_at(4) == 11,
        small_prime_at(5) == 13,
        small_prime_at(6) == 17,
        small_prime_at(7) == 19,
        small_prime_at(8) == 23,
        small_prime_at(9) == 29,
        small_prime_at(10) == 31,
        small_prime_at(11) == 37,
        small_prime_at(12) == 41,
        small_prime_at(13) == 43,
        small_prime_at(14) == 47,
        small_prime_at(15) == 53,
{
}

/// Every entry of the table of small primes is a prime.
pub proof fn lemma_small_primes_are_prime()
    ensures
        forall|i: int| 0 <= i < 54 ==> is_prime_nat(#[trigger] small_prime_at(i) as nat),
{
    assert forall|i: int| 0 <= i < 54 implies is_prime_nat(#[trigger] small_prime_at(i) as nat) by {
        assert(no_small_factor(SMALL_PRIMES[i] as int));
        lemma_prime_below_289(SMALL_PRIMES[i] as nat);
    }
}

/// Whether `n` stands in the table of small primes.
pub open spec fn in_small_primes(n: int) -> bool {
    exists|i: int| 0 <= i < 54 && small_prime_at(i) == n
}

// The table is held against the small-factor test in stretches of 32
// numbers: first which numbers pass the test, then where they stand.
proof fn lemma_small_primes_cover_0(k: int)
    requires
        0 <= k < 32,
        no_small_factor(k),
    ensures
        exists|i: int| 0 <= i < 54 && SMALL_PRIMES[i] == k,
{
    assert(k == 2 || k == 3 || k == 5 || k == 7 || k == 11 || k == 13 || k == 17 || k == 19 || k == 23
        || k == 29 || k == 31);
    if k == 2 {
        assert(SMALL_PRIMES[0] == 2);
    }
    if k == 3 {
        assert(SMALL_PRIMES[1] == 3);
    }
    if k == 5 {
        assert(SMALL_PRIMES[2] == 5);
    }
    if k == 7 {
        assert(SMALL_PRIMES[3] == 7);
    }
    if k == 11 {
        assert(SMALL_PRIMES[4] == 11);
    }
    if k == 13 {
        assert(SMALL_PRIMES[5] == 13);
    }
    if k == 17 {
        assert(SMALL_PRIMES[6] == 17);
    }
    if k == 19 {
        assert(SMALL_PRIMES[7] == 19);
    }
    if k == 23 {
        assert(SMALL_PRIMES[8] == 23);
    }
    if k == 29 {
        assert(SMALL_PRIMES[9] == 29);
    }
    if k == 31 {
        assert(SMALL_PRIMES[10] == 31);
    }
}

proof fn lemma_small_primes_cover_32(k: int)
    requires
        32 <= k < 64,
        no_small_factor(k),
    ensures
        exists|i: int| 0 <= i < 54 && SMALL_PRIMES[i] == k,
{
    assert(k == 37 || k == 41 || k == 43 || k == 47 || k == 53 || k == 59 || k == 61);
    if k == 37 {
        assert(SMALL_PRIMES[11] == 37);
    }
    if k == 41 {
        assert(SMALL_PRIMES[12] == 41);
    }
    if k == 43 {
        assert(SMALL_PRIMES[13] == 43);
    }
    if k == 47 {
        assert(SMALL_PRIMES[14] == 47);
    }
    if k == 53 {
        assert(SMALL_PRIMES[15] == 53);
    }
    if k == 59 {
        assert(SMALL_PRIMES[16] == 59);
    }
    if k == 61 {
        assert(SMALL_PRIMES[17] == 61);
    }
}

proof fn lemma_small_primes_cover_64(k: int)
    requires
        64 <= k < 96,
        no_small_factor(k),
    ensures
        exists|i: int| 0 <= i < 54 && SMALL_PRIMES[i] == k,
{
    assert(k == 67 || k == 71 || k == 73 || k == 79 || k == 83 || k == 89);
    if k == 67 {
        assert(SMALL_PRIMES[18] == 67);
    }
    if k == 71 {
        assert(SMALL_PRIMES[19] == 71);
    }
    if k == 73 {
        assert(SMALL_PRIMES[20] == 73);
    }
    if k == 79 {
        assert(SMALL_PRIMES[21] == 79);
    }
    if k == 83 {
        assert(SMALL_PRIMES[22] == 83);
    }
    if k == 89 {
        assert(SMALL_PRIMES[23] == 89);
    }
}

proof fn lemma_small_primes_cover_96(k: int)
    requires
        96 <= k < 128,
        no_small_factor(k),
    ensures
        exists|i: int| 0 <= i < 54 && SMALL_PRIMES[i] == k,
{
    assert(k == 97 || k == 101 || k == 103 || k == 107 || k == 109 || k == 113 || k == 127);
    if k == 97 {
        assert(SMALL_PRIMES[24] == 97);
    }
    if k == 101 {
        assert(SMALL_PRIMES[25] == 101);
    }
    if k == 103 {
        assert(SMALL_PRIMES[26] == 103);
    }
    if k == 107 {
        assert(SMALL_PRIMES[27] == 107);
    }
    if k == 109 {
        assert(SMALL_PRIMES[28] == 109);
    }
    if k == 113 {
        assert(SMALL_PRIMES[29] == 113);
    }
    if k == 127 {
        assert(SMALL_PRIMES[30] == 127);
    }
}

proof fn lemma_small_primes_cover_128(k: int)
    requires
        128 <= k < 160,
        no_small_factor(k),
    ensures
        exists|i: int| 0 <= i < 54 && SMALL_PRIMES[i] == k,
{
    assert(k == 131 || k == 137 || k == 139 || k == 149 || k == 151 || k == 157);
    if k == 131 {
        assert(SMALL_PRIMES[31] == 131);
    }
    if k == 137 {
        assert(SMALL_PRIMES[32] == 137);
    }
    if k == 139 {
        assert(SMALL_PRIMES[33] == 139);
    }
    if k == 149 {
        assert(SMALL_PRIMES[34] == 149);
    }
    if k == 151 {
        assert(SMALL_PRIMES[35] == 151);
    }
    if k == 157 {
        assert(SMALL_PRIMES[36] == 157);
    }
}

proof fn lemma_small_primes_cover_160(k: int)
    requires
        160 <= k < 192,
        no_small_factor(k),
    ensures
        exists|i: int| 0 <= i < 54 && SMALL_PRIMES[i] == k,
{
    assert(k == 163 || k == 167 || k == 173 || k == 179 || k == 181 || k == 191);
    if k == 163 {
        assert(SMALL_PRIMES[37] == 163);
    }
    if k == 167 {
        assert(SMALL_PRIMES[38] == 167);
    }
    if k == 173 {
        assert(SMALL_PRIMES[39] == 173);
    }
    if k == 179 {
        assert(SMALL_PRIMES[40] == 179);
    }
    if k == 181 {
        assert(SMALL_PRIMES[41] == 181);
    }
    if k == 191 {
        assert(SMALL_PRIMES[42] == 191);
    }
}

proof fn lemma_small_primes_cover_192(k: int)
    requires
        192 <= k < 224,
        no_small_factor(k),
    ensures
        exists|i: int| 0 <= i < 54 && SMALL_PRIMES[i] == k,
{
    assert(k == 193 || k == 197 || k == 199 || k == 211 || k == 223);
    if k == 193 {
        assert(SMALL_PRIMES[43] == 193);
    }
    if k == 197 {
        assert(SMALL_PRIMES[44] == 197);
    }
    if k == 199 {
        assert(SMALL_PRIMES[45] == 199);
    }
    if k == 211 {
        assert(SMALL_PRIMES[46] == 211);
    }
    if k == 223 {
        assert(SMALL_PRIMES[47] == 223);
    }
}

proof fn lemma_small_primes_cover_224(k: int)
    requires
        224 <= k < 256,
        no_small_factor(k),
    ensures
        exists|i: int| 0 <= i < 54 && SMALL_PRIMES[i] == k,
{
    assert(k == 227 || k == 229 || k == 233 || k == 239 || k == 241 || k == 251);
    if k == 227 {
        assert(SMALL_PRIMES[48] == 227);
    }
    if k == 229 {
        assert(SMALL_PRIMES[49] == 229);
    }
    if k == 233 {
        assert(SMALL_PRIMES[50] == 233);
    }
    if k == 239 {
        assert(SMALL_PRIMES[51] == 239);
    }
    if k == 241 {
        assert(SMALL_PRIMES[52] == 241);
    }
    if k == 251 {
        assert(SMALL_PRIMES[53] == 251);
    }
}

/// A number below 256 without a proper small factor stands in the table.
proof fn lemma_small_primes_cover(k: int)
    requires
        0 <= k < 256,
        no_small_factor(k),
    ensures
        in_small_primes(k),
{
    if k < 32 {
        lemma_small_primes_cover_0(k);
    } else if k < 64 {
        lemma_small_primes_cover_32(k);
    } else if k < 96 {
        lemma_small_primes_cover_64(k);
    } else if k < 128 {
        lemma_small_primes_cover_96(k);
    } else if k < 160 {
        lemma_small_primes_cover_128(k);
    } else if k < 192 {
        lemma_small_primes_cover_160(k);
    } else if k < 224 {
        lemma_small_primes_cover_192(k);
    } else {
        lemma_small_primes_cover_224(k);
    }
    let i = choose|i: int| 0 <= i < 54 && SMALL_PRIMES[i] == k;
    assert(small_prime_at(i) == k);
}

/// Every prime below 256 stands in the table of small primes.
pub proof fn lemma_small_primes_complete(n: nat)
    requires
        n < 256,
        is_prime_nat(n),
    ensures
        in_small_primes(n as int),
{
    lemma_prime_below_289(n);
    lemma_small_primes_cover(n as int);
}

/// Below 256 the table of small primes decides primality.
pub proof fn lemma_small_primes_decide(n: nat)
    requires
        n < 256,
    ensures
        is_prime_nat(n) <==> in_small_primes(n as int),
{
    lemma_small_primes_are_prime();
    if is_prime_nat(n) {
        lemma_small_primes_complete(n);
    }
}

/// Where `x` stands among the small primes: the first `i` entries lie below
/// it, the others do not.
pub open spec fn small_primes_split(x: int, i: int) -> bool {
    &&& 0 <= i <= 54
    &&& forall|j: int| 0 <= j < i ==> (#[trigger] small_prime_at(j)) < x
    &&& forall|j: int| i <= j < 54 ==> (#[trigger] small_prime_at(j)) >= x
}

/// Looks `x` up in the table of small primes: `Ok` with its index, or `Err`
/// with the index at which it would have to be inserted. Either way the
/// index says how many entries lie below `x`.
pub fn search_small_primes(x: u8) -> (r: Result<usize, usize>)
    ensures
        match r {
            Ok(i) => i < 54 && small_prime_at(i as int) == x && small_primes_split(
                x as int,
                i as int,
            ),
            Err(i) => !in_small_primes(x as int) && small_primes_split(x as int, i as int),
        },
{
    proof {
        lemma_small_primes_sorted();
    }
    let mut lo: usize = 0;
    let mut hi: usize = 54;
    while lo < hi
        invariant
            0 <= lo <= hi <= 54,
            forall|j: int| 0 <= j < lo ==> (#[trigger] small_prime_at(j)) < x,
            forall|j: int| hi <= j < 54 ==> (#[trigger] small_prime_at(j)) > x,
            forall|i: int, j: int| 0 <= i < j < 54 ==> small_prime_at(i) < small_prime_at(j),
        decreases hi - lo,
    {
        let mid = lo + (hi - lo) / 2;
        let p = small_prime(mid);
        if p == x {
            proof {
                assert forall|j: int| 0 <= j < mid implies (#[trigger] small_prime_at(j)) < x by {
                    assert(small_prime_at(j) < small_prime_at(mid as int));
                }
                assert forall|j: int| mid <= j < 54 implies (#[trigger] small_prime_at(j))
                    >= x by {
                    if j > mid {
                        assert(small_prime_at(mid as int) < small_prime_at(j));
                    }
                }
            }
            return Ok(mid);
        } else if p < x {
            proof {
                assert forall|j: int| 0 <= j < mid + 1 implies (#[trigger] small_prime_at(j))
                    < x by {
                    if j < mid {
                        assert(small_prime_at(j) < small_prime_at(mid as int));
                    }
                }
            }
            lo = mid + 1;
        } else {
            proof {
                assert forall|j: int| mid <= j < 54 implies (#[trigger] small_prime_at(j))
                    > x by {
                    if j > mid {
                        assert(small_prime_at(mid as int) < small_prime_at(j));
                    }
                }
            }
            hi = mid;
        }
    }
    Err(lo)
}

/// A prime below 256 on either side of a split of the table.
pub proof fn lemma_small_primes_split(x: int, i: int, q: nat)
    requires
        small_primes_split(x, i),
        q < 256,
        is_prime_nat(q),
    ensures
        q < x ==> i >= 1 && q <= small_prime_at(i - 1),
        q >= x ==> i < 54 && q >= small_prime_at(i),
{
    lemma_small_primes_sorted();
    lemma_small_primes_complete(q);
    let j = choose|j: int| 0 <= j < 54 && small_prime_at(j) == q;
    if q < x {
        if j >= i {
            assert(small_prime_at(j) >= x);
        }
        if j < i - 1 {
            assert(small_prime_at(j) < small_prime_at(i - 1));
        }
    } else {
        if j < i {
            assert(small_prime_at(j) < x);
        }
        if j > i {
            assert(small_prime_at(i) < small_prime_at(j));
        }
    }
}

/// With `i` table entries up to `x`, there are `i` primes up to `x`.
pub proof fn lemma_small_prime_count(x: nat, i: nat)
    requires
        x < 256,
        small_primes_split(x as int + 1, i as int),
    ensures
        prime_count(x) == i,
    decreases x,
{
    lemma_small_primes_sorted();
    lemma_small_primes_decide(x);
    if x == 0 {
        if i > 0 {
            assert(small_prime_at(0) < 1);
        }
    } else if is_prime_nat(x) {
        lemma_small_primes_split(x as int + 1, i as int, x);
        let k = i - 1;
        assert(small_prime_at(k) == x) by {
            assert(small_prime_at(k) < x + 1);
        }
        assert(small_primes_split(x as int, k)) by {
            assert forall|j: int| 0 <= j < k implies (#[trigger] small_prime_at(j)) < x by {
                assert(small_prime_at(j) < small_prime_at(k));
            }
        }
        lemma_small_prime_count((x - 1) as nat, k as nat);
    } else {
        assert(small_primes_split(x as int, i as int)) by {
            assert forall|j: int| 0 <= j < i implies (#[trigger] small_prime_at(j)) < x by {
                assert(small_prime_at(j) < x + 1);
                if small_prime_at(j) == x {
                    lemma_small_primes_are_prime();
                }
            }
        }
        lemma_small_prime_count((x - 1) as nat, i);
    }
}

/// `n` shares a factor with the wheel.
pub open spec fn shares_wheel_factor(n: int) -> bool {
    n % 2 == 0 || n % 3 == 0 || n % 5 == 0
}

/// The number `d` above the residue `i` shares a factor with the wheel.
pub open spec fn wheel_skips_up(i: int, d: int) -> bool {
    shares_wheel_factor(i + d)
}

/// The number `d` below the residue `i` shares a factor with the wheel.
pub open spec fn wheel_skips_down(i: int, d: int) -> bool {
    shares_wheel_factor(i + 30 - d)
}

/// A step up the wheel is of 1 to 6, and every number that it passes over
/// shares a factor with the wheel.
pub proof fn lemma_wheel_next()
    ensures
        forall|i: int| 0 <= i < 30 ==> 1 <= #[trigger] wheel_next_at(i) <= 6,
        forall|i: int, d: int|
            0 <= i < 30 && 1 <= d < wheel_next_at(i) ==> #[trigger] wheel_skips_up(i, d),
{
}

/// A step down the wheel is of 1 to 6, and every number that it passes over
/// shares a factor with the wheel.
pub proof fn lemma_wheel_prev()
    ensures
        forall|i: int| 0 <= i < 30 ==> 1 <= #[trigger] wheel_prev_at(i) <= 6,
        forall|i: int, d: int|
            0 <= i < 30 && 1 <= d < wheel_prev_at(i) ==> #[trigger] wheel_skips_down(i, d),
{
}

} // verus!
