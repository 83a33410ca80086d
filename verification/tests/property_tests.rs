use num_bigint::BigUint;
use num_prime::bigint::BigNat;
use num_prime::factor::{gcd64, integer_sqrt, pollard_rho, smallest_factor, squfof};
use num_prime::nt_funcs::{
    factors, factors64, factors64_seeded, find_factor, find_factor_seeded, has_repeated_factor,
    is_prime, is_safe_prime,
    is_square_free, moebius64, moebius_mu, next_prime, nprimes, nth_prime, prev_prime,
    prime_factors, prime_from, prime_pi, primes, primorial, probable_prime, safe_prime_from,
    small_nth_prime, small_prime_pi,
};
use num_prime::primality::{is_prime64, is_sprp, is_sprp_to_all};
use num_prime::tables::{search_small_primes, SMALL_PRIMES};
use num_prime::traits::{
    FactorizationConfig, ModInt, Primality, PrimalityBase, PrimalityTestConfig,
};

fn trial_prime(n: u64) -> bool {
    if n < 2 {
        return false;
    }
    let mut d = 2;
    while d * d <= n {
        if n % d == 0 {
            return false;
        }
        d += 1;
    }
    true
}

fn big(s: &str) -> BigNat {
    let x: BigUint = s.parse().unwrap();
    BigNat::from_digits(x.to_u32_digits()).unwrap()
}

fn show(x: &BigNat) -> String {
    BigUint::from_slice(x.digits()).to_string()
}

#[test]
fn addm_is_the_sum_modulo_m() {
    for a in 0..40u8 {
        for b in 0..40u8 {
            for m in 1..20u8 {
                assert_eq!(a.addm(&b, &m) as u32, (a as u32 + b as u32) % m as u32);
            }
        }
    }
    assert_eq!(u8::MAX.addm(&u8::MAX, &u8::MAX), 0);
    assert_eq!(u64::MAX.addm(&u64::MAX, &(u64::MAX - 1)), 2);
    // the sum overflows 128 bits
    let big = u128::MAX - 1;
    assert_eq!(big.addm(&big, &u128::MAX), u128::MAX - 2);
    assert_eq!(u128::MAX.addm(&u128::MAX, &7), (2 * (u128::MAX % 7)) % 7);
}

#[test]
fn subm_is_the_difference_modulo_m() {
    for a in 0..40u16 {
        for b in 0..40u16 {
            for m in 1..20u16 {
                let expected = ((a as i32 - b as i32) % m as i32 + m as i32) % m as i32;
                assert_eq!(a.subm(&b, &m) as i32, expected);
            }
        }
    }
    assert_eq!(0u64.subm(&1, &u64::MAX), u64::MAX - 1);
    assert_eq!(0u128.subm(&u128::MAX, &(u128::MAX - 1)), u128::MAX - 2);
}

#[test]
fn mulm_is_the_product_modulo_m() {
    for a in 0..40u32 {
        for b in 0..40u32 {
            for m in 1..20u32 {
                assert_eq!(a.mulm(&b, &m), (a * b) % m);
            }
        }
    }
    assert_eq!(u64::MAX.mulm(&u64::MAX, &(u64::MAX - 1)), 1);
    // the product overflows 128 bits, before and after the reduction
    let a: u128 = (1 << 127) + 3;
    let b: u128 = (1 << 126) + 5;
    let m: u128 = (1 << 127) - 1;
    assert_eq!(a.mulm(&b, &m), 22);
    assert_eq!((m - 1).mulm(&(m - 1), &m), 1);
    assert_eq!(
        big("170141183460469231731687303715884105731")
            .mulm(&big("85070591730234615865843651857942052869"), &big("170141183460469231731687303715884105727"))
            .to_u64(),
        Some(22)
    );
}

#[test]
fn powm_is_the_power_modulo_m() {
    for a in 0..12u64 {
        for e in 0..8u64 {
            for m in 1..20u64 {
                assert_eq!(a.powm(&e, &m), a.pow(e as u32) % m);
            }
        }
    }
    assert_eq!(2u64.powm(&10, &1000), 24);
    assert_eq!(5u8.powm(&0, &1), 0);
    assert_eq!(5u128.powm(&0, &1), 0);
    assert_eq!(BigNat::from_u64(5).powm(&BigNat::from_u64(0), &BigNat::from_u64(1)).to_u64(), Some(0));
    assert_eq!(7u16.powm(&1, &5), 2);
    assert_eq!(7u32.powm(&2, &5), 4);
    let a: u128 = (1 << 127) + 3;
    let b: u128 = (1 << 126) + 5;
    let m: u128 = (1 << 127) - 1;
    assert_eq!(a.powm(&b, &m), 4096);
    assert_eq!(
        show(&big("170141183460469231731687303715884105731").powm(
            &big("85070591730234615865843651857942052869"),
            &big("170141183460469231731687303715884105727")
        )),
        "4096"
    );
}

#[test]
fn fac2_is_the_exponent_of_two() {
    assert_eq!(0u8.fac2(), 0);
    assert_eq!(0u64.fac2(), 0);
    assert_eq!(0u128.fac2(), 0);
    assert_eq!(BigNat::from_u64(0).fac2(), 0);
    assert_eq!(1u16.fac2(), 0);
    assert_eq!(96u8.fac2(), 5);
    assert_eq!(128u8.fac2(), 7);
    assert_eq!((1u64 << 63).fac2(), 63);
    assert_eq!((3u128 << 100).fac2(), 100);
    assert_eq!(big("1267650600228229401496703205376").fac2(), 100);
    for a in 1..2000u32 {
        let k = a.fac2();
        assert_eq!(a % (1 << k), 0);
        assert_eq!((a >> k) % 2, 1);
    }
}

#[test]
fn invm_exists_exactly_for_coprime_arguments() {
    for m in 1..60u64 {
        for a in 0..120u64 {
            match a.invm(&m) {
                Some(x) => {
                    assert_eq!(gcd64(a, m), 1);
                    assert!(x < m);
                    assert_eq!(a.mulm(&x, &m), 1 % m);
                }
                None => assert!(gcd64(a, m) != 1),
            }
        }
    }
    assert_eq!(0u64.invm(&7), None);
    assert_eq!(0u64.invm(&1), Some(0));
    assert_eq!(1u64.invm(&7), Some(1));
    assert_eq!(1u8.invm(&2), Some(1));
    assert_eq!(6u32.invm(&9), None);
    assert_eq!(999u64.invm(&5000), Some(3999));
    assert_eq!(5u64.invm(&11), Some(9));
    let m: u128 = (1 << 127) - 1;
    assert_eq!(3u128.invm(&m), Some(113427455640312821154458202477256070485));
    assert_eq!(
        show(&BigNat::from_u64(3).invm(&big("170141183460469231731687303715884105727")).unwrap()),
        "113427455640312821154458202477256070485"
    );
    assert!(BigNat::from_u64(6).invm(&BigNat::from_u64(9)).is_none());
}

#[test]
fn jacobi_is_a_sign_and_vanishes_on_common_factors() {
    let mut n = 1u64;
    while n < 200 {
        for a in 0..400u64 {
            let j = a.jacobi(&n);
            assert!(j == -1 || j == 0 || j == 1);
            assert_eq!(j == 0, gcd64(a, n) != 1);
            assert_eq!(j, (a as u16).jacobi(&(n as u16)));
            assert_eq!(j, (a as u128).jacobi(&(n as u128)));
            if a < 100 {
                assert_eq!(j, BigNat::from_u64(a).jacobi(&BigNat::from_u64(n)));
            }
        }
        n += 2;
    }
    // the symbol of 0: 1 for the modulus 1, and 0 for every other
    assert_eq!(0u8.jacobi(&1), 1);
    assert_eq!(0u16.jacobi(&1), 1);
    assert_eq!(0u32.jacobi(&1), 1);
    assert_eq!(0u64.jacobi(&1), 1);
    assert_eq!(0u128.jacobi(&1), 1);
    assert_eq!(BigNat::from_u64(0).jacobi(&BigNat::from_u64(1)), 1);
    assert_eq!(0u8.jacobi(&3), 0);
    assert_eq!(0u64.jacobi(&9), 0);
    assert_eq!(0u128.jacobi(&(u128::MAX)), 0);
    assert_eq!(BigNat::from_u64(0).jacobi(&BigNat::from_u64(15)), 0);
    assert_eq!(7u64.jacobi(&1), 1);
    assert_eq!(1u64.jacobi(&1), 1);
    assert_eq!(2u64.jacobi(&1), 1);
    assert_eq!(19u64.jacobi(&29), -1);
    assert_eq!(29u64.jacobi(&9), 1);
    assert_eq!(11u64.jacobi(&33), 0);
    assert_eq!(1001u64.jacobi(&9907), -1);
    assert_eq!(
        big("1267650600228229401496703205383").jacobi(&big("618970019642690137449562111")),
        1
    );
}

#[test]
fn jacobi_is_the_legendre_symbol_for_odd_primes() {
    for &p in SMALL_PRIMES.iter().skip(1) {
        let p = p as u64;
        for a in 0..2 * p {
            // Euler's criterion
            let euler = a.powm(&((p - 1) / 2), &p);
            let legendre = if euler == p - 1 { -1 } else { euler as i8 };
            assert_eq!(a.jacobi(&p), legendre, "a: {}, p: {}", a, p);
        }
    }
}

#[test]
fn is_prime64_agrees_with_trial_division() {
    for n in 0..70000u64 {
        assert_eq!(is_prime64(n), trial_prime(n), "n: {}", n);
    }
    for n in (1u64 << 32) - 500..(1u64 << 32) + 500 {
        assert_eq!(is_prime64(n), trial_prime(n), "n: {}", n);
    }
    assert!(!is_prime64(0));
    assert!(!is_prime64(1));
    assert!(is_prime64(2));
    // strong pseudoprimes to the bases 2 and 3, and to 2, 3, 5 and 7
    assert!(!is_prime64(1373653));
    assert!(!is_prime64(3215031751));
    assert!(!is_prime64(3825123056546413051));
    assert!(is_prime64(18446744073709551557));
    assert!(!is_prime64(u64::MAX));
}

#[test]
fn is_sprp_follows_the_chain_of_squares() {
    // 2047 = 23 * 89 is the least strong pseudoprime to the base 2
    assert!(is_sprp(&2047u64, &2));
    assert!(!is_sprp(&2047u64, &3));
    assert!(is_sprp(&2047u16, &2));
    assert!(is_sprp(&2047u128, &2));
    assert!(is_sprp(&BigNat::from_u64(2047), &BigNat::from_u64(2)));
    assert!(!is_sprp(&BigNat::from_u64(2047), &BigNat::from_u64(3)));
    assert!(is_sprp(&13u8, &2));
    assert!(!is_sprp(&9u8, &2));
    assert!(!is_sprp(&13u8, &0));
    assert!(is_sprp(&13u8, &1));
    assert!(is_sprp_to_all(&2047u64, &vec![2]));
    assert!(!is_sprp_to_all(&2047u64, &vec![2, 3]));
    assert!(is_sprp_to_all(&9u8, &vec![]));
    // bases beyond the type count modulo the number
    assert!(is_sprp_to_all(&13u8, &vec![2 + 13 * 1000]));
}

#[test]
fn is_prime_beyond_64_bits() {
    // Mersenne primes and a Fermat number
    let m89 = big("618970019642690137449562111");
    let m127: u128 = (1 << 127) - 1;
    assert_eq!(is_prime(&m89, None), Primality::Probable);
    assert_eq!(is_prime(&m127, None), Primality::Probable);
    assert_eq!(is_prime(&m127, Some(PrimalityTestConfig::strict())), Primality::Probable);
    assert_eq!(is_prime(&big("340282366920938463463374607431768211457"), None), Primality::No);
    assert_eq!(is_prime(&(m127 - 2), None), Primality::No);
    assert_eq!(is_prime(&((1u128 << 100) + 2), None), Primality::No);
    // the product of two primes above 2^32
    assert_eq!(is_prime(&(4294967311u128 * 4294967357 * 4294967371), None), Primality::No);
    // up to 64 bits the test decides
    assert_eq!(is_prime(&97u8, None), Primality::Yes);
    assert_eq!(is_prime(&91u8, None), Primality::No);
    assert_eq!(is_prime(&BigNat::from_u64(18446744073709551557), None), Primality::Yes);
    assert_eq!(is_prime(&(u64::MAX as u128), None), Primality::No);
    assert!(is_safe_prime(&m127).probably() == false);
    assert_eq!(is_safe_prime(&23u8), Primality::Yes);
    assert_eq!(is_safe_prime(&13u8), Primality::No);
}

#[test]
fn probable_primes_by_given_witnesses() {
    let m127: u128 = (1 << 127) - 1;
    assert_eq!(probable_prime(&m127, 0, &vec![]), Primality::Probable);
    assert_eq!(probable_prime(&m127, 5, &vec![0, 1, 2, 12345678901234567890]), Primality::Probable);
    assert_eq!(probable_prime(&(m127 - 1), 0, &vec![]), Primality::No);
    // 2^89 + 1 is divisible by 3
    let n: u128 = (1 << 89) + 1;
    assert_eq!(probable_prime(&n, 0, &vec![]), Primality::Probable);
    assert_eq!(probable_prime(&n, 0, &vec![0, 0]), Primality::Probable);
    assert_eq!(probable_prime(&n, 0, &vec![1]), Primality::Probable);
    assert_eq!(probable_prime(&n, 1, &vec![]), Primality::No);
    assert_eq!(probable_prime(&n, 0, &vec![1, 0, 5]), Primality::No);
    assert_eq!(probable_prime(&big("618970019642690137449562113"), 0, &vec![7]), Primality::No);
}

#[test]
fn factors64_gives_primes_whose_product_is_the_target() {
    assert!(factors64(1).is_empty());
    for n in 1..5000u64 {
        let fac = factors64(n);
        let mut prod = 1u64;
        for (p, e) in fac.iter() {
            assert!(trial_prime(*p), "n: {}, p: {}", n, p);
            assert!(*e >= 1);
            prod *= p.pow(*e as u32);
        }
        assert_eq!(prod, n);
        let keys = prime_factors(&fac);
        assert_eq!(keys.len(), fac.len());
        assert!(keys.windows(2).all(|w| w[0] < w[1]));
        assert_eq!(has_repeated_factor(&fac), fac.values().any(|e| *e > 1));
    }
    // a power of 2, a prime, a square of a prime above the table, and a
    // product of two primes above 2^31
    assert_eq!(factors64(1 << 63).into_iter().collect::<Vec<_>>(), vec![(2, 63)]);
    assert_eq!(factors64(18446744073709551557).into_iter().collect::<Vec<_>>(), vec![(18446744073709551557, 1)]);
    assert_eq!(factors64(1000003 * 1000003).into_iter().collect::<Vec<_>>(), vec![(1000003, 2)]);
    assert_eq!(
        factors64(4294967291 * 4294967279).into_iter().collect::<Vec<_>>(),
        vec![(4294967279, 1), (4294967291, 1)]
    );
    assert_eq!(
        factors64(u64::MAX).into_iter().collect::<Vec<_>>(),
        vec![(3, 1), (5, 1), (17, 1), (257, 1), (641, 1), (65537, 1), (6700417, 1)]
    );
    assert_eq!(
        factors64(3 * 3 * 3 * 251 * 251 * 257).into_iter().collect::<Vec<_>>(),
        vec![(3, 3), (251, 2), (257, 1)]
    );
}

#[test]
fn factors_succeeds_up_to_64_bits() {
    assert_eq!(factors(12u8, None).unwrap(), factors64(12));
    assert_eq!(factors(123456789u128, Some(FactorizationConfig::strict())).unwrap(), factors64(123456789));
    assert_eq!(factors(1u128 << 64, None), Err(vec![1u128 << 64]));
    assert!(factors(BigNat::from_u64(1001), None).is_ok());
}

#[test]
fn divisor_searches() {
    assert_eq!(gcd64(0, 0), 0);
    assert_eq!(gcd64(0, 9), 9);
    assert_eq!(gcd64(12, 18), 6);
    assert_eq!(gcd64(u64::MAX, 641), 641);
    assert_eq!(integer_sqrt(0), 0);
    assert_eq!(integer_sqrt(17), 4);
    assert_eq!(integer_sqrt(24), 4);
    assert_eq!(integer_sqrt(25), 5);
    assert_eq!(integer_sqrt(u64::MAX), 4294967295);
    assert_eq!(smallest_factor(2), 2);
    assert_eq!(smallest_factor(91), 7);
    assert_eq!(smallest_factor(1000003), 1000003);
    assert_eq!(smallest_factor(1000003 * 1000003), 1000003);
    assert_eq!(pollard_rho(8051, 2, 1), Some(97));
    assert_eq!(pollard_rho(10403, 2, 1), Some(101));
    assert_eq!(pollard_rho(7, 2, 1), None);
    assert_eq!(squfof(11111, 1), Some(41));
    assert_eq!(squfof(600851475143, 1), Some(1471));
    assert_eq!(squfof(1000012000027, 1), Some(1000003));
    assert_eq!(squfof(10403, 3), Some(101));
    assert_eq!(squfof(2305843009213693951, 1), None);
    assert_eq!(squfof(u64::MAX, 1155), None);
    assert_eq!(squfof(1, 1), None);
    assert_eq!(squfof(49, 1), Some(7));
    assert_eq!(squfof(1000003 * 1000003, 5), Some(1000003));
    for n in [15u64, 8051, 1000003 * 1000033, 4294967291 * 4294967279] {
        let d = find_factor(n);
        assert!(1 < d && d < n && n % d == 0);
    }
}

#[test]
fn factorisation_with_given_seeds() {
    // the first trial is Pollard's rho from the first two seeds
    assert_eq!(find_factor_seeded(8051, &vec![2, 1]), 97);
    assert_eq!(find_factor_seeded(10403, &vec![2, 1]), 101);
    assert_eq!(find_factor_seeded(8051 + 8051 * 0, &vec![2 + 8051, 1 + 8051 * 3]), 97);
    // without seeds Pollard's rho stands still, and the square forms find
    // the divisor, or trial division does
    let d = find_factor_seeded(8051, &vec![]);
    assert!(d == 83 || d == 97);
    assert_eq!(find_factor_seeded(1000003 * 1000003, &vec![]), 1000003);
    let seeds: Vec<u64> = (0..256).map(|k| k * k + 1).collect();
    for n in [4294967291u64 * 4294967279, 1000003 * 1000033 * 1000037, 257 * 263 * 269 * 271] {
        assert_eq!(factors64_seeded(n, &seeds), factors64_seeded(n, &seeds));
        assert_eq!(factors64_seeded(n, &seeds), factors64(n));
    }
    assert_eq!(factors64_seeded(257 * 263 * 269, &vec![]), factors64(257 * 263 * 269));
}

#[test]
fn table_of_small_primes() {
    assert_eq!(search_small_primes(2), Ok(0));
    assert_eq!(search_small_primes(251), Ok(53));
    assert_eq!(search_small_primes(0), Err(0));
    assert_eq!(search_small_primes(4), Err(2));
    assert_eq!(search_small_primes(255), Err(54));
    for n in 0..=255u8 {
        assert_eq!(search_small_primes(n).is_ok(), trial_prime(n as u64));
    }
}

#[test]
fn next_and_previous_prime() {
    assert_eq!(prev_prime(&0u64, None), None);
    assert_eq!(prev_prime(&1u64, None), None);
    assert_eq!(prev_prime(&2u64, None), None);
    assert_eq!(prev_prime(&3u64, None), Some(2));
    assert_eq!(next_prime(&0u64, None), Some(2));
    assert_eq!(next_prime(&250u64, None), Some(251));
    assert_eq!(next_prime(&251u64, None), Some(257));
    assert_eq!(prev_prime(&252u64, None), Some(251));
    assert_eq!(prev_prime(&255u64, None), Some(251));
    assert_eq!(prev_prime(&256u64, None), Some(251));
    assert_eq!(prev_prime(&257u64, None), Some(251));
    assert_eq!(prev_prime(&258u64, None), Some(257));
    assert_eq!(next_prime(&999983u64, None), Some(1000003));
    assert_eq!(prev_prime(&10000000u64, None), Some(9999991));
    // the last prime of each width, and the overflow beyond it
    assert_eq!(next_prime(&u64::MAX, None), None);
    assert_eq!(next_prime(&18446744073709551557u64, None), None);
    assert_eq!(next_prime(&18446744073709551556u64, None), Some(18446744073709551557));
    assert_eq!(prev_prime(&u64::MAX, None), Some(18446744073709551557));
    assert_eq!(next_prime(&251u8, None), None);
    assert_eq!(next_prime(&241u8, None), Some(251));
    assert_eq!(next_prime(&65521u16, None), None);
    assert_eq!(next_prime(&u64::MAX.into(), None), Some(18446744073709551629u128));
    assert_eq!(
        show(&next_prime(&BigNat::from_u64(u64::MAX), None).unwrap()),
        "18446744073709551629"
    );
    assert_eq!(
        show(&prev_prime(&big("18446744073709551629"), None).unwrap()),
        "18446744073709551557"
    );
    let mut n = 0u64;
    while n < 3000 {
        let p = next_prime(&n, None).unwrap();
        assert!(p > n && trial_prime(p));
        assert!((n + 1..p).all(|q| !trial_prime(q)));
        if n > 2 {
            let q = prev_prime(&n, None).unwrap();
            assert!(q < n && trial_prime(q));
            assert!((q + 1..n).all(|r| !trial_prime(r)));
        }
        n += 1;
    }
}

#[test]
fn lists_and_counts_of_primes() {
    assert_eq!(primes(0), Vec::<u64>::new());
    assert_eq!(primes(1), Vec::<u64>::new());
    assert_eq!(primes(2), vec![2]);
    assert_eq!(primes(30), vec![2, 3, 5, 7, 11, 13, 17, 19, 23, 29]);
    assert_eq!(primes(31).last(), Some(&31));
    assert_eq!(primes(100000).len(), 9592);
    assert_eq!(nprimes(0), Vec::<u64>::new());
    assert_eq!(nprimes(5), vec![2, 3, 5, 7, 11]);
    assert_eq!(nprimes(1000).last(), Some(&7919));
    assert_eq!(prime_pi(0), 0);
    assert_eq!(prime_pi(2), 1);
    assert_eq!(prime_pi(100), 25);
    assert_eq!(prime_pi(10000), 1229);
    assert_eq!(nth_prime(0), None);
    assert_eq!(nth_prime(1), Some(2));
    assert_eq!(nth_prime(100), Some(541));
    assert_eq!(nth_prime(1000), Some(7919));
    assert_eq!(primorial::<u64>(0), Some(1));
    assert_eq!(primorial::<u64>(1), Some(2));
    assert_eq!(primorial::<u64>(4), Some(210));
    assert_eq!(primorial::<u64>(15), Some(614889782588491410));
    assert_eq!(primorial::<u64>(16), None);
    assert_eq!(primorial::<u64>(1000), None);
    assert_eq!(primorial::<u8>(0), Some(1));
    assert_eq!(primorial::<u8>(4), Some(210));
    assert_eq!(primorial::<u8>(5), None);
    assert_eq!(primorial::<u16>(6), Some(30030));
    assert_eq!(primorial::<u16>(7), None);
    assert_eq!(primorial::<u32>(9), Some(223092870));
    assert_eq!(primorial::<u32>(10), None);
    assert_eq!(primorial::<u128>(16), Some(32589158477190044730));
    assert_eq!(primorial::<u128>(26), Some(232862364358497360900063316880507363070));
    assert_eq!(primorial::<u128>(27), None);
    assert_eq!(
        show(&primorial::<BigNat>(30).unwrap()),
        "31610054640417607788145206291543662493274686990"
    );
    assert_eq!(0u8.times(1000), Some(0));
    assert_eq!(3u8.times(85), Some(255));
    assert_eq!(3u8.times(86), None);
    assert_eq!(1u8.times(256), None);
    assert_eq!(u64::MAX.times(2), None);
    assert_eq!(u64::MAX.times(1), Some(u64::MAX));
    assert_eq!((u64::MAX as u128).times(u64::MAX), Some(340282366920938463426481119284349108225));
    assert_eq!(u128::MAX.times(2), None);
    assert_eq!(show(&big("340282366920938463463374607431768211456").times(10).unwrap()), "3402823669209384634633746074317682114560");
    for x in 0..=251u64 {
        assert_eq!(small_prime_pi(x), Some(prime_pi(x)));
    }
    assert_eq!(small_prime_pi(252), None);
    assert_eq!(small_nth_prime(0), Some(0));
    for n in 1..=54u64 {
        assert_eq!(small_nth_prime(n), nth_prime(n));
    }
    assert_eq!(small_nth_prime(55), None);
}

#[test]
fn moebius_function() {
    fn mu(n: u64) -> i8 {
        let mut n = n;
        let mut r = 1;
        let mut p = 2;
        while p * p <= n {
            if n % p == 0 {
                n /= p;
                if n % p == 0 {
                    return 0;
                }
                r = -r;
            }
            p += 1;
        }
        if n > 1 {
            r = -r;
        }
        r
    }
    for n in 1..20000u64 {
        assert_eq!(moebius64(n), mu(n), "n: {}", n);
        assert_eq!(is_square_free(&n), mu(n) != 0);
    }
    assert_eq!(moebius_mu(&30u8), -1);
    assert_eq!(moebius_mu(&1024u16), 0);
    assert_eq!(moebius_mu(&(257u128 * 263)), 1);
    assert_eq!(moebius_mu(&BigNat::from_u64(257 * 263 * 269)), -1);
    assert_eq!(moebius64(257 * 257), 0);
    assert_eq!(moebius64(u64::MAX), -1);
    assert!(!is_square_free(&(1000003u64 * 1000003)));
    assert!(is_square_free(&(1000003u64 * 1000033)));
}

#[test]
fn rand_prime_test() {
    // what the library makes of random draws of each size
    for bits in [8u32, 12, 16, 24, 32, 48, 64] {
        for _ in 0..20 {
            let draw = rand::random::<u64>() >> (64 - bits);
            match prime_from(&draw, None) {
                Some(p) => {
                    assert!(p >= draw);
                    assert!(is_prime64(p));
                    if let Some(s) = safe_prime_from(&p) {
                        assert!(is_safe_prime(&s).probably());
                    }
                }
                None => assert!(draw > 18446744073709551557),
            }
        }
    }
    let p: u128 = prime_from(&(rand::random::<u128>() >> 8), None).unwrap();
    assert!(is_prime(&p, None).probably());
    let draw: BigUint = rand::Rng::gen::<u128>(&mut rand::thread_rng()).into();
    let p = prime_from(&BigNat::from_digits((draw << 64u8).to_u32_digits()).unwrap(), None).unwrap();
    assert!(is_prime(&p, None).probably());
    assert_eq!(prime_from(&90u8, None), Some(97));
    assert_eq!(prime_from(&97u8, None), Some(97));
    assert_eq!(prime_from(&252u8, None), None);
    assert_eq!(safe_prime_from(&11u64), Some(11));
    assert_eq!(safe_prime_from(&13u64), None);
    assert_eq!(safe_prime_from(&29u64), Some(59));
    assert_eq!(safe_prime_from(&18446744073709551557u64), None);
    assert_eq!(safe_prime_from(&89u8), Some(179));
    assert_eq!(safe_prime_from(&131u8), None);
    assert_eq!(safe_prime_from(&131u16), Some(263));
    assert_eq!(131u8.twice_plus_one(), None);
    assert_eq!(127u8.twice_plus_one(), Some(255));
    assert_eq!(u128::MAX.twice_plus_one(), None);
    assert_eq!(
        show(&BigNat::from_u64(u64::MAX).twice_plus_one().unwrap()),
        "36893488147419103231"
    );
}

#[test]
fn verdicts_and_configurations() {
    let (yes, no, probable) = (Primality::Yes, Primality::No, Primality::Probable);
    assert!(yes.probably() && probable.probably() && !no.probably());
    assert_eq!(yes.and(yes), yes);
    assert_eq!(yes.and(probable), probable);
    assert_eq!(probable.and(yes), probable);
    assert_eq!(probable.and(probable), probable);
    for v in [yes, no, probable] {
        assert_eq!(v.and(no), no);
        assert_eq!(no.and(v), no);
    }
    assert_eq!(PrimalityTestConfig::default().sprp_trials, 2);
    assert_eq!(PrimalityTestConfig::default().sprp_random_trials, 3);
    assert!(PrimalityTestConfig::strict().sprp_trials > PrimalityTestConfig::default().sprp_trials);
    assert_eq!(FactorizationConfig::strict().primality_config, PrimalityTestConfig::strict());
    assert_eq!(FactorizationConfig::default().primality_config, PrimalityTestConfig::default());
}

#[test]
fn numbers_of_arbitrary_precision() {
    assert_eq!(BigNat::from_u64(0).digits(), &Vec::<u32>::new());
    assert_eq!(BigNat::from_u64(5).digits(), &vec![5]);
    assert_eq!(BigNat::from_u64(u64::MAX).digits(), &vec![u32::MAX, u32::MAX]);
    assert_eq!(BigNat::from_u64(u64::MAX).to_u64(), Some(u64::MAX));
    assert_eq!(big("18446744073709551616").to_u64(), None);
    assert_eq!(big("18446744073709551616").digits(), &vec![0, 0, 1]);
    assert_eq!(big("18446744073709551616").as_u64(), None);
    assert_eq!(<BigNat as PrimalityBase>::try_from_u64(77).unwrap().to_u64(), Some(77));
    let x = big("340282366920938463463374607431768211456");
    assert_eq!(show(&x.add_small(255).unwrap()), "340282366920938463463374607431768211711");
    assert_eq!(show(&x.sub_small(1)), "340282366920938463463374607431768211455");
    assert_eq!(x.rem_small(7), 4);
    assert_eq!(show(&x.shift_right(100)), "268435456");
    assert_eq!(show(&x.shift_right(200)), "0");
    assert!(x.equals(&x.duplicate()));
    assert!(!x.equals(&x.sub_small(1)));
    assert_eq!(x.clone(), x);
    assert_eq!(show(&x.addm(&x, &big("1000000000000000000000"))), "926749214863536422912");
    assert_eq!(show(&x.subm(&x.add_small(1).unwrap(), &big("1000000000000000000000"))), "999999999999999999999");
    assert_eq!(200u8.add_small(56), None);
    assert_eq!(200u8.add_small(55), Some(255));
    assert_eq!(u128::MAX.add_small(1), None);
    assert_eq!(<u8 as PrimalityBase>::try_from_u64(256), None);
    assert_eq!(<u16 as PrimalityBase>::try_from_u64(256), Some(256));
    assert_eq!((1u128 << 64).as_u64(), None);
    assert_eq!(77u32.shift_right(3), 9);
    assert_eq!(77u32.shift_right(32), 0);
    assert_eq!(u64::MAX.shift_right(63), 1);
    assert_eq!(u64::MAX.shift_right(64), 0);
    assert_eq!(u128::MAX.shift_right(127), 1);
    assert_eq!(u128::MAX.shift_right(usize::MAX), 0);
}

#[test]
fn jacobi_of_a_prime_tells_the_quadratic_residues() {
    for &p in SMALL_PRIMES.iter().skip(1) {
        let p = p as u32;
        let mut residue = vec![false; p as usize];
        for x in 1..p {
            residue[((x * x) % p) as usize] = true;
        }
        for a in 0..p {
            let expected = if a == 0 {
                0
            } else if residue[a as usize] {
                1
            } else {
                -1
            };
            assert_eq!(a.jacobi(&p), expected, "a: {}, p: {}", a, p);
        }
    }
}

#[test]
fn factor_maps_have_at_most_fifteen_keys() {
    // the product of the first fifteen primes is the largest such product
    // below 2^64
    let m = factors64(614889782588491410);
    assert_eq!(m.len(), 15);
    let keys: Vec<u64> = m.keys().copied().collect();
    assert_eq!(keys, vec![2, 3, 5, 7, 11, 13, 17, 19, 23, 29, 31, 37, 41, 43, 47]);
    assert!(m.values().all(|&e| e == 1));
    for n in [1u64, 2, 30030, 9699690, 223092870, 6469693230, u64::MAX, u64::MAX - 1] {
        assert!(factors64(n).len() <= 15, "n: {}", n);
    }
}
