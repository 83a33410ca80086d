use num_prime::nt_funcs::{
    factors64, is_prime, is_safe_prime, moebius_mu, next_prime, prev_prime, primes,
};
use num_prime::primality::is_prime64;
use num_prime::tables::SMALL_PRIMES;
use rand::{prelude::SliceRandom, random};
use std::collections::BTreeMap;
use std::iter::FromIterator;

#[test]
fn is_prime64_test() {
    // test small primes
    for x in 2..100 {
        assert_eq!(SMALL_PRIMES.contains(&x), is_prime64(x as u64));
    }

    // some large primes
    assert!(is_prime64(6469693333));
    assert!(is_prime64(13756265695458089029));
    assert!(is_prime64(13496181268022124907));
    assert!(is_prime64(10953742525620032441));
    assert!(is_prime64(17908251027575790097));

    // primes from examples in Bradley Berg's hash method
    assert!(is_prime64(480194653));
    assert!(!is_prime64(20074069));
    assert!(is_prime64(8718775377449));
    assert!(is_prime64(3315293452192821991));
    assert!(!is_prime64(8651776913431));
    assert!(!is_prime64(1152965996591997761));

    // ensure no factor for 100 random primes
    let mut rng = rand::thread_rng();
    for _ in 0..100 {
        let x = random();
        if !is_prime64(x) {
            continue;
        }
        assert_ne!(x % (*SMALL_PRIMES.choose(&mut rng).unwrap() as u64), 0);
    }

    // create random composites
    for _ in 0..100 {
        let x = random::<u32>() as u64;
        let y = random::<u32>() as u64;
        assert!(!is_prime64(x * y));
    }
}

#[test]
fn factors64_test() {
    // some known cases
    let fac123456789 = BTreeMap::from_iter([(3, 2), (3803, 1), (3607, 1)]);
    let fac = factors64(123456789);
    assert_eq!(fac, fac123456789);

    let fac1_17 = BTreeMap::from_iter([(2071723, 1), (5363222357, 1)]);
    let fac = factors64(11111111111111111);
    assert_eq!(fac, fac1_17);

    // 100 random factorization tests
    for _ in 0..100 {
        let x = random();
        let fac = factors64(x);
        let mut prod = 1;
        for (p, exp) in fac {
            assert!(
                is_prime64(p),
                "factorization result should have prime factors! (get {})",
                p
            );
            prod *= p.pow(exp as u32);
        }
        assert_eq!(x, prod, "factorization check failed! ({} != {})", x, prod);
    }
}

#[test]
fn is_safe_prime_test() {
    // OEIS:A005385
    let safe_primes = [
        5u64, 7, 11, 23, 47, 59, 83, 107, 167, 179, 227, 263, 347, 359, 383, 467, 479, 503, 563,
        587, 719, 839, 863, 887, 983, 1019, 1187, 1283, 1307, 1319, 1367, 1439, 1487, 1523,
        1619, 1823, 1907,
    ];
    for p in primes(1500) {
        if p > 1500 {
            break;
        }
        assert_eq!(
            is_safe_prime(&p).probably(),
            safe_primes.iter().find(|&v| &p == v).is_some()
        );
    }
}

#[test]
fn moebius_mu_test() {
    // test small examples
    let mu20: [i8; 20] = [
        1, -1, -1, 0, -1, 1, -1, 0, 0, 1, -1, 0, -1, 1, 1, 0, -1, 0, -1, 0,
    ];
    for i in 0..20 {
        assert_eq!(moebius_mu(&(i as u64 + 1)), mu20[i], "moebius on {}", i);
    }

    // some square numbers
    assert_eq!(moebius_mu(&1024u32), 0);
    assert_eq!(moebius_mu(&(8081u32 * 8081)), 0);

    // sphenic numbers
    let sphenic3: [u8; 20] = [
        30, 42, 66, 70, 78, 102, 105, 110, 114, 130, 138, 154, 165, 170, 174, 182, 186, 190,
        195, 222,
    ]; // OEIS:A007304
    for i in 0..20 {
        assert_eq!(moebius_mu(&sphenic3[i]), -1i8, "moebius on {}", sphenic3[i]);
    }
    let sphenic5: [u16; 23] = [
        2310, 2730, 3570, 3990, 4290, 4830, 5610, 6006, 6090, 6270, 6510, 6630, 7410, 7590,
        7770, 7854, 8610, 8778, 8970, 9030, 9282, 9570, 9690,
    ]; // OEIS:A046387
    for i in 0..20 {
        assert_eq!(moebius_mu(&sphenic5[i]), -1i8, "moebius on {}", sphenic5[i]);
    }
}

#[test]
fn prev_next_test() {
    assert_eq!(prev_prime(&2u32, None), None);

    // OEIS:A077800
    let twine_primes: [(u32, u32); 8] = [
        (2, 3), // not exactly twine
        (3, 5),
        (5, 7),
        (11, 13),
        (17, 19),
        (29, 31),
        (41, 43),
        (617, 619),
    ];
    for (p1, p2) in twine_primes {
        assert_eq!(prev_prime(&p2, None).unwrap(), p1);
        assert_eq!(next_prime(&p1, None).unwrap(), p2);
    }

    let adj10_primes: [(u32, u32); 7] = [
        (7, 11),
        (97, 101),
        (997, 1009),
        (9973, 10007),
        (99991, 100003),
        (999983, 1000003),
        (9999991, 10000019),
    ];
    for (i, (p1, p2)) in adj10_primes.iter().enumerate() {
        assert_eq!(prev_prime(p2, None).unwrap(), *p1);
        assert_eq!(next_prime(p1, None).unwrap(), *p2);

        let pow = 10u32.pow((i + 1) as u32);
        assert_eq!(prev_prime(&pow, None).unwrap(), *p1);
        assert_eq!(next_prime(&pow, None).unwrap(), *p2);
    }
}

#[test]
fn is_prime_agrees_with_is_prime64() {
    for x in 0..2000u64 {
        assert_eq!(is_prime(&x, None).probably(), is_prime64(x));
    }
}
