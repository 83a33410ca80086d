use num_bigint::{BigUint, RandBigInt};
use num_prime::bigint::BigNat;
use num_prime::traits::ModInt;

fn big(x: &BigUint) -> BigNat {
    BigNat::from_digits(x.to_u32_digits()).unwrap()
}

fn small(x: u64) -> BigNat {
    BigNat::from_u64(x)
}

fn back(x: &BigNat) -> BigUint {
    BigUint::from_slice(x.digits())
}

#[test]
fn biguint_basic_mod_test() {
    let mut rng = rand::thread_rng();
    let a = rng.gen_biguint(500);
    let ra = &a;
    let m = rng.gen_biguint(500);
    let rm = &m;
    assert_eq!(back(&big(ra).addm(&big(ra), &big(rm))), (ra + ra) % rm);
    assert_eq!(back(&big(ra).mulm(&big(ra), &big(rm))), (ra * ra) % rm);
    assert_eq!(
        back(&big(ra).powm(&big(&BigUint::from(3u8)), &big(rm))),
        ra.pow(3) % rm
    );
}

#[test]
fn u64_basic_mod_test() {
    let a = rand::random::<u64>() % 100000;
    let m = rand::random::<u64>() % 100000;
    assert_eq!(a.addm(&a, &m), (a + a) % m);
    assert_eq!(a.mulm(&a, &m), (a * a) % m);
    assert_eq!(a.powm(&3, &m), a.pow(3) % m);
}

#[test]
fn addm_test() {
    let m = 5u8;

    let test_cases: [(u8, u8, u8); 10] = [
        // [x, y, rem]: x + y = rem (mod m)
        (0, 0, 0),
        (1, 2, 3),
        (2, 1, 3),
        (2, 2, 4),
        (3, 2, 0),
        (2, 3, 0),
        (6, 1, 2),
        (1, 6, 2),
        (11, 7, 3),
        (7, 11, 3),
    ];

    for (x, y, r) in test_cases.iter() {
        assert_eq!(x.addm(y, &m), *r, "u8 x: {}, y: {}", x, y);
        assert_eq!((*x as u16).addm(&(*y as u16), &(m as u16)), *r as u16, "u16 x: {}, y: {}", x, y);
        assert_eq!((*x as u32).addm(&(*y as u32), &(m as u32)), *r as u32, "u32 x: {}, y: {}", x, y);
        assert_eq!((*x as u64).addm(&(*y as u64), &(m as u64)), *r as u64, "u64 x: {}, y: {}", x, y);
        assert_eq!((*x as u128).addm(&(*y as u128), &(m as u128)), *r as u128, "u128 x: {}, y: {}", x, y);
        assert_eq!(back(&small(*x as u64).addm(&small(*y as u64), &small(m as u64))), BigUint::from(*r), "biguint x: {}, y: {}", x, y);
    }
}

#[test]
fn subm_test() {
    let m = 7u8;

    let test_cases: [(u8, u8, u8); 10] = [
        // [x, y, rem]: x - y = rem (mod modu)
        (0, 0, 0),
        (11, 9, 2),
        (5, 2, 3),
        (2, 5, 4),
        (6, 7, 6),
        (1, 7, 1),
        (7, 1, 6),
        (0, 6, 1),
        (15, 1, 0),
        (1, 15, 0),
    ];

    for (x, y, r) in test_cases.iter() {
        assert_eq!(x.subm(y, &m), *r, "u8 x: {}, y: {}", x, y);
        assert_eq!((*x as u16).subm(&(*y as u16), &(m as u16)), *r as u16, "u16 x: {}, y: {}", x, y);
        assert_eq!((*x as u32).subm(&(*y as u32), &(m as u32)), *r as u32, "u32 x: {}, y: {}", x, y);
        assert_eq!((*x as u64).subm(&(*y as u64), &(m as u64)), *r as u64, "u64 x: {}, y: {}", x, y);
        assert_eq!((*x as u128).subm(&(*y as u128), &(m as u128)), *r as u128, "u128 x: {}, y: {}", x, y);
        assert_eq!(back(&small(*x as u64).subm(&small(*y as u64), &small(m as u64))), BigUint::from(*r), "biguint x: {}, y: {}", x, y);
    }
}

#[test]
fn invm_test() {
    let test_cases: [(u64, u64, u64); 8] = [
        // [a, m, x] s.t. a*x = 1 (mod m) is satisfied
        (5, 11, 9),
        (8, 11, 7),
        (10, 11, 10),
        (3, 5000, 1667),
        (1667, 5000, 3),
        (999, 5000, 3999),
        (999, 9_223_372_036_854_775_807, 3_619_181_019_466_538_655),
        (
            9_223_372_036_854_775_804,
            9_223_372_036_854_775_807,
            3_074_457_345_618_258_602,
        ),
    ];

    for (a, m, x) in test_cases.iter() {
        assert_eq!(a.invm(m).unwrap(), *x, "a: {}, m: {}", a, m);
        assert_eq!(back(&small(*a).invm(&small(*m)).unwrap()), BigUint::from(*x), "a: {}, m: {}", a, m);
    }
}

#[test]
fn jacobi_test() {
    let test_cases: [(u8, u8, i8); 15] = [
        (1, 1, 1),
        (15, 1, 1),
        (2, 3, -1),
        (29, 9, 1),
        (4, 11, 1),
        (17, 11, -1),
        (19, 29, -1),
        (10, 33, -1),
        (11, 33, 0),
        (12, 33, 0),
        (14, 33, -1),
        (15, 33, 0),
        (15, 37, -1),
        (29, 59, 1),
        (30, 59, -1),
    ];

    for (a, n, res) in test_cases.iter() {
        assert_eq!(a.jacobi(n), *res, "u8 a: {}, n: {}", a, n);
        assert_eq!((*a as u16).jacobi(&(*n as u16)), *res, "u16 a: {}, n: {}", a, n);
        assert_eq!((*a as u32).jacobi(&(*n as u32)), *res, "u32 a: {}, n: {}", a, n);
        assert_eq!((*a as u64).jacobi(&(*n as u64)), *res, "u64 a: {}, n: {}", a, n);
        assert_eq!((*a as u128).jacobi(&(*n as u128)), *res, "u128 a: {}, n: {}", a, n);
        assert_eq!(small(*a as u64).jacobi(&small(*n as u64)), *res, "u32 a: {}, n: {}", a, n);
    }
}
