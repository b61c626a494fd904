use urat::primes::Store;
use urat::Urat;

#[test]
fn tconv_basic() {
    let inps: [(u64, &[i8]); 6] = [
        (1, &[]),
        (2, &[1]),
        (3, &[0, 1]),
        (4, &[2]),
        (6, &[1, 1]),
        (u64::MAX / 2 + 1, &[63]),
    ];
    let mut store = Store::new();
    for (inp, tst) in inps {
        let r = Urat::from_u64(inp, &mut store).unwrap();
        assert_eq!(r, Urat::from_exponents(tst.to_vec()));
        assert_eq!(r.exponents(), tst);
    }
}

#[test]
fn default_is_one() {
    let d = Urat::default();
    let n = Urat::new();
    assert_eq!(d, n);
    assert!(d.exponents().is_empty());
}

#[test]
fn from_exponents_trims_trailing_zeros() {
    let a = Urat::from_exponents(vec![1, 2, 0, 0]);
    assert_eq!(a.exponents(), &[1, 2][..]);
    let b = Urat::from_exponents(vec![0, 0, 0]);
    assert_eq!(b, Urat::new());
}

#[test]
fn mul_adds_exponents() {
    let mut store = Store::new();
    let six = Urat::from_u64(6, &mut store).unwrap();
    let ten = Urat::from_u64(10, &mut store).unwrap();
    let sixty = six.mul(&ten);
    assert_eq!(sixty.exponents(), &[2, 1, 1][..]);
}

#[test]
fn mul_matches_conversion_of_product() {
    let mut store = Store::new();
    let pairs: [(u64, u64); 4] = [(2, 3), (4, 9), (12, 35), (1, 77)];
    for (x, y) in pairs {
        let a = Urat::from_u64(x, &mut store).unwrap();
        let b = Urat::from_u64(y, &mut store).unwrap();
        let ab = a.mul(&b);
        let c = Urat::from_u64(x * y, &mut store).unwrap();
        assert_eq!(ab, c);
    }
}

#[test]
fn mul_assign_in_place() {
    let mut store = Store::new();
    let mut a = Urat::from_u64(4, &mut store).unwrap();
    let b = Urat::from_u64(15, &mut store).unwrap();
    a.mul_assign(&b);
    assert_eq!(a, Urat::from_u64(60, &mut store).unwrap());
}

#[test]
fn div_by_self_is_one() {
    let mut store = Store::new();
    for n in [1u64, 2, 6, 97, 360, 1 << 40] {
        let a = Urat::from_u64(n, &mut store).unwrap();
        let b = a.clone();
        assert_eq!(a.div(&b), Urat::new());
    }
}

#[test]
fn div_assign_subtracts_exponents() {
    let mut store = Store::new();
    let mut a = Urat::from_u64(60, &mut store).unwrap();
    let b = Urat::from_u64(6, &mut store).unwrap();
    a.div_assign(&b);
    assert_eq!(a, Urat::from_u64(10, &mut store).unwrap());
}

#[test]
fn div_may_go_below_one() {
    let mut store = Store::new();
    let two = Urat::from_u64(2, &mut store).unwrap();
    let three = Urat::from_u64(3, &mut store).unwrap();
    let r = two.div(&three);
    assert_eq!(r.exponents(), &[1, -1][..]);
}

#[test]
fn pow_zero_is_one() {
    let mut store = Store::new();
    for n in [1u64, 2, 6, 97, 360] {
        let a = Urat::from_u64(n, &mut store).unwrap();
        assert_eq!(a.pow(0), Urat::new());
    }
}

#[test]
fn pow_scales_exponents() {
    let mut store = Store::new();
    let six = Urat::from_u64(6, &mut store).unwrap();
    assert_eq!(six.pow(2), Urat::from_u64(36, &mut store).unwrap());
    let two = Urat::from_u64(2, &mut store).unwrap();
    assert_eq!(two.pow(5), Urat::from_u64(32, &mut store).unwrap());
}

#[test]
fn prime_converts_to_unit_vector() {
    let mut store = Store::new();
    for i in 0..25usize {
        let p = store.get_at(i).unwrap();
        let u = Urat::from_u64(p, &mut store).unwrap();
        let e = u.exponents().to_vec();
        assert_eq!(e.len(), i + 1);
        assert_eq!(e[i], 1);
        assert!(e[..i].iter().all(|&x| x == 0));
    }
}

#[test]
fn always_reduced() {
    let mut store = Store::new();
    for i in 1u64..2_000 {
        let mut r = Urat::from_u64(i, &mut store).unwrap();
        let r2 = r.clone();
        r.reduce();
        assert_eq!(r, r2);
    }
}

#[test]
fn exponents_round_trip() {
    let mut store = Store::new();
    for n in [1u64, 2, 42, 97, 4096, 510510] {
        let a = Urat::from_u64(n, &mut store).unwrap();
        let b = Urat::from_exponents(a.exponents().to_vec());
        assert_eq!(a, b);
    }
}

#[test]
fn equality_is_by_exponents() {
    let mut store = Store::new();
    let a = Urat::from_u64(6, &mut store).unwrap();
    let b = Urat::from_u64(6, &mut store).unwrap();
    let c = Urat::from_u64(4, &mut store).unwrap();
    assert_eq!(a, b);
    assert_ne!(a, c);
}

#[test]
fn exponent_near_the_element_maximum() {
    let mut store = Store::new();
    let big = Urat::from_u64(1u64 << 63, &mut store).unwrap();
    let big2 = big.clone();
    let sq = big.mul(&big2);
    assert_eq!(sq.exponents(), &[126][..]);
}

#[test]
fn from_one_leaves_store_alone() {
    let mut store = Store::new();
    let before = store.get().to_vec();
    let r = Urat::from_u64(1, &mut store).unwrap();
    assert!(r.exponents().is_empty());
    assert_eq!(store.get(), &before[..]);
}
