use urat::primes::{iter, Store};

#[test]
fn primes1000() {
    // we don't want this test to hide regressions in error handling in
    // other parts of the code
    let mut ps = Store::new();
    (0..10_000).for_each(|_| ps.find_next().unwrap());
    let v = ps.get().to_vec();
    for (n, i) in v.iter().enumerate().skip(1) {
        for j in &v[..n] {
            if i % j == 0 {
                panic!("corruption found {} @ {} % {}", n, i, j);
            }
        }
    }
}

#[test]
fn seed_is_primes_below_100() {
    let s = Store::new();
    let expected: [u64; 25] = [
        2, 3, 5, 7, 11, 13, 17, 19, 23, 29, 31, 37, 41, 43, 47, 53, 59, 61, 67, 71, 73, 79, 83,
        89, 97,
    ];
    assert_eq!(s.get(), &expected[..]);
}

#[test]
fn find_next_appends_next_prime() {
    let mut s = Store::new();
    s.find_next().unwrap();
    assert_eq!(*s.get().last().unwrap(), 101);
    s.find_next().unwrap();
    assert_eq!(*s.get().last().unwrap(), 103);
}

#[test]
fn get_at_extends_on_demand() {
    let mut s = Store::new();
    assert_eq!(s.get_at(0).unwrap(), 2);
    assert_eq!(s.get_at(24).unwrap(), 97);
    assert_eq!(s.get_at(25).unwrap(), 101);
    assert_eq!(s.get_at(29).unwrap(), 113);
    assert!(s.get().len() >= 30);
}

#[test]
fn iter_yields_primes_in_order() {
    let mut s = Store::new();
    let mut it = iter();
    let head: [u64; 6] = [2, 3, 5, 7, 11, 13];
    for p in head {
        assert_eq!(it.next(&mut s).unwrap(), p);
    }
}

#[test]
fn iter_restarts_from_first_position() {
    let mut s = Store::new();
    let mut it = iter();
    assert_eq!(it.next(&mut s).unwrap(), 2);
    assert_eq!(it.next(&mut s).unwrap(), 3);
    let mut it2 = iter();
    assert_eq!(it2.next(&mut s).unwrap(), 2);
}

#[test]
fn iter_extends_store_past_cache() {
    let mut s = Store::new();
    let mut it = iter();
    let mut last = 0u64;
    for _ in 0..30 {
        last = it.next(&mut s).unwrap();
    }
    assert_eq!(last, 113);
    assert!(s.get().len() >= 30);
}

#[test]
fn get_at_cached_does_not_extend() {
    let mut s = Store::new();
    let before = s.get().len();
    assert_eq!(s.get_at(3).unwrap(), 7);
    assert_eq!(s.get().len(), before);
}
