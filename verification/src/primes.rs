//! The prime store: an ordered, gapless, ever-growing sequence of primes,
//! extended on demand by trial division.

use vstd::prelude::*;

verus! {

use vstd::arithmetic::div_mod::lemma_fundamental_div_mod;
use vstd::arithmetic::div_mod::lemma_mod_multiples_basic;
use vstd::arithmetic::mul::lemma_mul_is_commutative;
use vstd::arithmetic::mul::lemma_mul_is_associative;

/// `p` is prime: at least 2, with no divisor strictly between 1 and `p`.
pub open spec fn is_prime(p: int) -> bool {
    p >= 2 && forall|d: int| 2 <= d < p ==> #[trigger] (p % d) != 0
}

/// No prime lies in the half-open interval `(lo, hi]`.
pub open spec fn no_prime_in(lo: int, hi: int) -> bool {
    forall|q: int| lo < q <= hi ==> !is_prime(q)
}

/// How far a single extension scans for the next prime after `last` before
/// giving up: trial division against the stored primes is conclusive only up
/// to `last * last`, and candidates must stay below the largest representable
/// value.
pub open spec fn scan_cap(last: int) -> int {
    if last * last - 2 <= u64::MAX - 3 {
        last * last - 2
    } else {
        u64::MAX - 3
    }
}

/// Divisibility carries over: if `a` divides `b` and `b` divides `c`, then
/// `a` divides `c`.
pub(crate) proof fn lemma_divides_transitive(a: int, b: int, c: int)
    requires
        a >= 1,
        b >= 1,
        b % a == 0,
        c % b == 0,
    ensures
        c % a == 0,
{
    lemma_fundamental_div_mod(b, a);
    lemma_fundamental_div_mod(c, b);
    let kb = b / a;
    let kc = c / b;
    assert(c == a * (kb * kc)) by {
        lemma_mul_is_associative(a, kb, kc);
    }
    assert((a * (kb * kc)) % a == 0) by {
        lemma_mul_is_commutative(a, kb * kc);
        lemma_mod_multiples_basic(kb * kc, a);
    }
}

/// Every integer of at least 2 has a prime divisor no larger than itself.
pub(crate) proof fn lemma_has_prime_factor(n: int)
    requires
        n >= 2,
    ensures
        exists|p: int| is_prime(p) && p <= n && #[trigger] (n % p) == 0,
    decreases n,
{
    if is_prime(n) {
        vstd::arithmetic::div_mod::lemma_mod_self_0(n);
        assert(is_prime(n) && n <= n && n % n == 0);
    } else {
        let d = choose|d: int| 2 <= d < n && #[trigger] (n % d) == 0;
        lemma_has_prime_factor(d);
        let p = choose|p: int| is_prime(p) && p <= d && #[trigger] (d % p) == 0;
        lemma_divides_transitive(p, d, n);
        assert(is_prime(p) && p <= n && n % p == 0);
    }
}

/// `g` is a common divisor of `a` and `b` and a linear combination of them.
spec fn common_linear_divisor(a: int, b: int, g: int, x: int, y: int) -> bool {
    &&& g >= 1
    &&& a % g == 0
    &&& b % g == 0
    &&& g == a * x + b * y
}

/// Bezout's identity: some common divisor of `a` and `b` is a linear
/// combination of them.
proof fn lemma_bezout(a: int, b: int)
    requires
        a >= 1,
        b >= 0,
    ensures
        exists|g: int, x: int, y: int| #[trigger] common_linear_divisor(a, b, g, x, y),
    decreases b,
{
    if b == 0 {
        vstd::arithmetic::div_mod::lemma_mod_self_0(a);
        vstd::arithmetic::div_mod::lemma_small_mod(0, a as nat);
        assert(common_linear_divisor(a, b, a, 1, 0));
    } else {
        vstd::arithmetic::div_mod::lemma_mod_division_less_than_divisor(a, b);
        lemma_bezout(b, a % b);
        let (g, x, y) = choose|g: int, x: int, y: int|
            #[trigger] common_linear_divisor(b, a % b, g, x, y);
        let q = a / b;
        lemma_fundamental_div_mod(a, b);
        lemma_fundamental_div_mod(b, g);
        lemma_fundamental_div_mod(a % b, g);
        let qb = b / g;
        let qr = (a % b) / g;
        assert(a == g * (qb * q + qr)) by (nonlinear_arith)
            requires
                a == b * q + (a % b),
                b == g * qb,
                a % b == g * qr,
        ;
        assert(a % g == 0) by {
            lemma_mul_is_commutative(g, qb * q + qr);
            lemma_mod_multiples_basic(qb * q + qr, g);
        }
        assert(g == a * y + b * (x - q * y)) by (nonlinear_arith)
            requires
                g == b * x + (a % b) * y,
                a % b == a - b * q,
        ;
        assert(common_linear_divisor(a, b, g, y, x - q * y));
    }
}

/// A divisor of at least 1 of a prime is 1 or the prime itself.
proof fn lemma_divisor_of_prime(p: int, g: int)
    requires
        is_prime(p),
        g >= 1,
        p % g == 0,
    ensures
        g == 1 || g == p,
{
    if g > p {
        vstd::arithmetic::div_mod::lemma_small_mod(p as nat, g as nat);
    }
    if 2 <= g < p {
        assert(p % g != 0);
    }
}

/// Euclid's lemma: a prime dividing a product divides one of the factors.
pub(crate) proof fn lemma_euclid(p: int, a: int, b: int)
    requires
        is_prime(p),
        a >= 1,
        b >= 1,
        (a * b) % p == 0,
    ensures
        a % p == 0 || b % p == 0,
{
    if a % p != 0 {
        lemma_bezout(p, a);
        let (g, x, y) = choose|g: int, x: int, y: int|
            #[trigger] common_linear_divisor(p, a, g, x, y);
        lemma_divisor_of_prime(p, g);
        assert(g == 1);
        lemma_fundamental_div_mod(a * b, p);
        let k = (a * b) / p;
        assert(b == p * (x * b + k * y)) by (nonlinear_arith)
            requires
                1 == p * x + a * y,
                a * b == p * k,
        ;
        assert(b % p == 0) by {
            lemma_mul_is_commutative(p, x * b + k * y);
            lemma_mod_multiples_basic(x * b + k * y, p);
        }
    }
}

/// A composite number has a divisor of at least 2 whose square does not
/// exceed it.
proof fn lemma_composite_has_small_divisor(n: int)
    requires
        n >= 2,
        !is_prime(n),
    ensures
        exists|d: int| 2 <= d && d * d <= n && #[trigger] (n % d) == 0,
{
    let d = choose|d: int| 2 <= d < n && #[trigger] (n % d) == 0;
    lemma_fundamental_div_mod(n, d);
    let e = n / d;
    assert(n == d * e);
    assert(e >= 1) by (nonlinear_arith)
        requires
            n == d * e,
            n >= 2,
            d >= 2,
    ;
    if e == 1 {
        assert(n == d) by (nonlinear_arith)
            requires
                n == d * e,
                e == 1,
        ;
        assert(false);
    }
    if d * d <= n {
        assert(2 <= d && d * d <= n && n % d == 0);
    } else {
        assert(e < d && e * e < n) by (nonlinear_arith)
            requires
                n == d * e,
                d * d > n,
                d >= 2,
                e >= 2,
        ;
        assert(n % e == 0) by {
            lemma_mod_multiples_basic(d, e);
        }
        assert(2 <= e && e * e <= n && n % e == 0);
    }
}

/// A composite number has a prime divisor whose square does not exceed it:
/// the contrapositive justifies trial division up to the square root.
proof fn lemma_composite_has_small_prime_factor(n: int)
    requires
        n >= 2,
        !is_prime(n),
    ensures
        exists|p: int| is_prime(p) && p * p <= n && #[trigger] (n % p) == 0,
{
    lemma_composite_has_small_divisor(n);
    let d = choose|d: int| 2 <= d && d * d <= n && #[trigger] (n % d) == 0;
    lemma_has_prime_factor(d);
    let p = choose|p: int| is_prime(p) && p <= d && #[trigger] (d % p) == 0;
    lemma_divides_transitive(p, d, n);
    assert(p * p <= d * d) by (nonlinear_arith)
        requires
            2 <= p,
            p <= d,
    ;
    assert(is_prime(p) && p * p <= n && n % p == 0);
}

/// An even number above 2 is not prime.
proof fn lemma_even_not_prime(q: int)
    requires
        q > 2,
        q % 2 == 0,
    ensures
        !is_prime(q),
{
    assert(2 <= 2 < q && q % 2 == 0);
}

/// A prime above 2 is odd.
proof fn lemma_prime_odd(p: int)
    requires
        is_prime(p),
        p > 2,
    ensures
        p % 2 == 1,
{
    if p % 2 == 0 {
        lemma_even_not_prime(p);
    }
    assert(0 <= p % 2 < 2) by {
        vstd::arithmetic::div_mod::lemma_mod_division_less_than_divisor(p, 2);
    }
}

/// A number with a proper divisor above 1 is not prime.
proof fn lemma_not_prime_by_factor(q: int, d: int)
    requires
        2 <= d < q,
        q % d == 0,
    ensures
        !is_prime(q),
{
}

/// A composite below 121 has a prime factor of at most 10, so trial
/// division by 2, 3, 5 and 7 proves primality there.
proof fn lemma_prime_by_trial(q: int)
    requires
        2 <= q < 121,
        q % 2 != 0,
        q % 3 != 0,
        q % 5 != 0,
        q % 7 != 0,
    ensures
        is_prime(q),
{
    if !is_prime(q) {
        lemma_composite_has_small_prime_factor(q);
        let p = choose|p: int| is_prime(p) && p * p <= q && #[trigger] (q % p) == 0;
        assert(p <= 10) by (nonlinear_arith)
            requires
                p * p <= q,
                q < 121,
                p >= 2,
        ;
        assert(4int % 2 == 0);
        assert(6int % 2 == 0);
        assert(8int % 2 == 0);
        assert(9int % 3 == 0);
        assert(10int % 2 == 0);
        assert(!is_prime(4) && !is_prime(6) && !is_prime(8) && !is_prime(9) && !is_prime(10));
        assert(p == 2 || p == 3 || p == 5 || p == 7);
        assert(false);
    }
}

/// 2, 3, 5 and 7 are prime: a composite among them would need a prime
/// factor whose square is at most 7.
proof fn lemma_prime_single_digit(q: int)
    requires
        q == 2 || q == 3 || q == 5 || q == 7,
    ensures
        is_prime(q),
{
    if !is_prime(q) {
        lemma_composite_has_small_prime_factor(q);
        let p = choose|p: int| is_prime(p) && p * p <= q && #[trigger] (q % p) == 0;
        assert(p == 2) by (nonlinear_arith)
            requires
                p * p <= q,
                q <= 7,
                p >= 2,
        ;
        assert(3int % 2 == 1 && 5int % 2 == 1 && 7int % 2 == 1);
        assert(false);
    }
}

/// No prime lies in `(lo, hi]` when 2, 3, 5 or 7 properly divides every
/// number there.
proof fn lemma_gap_composite(lo: int, hi: int)
    requires
        forall|x: int|
            lo < x <= hi ==> (#[trigger] (x % 2) == 0 && x > 2) || (x % 3 == 0 && x > 3) || (x % 5
                == 0 && x > 5) || (x % 7 == 0 && x > 7),
    ensures
        no_prime_in(lo, hi),
{
    assert forall|x: int| lo < x <= hi implies !is_prime(x) by {
        if x % 2 == 0 && x > 2 {
            lemma_even_not_prime(x);
        } else if x % 3 == 0 && x > 3 {
            lemma_not_prime_by_factor(x, 3);
        } else if x % 5 == 0 && x > 5 {
            lemma_not_prime_by_factor(x, 5);
        } else {
            lemma_not_prime_by_factor(x, 7);
        }
    }
}

/// The primes below 100: the store's fixed seed list.
pub open spec fn seed_primes() -> Seq<u64> {
    seq![
        2u64, 3, 5, 7, 11, 13, 17, 19, 23, 29, 31, 37, 41, 43, 47, 53, 59, 61, 67, 71, 73, 79,
        83, 89, 97,
    ]
}

/// Walking the seed list: each entry after the first two is the next prime
/// after its predecessor, and it lies within the predecessor's scan window.
proof fn lemma_seed_step(l: int)
    requires
        2 <= l < 25,
    ensures
        ({
            let sp = seed_primes();
            &&& is_prime(sp[l] as int)
            &&& sp[l - 1] < sp[l]
            &&& sp[l] as int <= scan_cap(sp[l - 1] as int)
            &&& no_prime_in(sp[l - 1] as int, sp[l] as int - 1)
        }),
{
    if l == 2 {
        assert(seed_primes()[1] == 3 && seed_primes()[2] == 5);
        lemma_prime_single_digit(5);
        lemma_gap_composite(3, 4);
    } else if l == 3 {
        assert(seed_primes()[2] == 5 && seed_primes()[3] == 7);
        lemma_prime_single_digit(7);
        lemma_gap_composite(5, 6);
    } else if l == 4 {
        assert(seed_primes()[3] == 7 && seed_primes()[4] == 11);
        lemma_prime_by_trial(11);
        lemma_gap_composite(7, 10);
    } else if l == 5 {
        assert(seed_primes()[4] == 11 && seed_primes()[5] == 13);
        lemma_prime_by_trial(13);
        lemma_gap_composite(11, 12);
    } else if l == 6 {
        assert(seed_primes()[5] == 13 && seed_primes()[6] == 17);
        lemma_prime_by_trial(17);
        lemma_gap_composite(13, 16);
    } else if l == 7 {
        assert(seed_primes()[6] == 17 && seed_primes()[7] == 19);
        lemma_prime_by_trial(19);
        lemma_gap_composite(17, 18);
    } else if l == 8 {
        assert(seed_primes()[7] == 19 && seed_primes()[8] == 23);
        lemma_prime_by_trial(23);
        lemma_gap_composite(19, 22);
    } else if l == 9 {
        assert(seed_primes()[8] == 23 && seed_primes()[9] == 29);
        lemma_prime_by_trial(29);
        lemma_gap_composite(23, 28);
    } else if l == 10 {
        assert(seed_primes()[9] == 29 && seed_primes()[10] == 31);
        lemma_prime_by_trial(31);
        lemma_gap_composite(29, 30);
    } else if l == 11 {
        assert(seed_primes()[10] == 31 && seed_primes()[11] == 37);
        lemma_prime_by_trial(37);
        lemma_gap_composite(31, 36);
    } else if l == 12 {
        assert(seed_primes()[11] == 37 && seed_primes()[12] == 41);
        lemma_prime_by_trial(41);
        lemma_gap_composite(37, 40);
    } else if l == 13 {
        assert(seed_primes()[12] == 41 && seed_primes()[13] == 43);
        lemma_prime_by_trial(43);
        lemma_gap_composite(41, 42);
    } else if l == 14 {
        assert(seed_primes()[13] == 43 && seed_primes()[14] == 47);
        lemma_prime_by_trial(47);
        lemma_gap_composite(43, 46);
    } else if l == 15 {
        assert(seed_primes()[14] == 47 && seed_primes()[15] == 53);
        lemma_prime_by_trial(53);
        lemma_gap_composite(47, 52);
    } else if l == 16 {
        assert(seed_primes()[15] == 53 && seed_primes()[16] == 59);
        lemma_prime_by_trial(59);
        lemma_gap_composite(53, 58);
    } else if l == 17 {
        assert(seed_primes()[16] == 59 && seed_primes()[17] == 61);
        lemma_prime_by_trial(61);
        lemma_gap_composite(59, 60);
    } else if l == 18 {
        assert(seed_primes()[17] == 61 && seed_primes()[18] == 67);
        lemma_prime_by_trial(67);
        lemma_gap_composite(61, 66);
    } else if l == 19 {
        assert(seed_primes()[18] == 67 && seed_primes()[19] == 71);
        lemma_prime_by_trial(71);
        lemma_gap_composite(67, 70);
    } else if l == 20 {
        assert(seed_primes()[19] == 71 && seed_primes()[20] == 73);
        lemma_prime_by_trial(73);
        lemma_gap_composite(71, 72);
    } else if l == 21 {
        assert(seed_primes()[20] == 73 && seed_primes()[21] == 79);
        lemma_prime_by_trial(79);
        lemma_gap_composite(73, 78);
    } else if l == 22 {
        assert(seed_primes()[21] == 79 && seed_primes()[22] == 83);
        lemma_prime_by_trial(83);
        lemma_gap_composite(79, 82);
    } else if l == 23 {
        assert(seed_primes()[22] == 83 && seed_primes()[23] == 89);
        lemma_prime_by_trial(89);
        lemma_gap_composite(83, 88);
    } else {
        assert(seed_primes()[23] == 89 && seed_primes()[24] == 97);
        lemma_prime_by_trial(97);
        lemma_gap_composite(89, 96);
    }
}

/// The store could not represent or certify a further prime; the sequence
/// was left as it stood.
#[derive(Clone, Copy, Debug, PartialEq, Eq, Structural)]
pub struct PrimesExhausted;

/// An ordered, deduplicated, gapless cache of primes, growing on demand.
#[derive(Clone)]
pub struct Store {
    inner: Vec<u64>,
}

impl View for Store {
    type V = Seq<u64>;

    closed spec fn view(&self) -> Seq<u64> {
        self.inner@
    }
}

impl Store {
    /// The store holds, in increasing order, every prime up to its current
    /// maximum, starting with 2 and 3.
    pub open spec fn wf(&self) -> bool {
        &&& self@.len() >= 2
        &&& self@[0] == 2
        &&& forall|i: int| 0 <= i < self@.len() ==> is_prime(#[trigger] self@[i] as int)
        &&& forall|i: int, j: int|
            0 <= i < j < self@.len() ==> #[trigger] self@[i] < #[trigger] self@[j]
        &&& forall|q: int|
            2 <= q <= self@.last() && #[trigger] is_prime(q) ==> exists|i: int|
                0 <= i < self@.len() && self@[i] == q
    }

    /// A new store, seeded with exactly the primes below 100.
    pub fn new() -> (s: Store)
        ensures
            s.wf(),
            s@ == seed_primes(),
            s@.len() == 25,
    {
        let mut inner: Vec<u64> = Vec::new();
        inner.push(2);
        inner.push(3);
        let mut s = Store { inner };
        proof {
            assert(is_prime(2));
            assert(is_prime(3)) by {
                assert(3int % 2 == 1);
                assert(forall|d: int| 2 <= d < 3 ==> #[trigger] (3int % d) != 0);
            }
            assert(s@[0] == 2 && s@[1] == 3);
            assert forall|q: int| 2 <= q <= s@.last() && #[trigger] is_prime(q) implies exists|
                i: int,
            | 0 <= i < s@.len() && s@[i] == q by {
                if q == 2 {
                    assert(s@[0] == q);
                } else {
                    assert(s@[1] == q);
                }
            }
            assert(s@ =~= seed_primes().take(2));
        }
        while s.inner.len() < 25
            invariant
                s.wf(),
                2 <= s@.len() <= 25,
                s@ == seed_primes().take(s@.len() as int),
            decreases 25 - s.inner.len(),
        {
            let ghost l: int = s@.len() as int;
            let ghost pre = s@;
            proof {
                lemma_seed_step(l);
            }
            let r = s.find_next();
            proof {
                let sp = seed_primes();
                assert(pre.last() == sp[l - 1]);
                if r is Err {
                    // the seed's next prime lies inside the scan window, so
                    // the scan cannot have come up empty
                    assert(no_prime_in(sp[l - 1] as int, scan_cap(sp[l - 1] as int)));
                    assert(is_prime(sp[l] as int));
                    assert(false);
                }
                let t = s@.last();
                if (t as int) < sp[l] as int {
                    assert(sp[l - 1] < t && t as int <= sp[l] as int - 1);
                    assert(!is_prime(t as int));
                    assert(false);
                }
                if (t as int) > sp[l] as int {
                    assert(pre.last() < sp[l] && sp[l] as int <= t as int - 1);
                    assert(!is_prime(sp[l] as int));
                    assert(false);
                }
                assert(t == sp[l]);
                assert(s@ =~= sp.take(l + 1));
            }
        }
        proof {
            assert(seed_primes().take(25) =~= seed_primes());
        }
        s
    }

    /// The currently cached primes, without extending the store.
    pub fn get(&self) -> (r: &[u64])
        ensures
            r@ == self@,
    {
        self.inner.as_slice()
    }

    /// True when some stored prime whose square does not exceed `t`
    /// divides `t`.
    fn has_small_factor(&self, t: u64) -> (r: bool)
        requires
            self.wf(),
        ensures
            r == exists|i: int|
                0 <= i < self@.len() && (self@[i] as int) * (self@[i] as int) <= t
                    && #[trigger] (t as int % (self@[i] as int)) == 0,
    {
        let ghost v = self@;
        let mut idx: usize = 0;
        while idx < self.inner.len()
            invariant
                self.wf(),
                v == self@,
                0 <= idx <= self@.len(),
                forall|j: int|
                    0 <= j < idx ==> !((self@[j] as int) * (self@[j] as int) <= t
                        && #[trigger] (t as int % (self@[j] as int)) == 0),
            decreases self@.len() - idx,
        {
            let p = self.inner[idx];
            proof {
                assert((p as u128) * (p as u128) <= u128::MAX) by (nonlinear_arith)
                    requires
                        p <= u64::MAX,
                ;
            }
            if (p as u128) * (p as u128) > (t as u128) {
                proof {
                    assert forall|j: int|
                        0 <= j < self@.len() && (self@[j] as int) * (self@[j] as int) <= t implies !(
                    #[trigger] (t as int % (self@[j] as int)) == 0 && (self@[j] as int) * (
                    self@[j] as int) <= t) || j < idx by {
                        if j >= idx {
                            assert(self@[j] >= p) by {
                                if j > idx {
                                    assert(self@[idx as int] < self@[j]);
                                }
                            }
                            assert((p as int) * (p as int) <= (self@[j] as int) * (
                            self@[j] as int)) by (nonlinear_arith)
                                requires
                                    0 < p <= self@[j] as int,
                            ;
                        }
                    }
                }
                return false;
            }
            if t % p == 0 {
                return true;
            }
            idx = idx + 1;
        }
        false
    }

    /// Appends the least prime greater than the current maximum, found by
    /// trial division of odd candidates against the stored primes. Fails,
    /// leaving the store unchanged, only if no candidate up to the scan cap
    /// is prime — which never happens for any scan that completes in
    /// realistic time.
    pub fn find_next(&mut self) -> (r: Result<(), PrimesExhausted>)
        requires
            old(self).wf(),
        ensures
            final(self).wf(),
            r is Ok ==> {
                &&& final(self)@ == old(self)@.push(final(self)@.last())
                &&& final(self)@.last() > old(self)@.last()
                &&& is_prime(final(self)@.last() as int)
                &&& no_prime_in(old(self)@.last() as int, final(self)@.last() as int - 1)
            },
            r is Err ==> {
                &&& final(self)@ == old(self)@
                &&& no_prime_in(final(self)@.last() as int, scan_cap(final(self)@.last() as int))
            },
    {
        let last: u64 = self.inner[self.inner.len() - 1];
        proof {
            assert(self@.last() == last);
            assert(self@[0] < self@[self@.len() - 1]);
            lemma_prime_odd(last as int);
        }
        let mut t: u64 = last;
        loop
            invariant_except_break
                no_prime_in(last as int, t as int),
            invariant
                self.wf(),
                self@ == old(self)@,
                last == self@.last(),
                last >= 3,
                t >= last,
                t % 2 == 1,
            ensures
                self.wf(),
                self@ == old(self)@,
                last == self@.last(),
                t > last,
                is_prime(t as int),
                no_prime_in(last as int, t as int - 1),
            decreases u64::MAX - t,
        {
            if t > u64::MAX - 3 {
                proof {
                    assert(no_prime_in(last as int, scan_cap(last as int)));
                }
                return Err(PrimesExhausted);
            }
            let cand = t + 2;
            proof {
                assert((last as u128) * (last as u128) <= u128::MAX) by (nonlinear_arith)
                    requires
                        last <= u64::MAX,
                ;
            }
            if (cand as u128) > (last as u128) * (last as u128) {
                proof {
                    assert(t as int >= last * last - 2);
                    assert(no_prime_in(last as int, scan_cap(last as int)));
                }
                return Err(PrimesExhausted);
            }
            proof {
                // the even number between the previous and the current
                // candidate is not prime
                lemma_even_not_prime(t as int + 1);
            }
            let found = self.has_small_factor(cand);
            t = cand;
            if !found {
                proof {
                    if !is_prime(t as int) {
                        lemma_composite_has_small_prime_factor(t as int);
                        let p = choose|p: int|
                            is_prime(p) && p * p <= t as int && #[trigger] (t as int % p) == 0;
                        assert(p <= last) by (nonlinear_arith)
                            requires
                                p * p <= t as int,
                                t as int <= last * last,
                                p >= 2,
                                last >= 3,
                        ;
                        let i = choose|i: int| 0 <= i < self@.len() && self@[i] == p;
                        assert((self@[i] as int) * (self@[i] as int) <= t && t as int % (
                        self@[i] as int) == 0);
                        assert(false);
                    }
                }
                break;
            }
            proof {
                // the rejected candidate has a stored prime as a proper
                // divisor, so it is composite
                let i = choose|i: int|
                    0 <= i < self@.len() && (self@[i] as int) * (self@[i] as int) <= t
                        && #[trigger] (t as int % (self@[i] as int)) == 0;
                let p = self@[i] as int;
                assert(p < t) by (nonlinear_arith)
                    requires
                        p * p <= t as int,
                        p >= 2,
                ;
                assert(!is_prime(t as int));
            }
        }
        let ghost pre = self@;
        self.inner.push(t);
        proof {
            assert(self@ == pre.push(t));
            assert(self@.last() == t);
            assert forall|i: int, j: int|
                0 <= i < j < self@.len() implies #[trigger] self@[i] < #[trigger] self@[j] by {
                if j == self@.len() - 1 {
                    if i < pre.len() - 1 {
                        assert(pre[i] < pre[pre.len() - 1]);
                    }
                }
            }
            assert forall|q: int| 2 <= q <= self@.last() && #[trigger] is_prime(q) implies exists|
                i: int,
            | 0 <= i < self@.len() && self@[i] == q by {
                if q <= pre.last() {
                    let i = choose|i: int| 0 <= i < pre.len() && pre[i] == q;
                    assert(self@[i] == q);
                } else if q == t {
                    assert(self@[self@.len() - 1] == q);
                } else {
                    assert(pre.last() < q <= t - 1);
                    assert(!is_prime(q));
                }
            }
        }
        Ok(())
    }

    /// The prime at position `n`, extending the store as needed so that,
    /// on success, position `n` lies strictly inside the cached range.
    pub fn get_at(&mut self, n: usize) -> (r: Result<u64, PrimesExhausted>)
        requires
            old(self).wf(),
        ensures
            final(self).wf(),
            old(self)@.is_prefix_of(final(self)@),
            n < old(self)@.len() ==> final(self)@ == old(self)@,
            r matches Ok(p) ==> {
                &&& n < final(self)@.len()
                &&& final(self)@.len() <= usize::MAX
                &&& p == final(self)@[n as int]
                &&& (final(self)@.len() == old(self)@.len() || final(self)@.len() == n as int + 1)
            },
            r is Err ==> final(self)@.len() <= n && no_prime_in(
                final(self)@.last() as int,
                scan_cap(final(self)@.last() as int),
            ),
    {
        while self.inner.len() <= n
            invariant
                self.wf(),
                old(self)@.is_prefix_of(self@),
                n < old(self)@.len() ==> self@ == old(self)@,
                self@.len() == old(self)@.len() || self@.len() <= n as int + 1,
            decreases n + 1 - self.inner.len(),
        {
            let ghost mid = self@;
            let r = self.find_next();
            proof {
                assert(mid.is_prefix_of(self@));
                assert(old(self)@.is_prefix_of(self@));
            }
            if r.is_err() {
                return Err(PrimesExhausted);
            }
        }
        Ok(self.inner[n])
    }
}

/// A restartable producer of the prime sequence: starting from position 0,
/// each step yields the prime at the next position of the store it is
/// handed, extending that store when the position is not yet cached.
pub struct OuterIter {
    pos: usize,
}

impl View for OuterIter {
    type V = int;

    closed spec fn view(&self) -> int {
        self.pos as int
    }
}

impl OuterIter {
    /// Yields the prime at the current position of `store` and advances,
    /// growing `store` first when the position is beyond its cached range.
    pub fn next(&mut self, store: &mut Store) -> (r: Result<u64, PrimesExhausted>)
        requires
            old(store).wf(),
        ensures
            final(store).wf(),
            old(store)@.is_prefix_of(final(store)@),
            old(self)@ < old(store)@.len() ==> final(store)@ == old(store)@,
            r matches Ok(p) ==> {
                &&& final(self)@ == old(self)@ + 1
                &&& final(self)@ <= usize::MAX
                &&& old(self)@ < final(store)@.len()
                &&& p == final(store)@[old(self)@]
                &&& (final(store)@.len() == old(store)@.len() || final(store)@.len() == old(self)@
                    + 1)
            },
            r is Err ==> {
                &&& final(self)@ == old(self)@
                &&& final(store)@.len() <= old(self)@
                &&& no_prime_in(final(store)@.last() as int, scan_cap(final(store)@.last() as int))
            },
    {
        match store.get_at(self.pos) {
            Ok(p) => {
                self.pos = self.pos + 1;
                Ok(p)
            },
            Err(e) => Err(e),
        }
    }
}

/// A fresh producer of the prime sequence, starting at position 0.
pub fn iter() -> (it: OuterIter)
    ensures
        it@ == 0,
{
    OuterIter { pos: 0 }
}

} // verus!
