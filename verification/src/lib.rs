//! Positive rationals represented exactly as vectors of signed exponents over
//! the shared prime sequence: position `i` holds the exponent of the `i`-th
//! prime. Multiplying, dividing and raising to an integer power act
//! position by position on the exponents.

use vstd::prelude::*;

pub mod primes;

verus! {

use crate::primes::Store;
use crate::primes::is_prime;
use crate::primes::no_prime_in;
use crate::primes::scan_cap;
use vstd::arithmetic::div_mod::lemma_fundamental_div_mod;
use vstd::arithmetic::div_mod::lemma_small_mod;
use vstd::arithmetic::div_mod::lemma_mod_multiples_basic;

/// The exponent at position `i`, taking every position beyond the end of the
/// vector as zero.
pub open spec fn exp_at(s: Seq<i8>, i: int) -> int {
    if 0 <= i < s.len() {
        s[i] as int
    } else {
        0
    }
}

/// An exponent vector is canonical when it does not end in a zero exponent;
/// the empty vector denotes the value 1.
pub open spec fn canonical(s: Seq<i8>) -> bool {
    s.len() == 0 || s.last() != 0
}

/// The canonical form of `s`: `s` with its trailing run of zero exponents
/// removed.
pub open spec fn trim(s: Seq<i8>) -> Seq<i8>
    decreases s.len(),
{
    if s.len() == 0 || s.last() != 0 {
        s
    } else {
        trim(s.drop_last())
    }
}

/// Position-by-position sum of two exponent vectors, the shorter one taken
/// as extended with zeros.
pub open spec fn padded_add(a: Seq<i8>, b: Seq<i8>) -> Seq<i8> {
    Seq::new(if a.len() >= b.len() { a.len() } else { b.len() }, |i: int| (exp_at(a, i) + exp_at(b, i)) as i8)
}

/// Position-by-position difference of two exponent vectors, the shorter one
/// taken as extended with zeros.
pub open spec fn padded_sub(a: Seq<i8>, b: Seq<i8>) -> Seq<i8> {
    Seq::new(if a.len() >= b.len() { a.len() } else { b.len() }, |i: int| (exp_at(a, i) - exp_at(b, i)) as i8)
}

/// Every exponent multiplied by the scalar `k`.
pub open spec fn scaled(s: Seq<i8>, k: i8) -> Seq<i8> {
    Seq::new(s.len(), |i: int| (s[i] as int * k as int) as i8)
}

/// Every position-by-position sum stays within the exponent type's range.
pub open spec fn add_in_range(a: Seq<i8>, b: Seq<i8>) -> bool {
    forall|i: int| i8::MIN <= #[trigger] (exp_at(a, i) + exp_at(b, i)) <= i8::MAX
}

/// Every position-by-position difference stays within the exponent type's
/// range.
pub open spec fn sub_in_range(a: Seq<i8>, b: Seq<i8>) -> bool {
    forall|i: int| i8::MIN <= #[trigger] (exp_at(a, i) - exp_at(b, i)) <= i8::MAX
}

/// Every exponent scaled by `k` stays within the exponent type's range.
pub open spec fn scale_in_range(s: Seq<i8>, k: i8) -> bool {
    forall|i: int| 0 <= i < s.len() ==> i8::MIN <= #[trigger] (s[i] as int * k as int) <= i8::MAX
}

/// All exponents are nonnegative.
pub open spec fn nonneg(s: Seq<i8>) -> bool {
    forall|i: int| 0 <= i < s.len() ==> #[trigger] s[i] >= 0
}

/// Converting a positive integer to its exponent vector failed.
#[derive(Clone, Copy, Debug, PartialEq, Eq, Structural)]
pub enum UratError {
    /// The exponent for some prime factor exceeded the representable range
    /// of the exponent element type.
    ExponentOverflow,
    /// The prime store could not certify a further prime.
    PrimesExhausted,
}

/// A non-zero positive rational number, as the canonical vector of prime
/// exponents; by default 1, the empty vector.
#[derive(Clone, Debug)]
pub struct Urat {
    inner: Vec<i8>,
}

impl View for Urat {
    type V = Seq<i8>;

    closed spec fn view(&self) -> Seq<i8> {
        self.inner@
    }
}

impl Default for Urat {
    /// The value 1: the empty exponent vector.
    fn default() -> (r: Self)
        ensures
            r@ == Seq::<i8>::empty(),
    {
        Urat { inner: Vec::new() }
    }
}

impl PartialEq for Urat {
    fn eq(&self, other: &Urat) -> bool {
        let r = self.inner == other.inner;
        proof {
            if r {
                assert(self@ =~= other@);
            }
            if self@ == other@ {
                assert(forall|i: int|
                    0 <= i < self@.len() ==> #[trigger] self@[i] == other@[i]);
            }
        }
        r
    }
}

impl Eq for Urat {

}

impl vstd::std_specs::cmp::PartialEqSpecImpl for Urat {
    open spec fn obeys_eq_spec() -> bool {
        true
    }

    open spec fn eq_spec(&self, other: &Urat) -> bool {
        self@ == other@
    }
}

impl Urat {
    /// The value 1: the empty exponent vector.
    pub fn new() -> (r: Self)
        ensures
            r@ == Seq::<i8>::empty(),
    {
        Self::default()
    }

    /// A rational rebuilt from a stored exponent vector, position for
    /// position, trimmed back to canonical form. Decoding is only meaningful
    /// against a prime store built by the same deterministic process as the
    /// one the vector was built against.
    pub fn from_exponents(v: Vec<i8>) -> (r: Urat)
        ensures
            r@ == trim(v@),
            canonical(r@),
    {
        let mut u = Urat { inner: v };
        u.reduce();
        u
    }

    /// The exponents, position for position, lowest prime first.
    pub fn exponents(&self) -> (r: &[i8])
        ensures
            r@ == self@,
    {
        self.inner.as_slice()
    }

    /// Grows the vector with zero exponents until it covers every position
    /// below `upto_excl`.
    fn reserve(&mut self, upto_excl: usize)
        ensures
            final(self)@.len() == if old(self)@.len() >= upto_excl {
                old(self)@.len() as int
            } else {
                upto_excl as int
            },
            forall|j: int| 0 <= j < old(self)@.len() ==> final(self)@[j] == old(self)@[j],
            forall|j: int|
                old(self)@.len() <= j < final(self)@.len() ==> final(self)@[j] == 0,
    {
        while self.inner.len() < upto_excl
            invariant
                old(self)@.len() <= self@.len(),
                self@.len() <= old(self)@.len() || self@.len() <= upto_excl,
                forall|j: int| 0 <= j < old(self)@.len() ==> self@[j] == old(self)@[j],
                forall|j: int| old(self)@.len() <= j < self@.len() ==> self@[j] == 0,
            decreases upto_excl - self.inner.len(),
        {
            self.inner.push(0);
        }
    }

    /// Multiplies `self` by `rhs` in place: every exponent of `rhs` is added
    /// to the exponent at the same position, and the result is trimmed back
    /// to canonical form.
    pub fn mul_assign(&mut self, rhs: &Urat)
        requires
            add_in_range(old(self)@, rhs@),
        ensures
            final(self)@ == trim(padded_add(old(self)@, rhs@)),
            canonical(final(self)@),
    {
        let ghost orig = self@;
        self.reserve(rhs.inner.len());
        let ghost base = self@;
        let mut i: usize = 0;
        while i < rhs.inner.len()
            invariant
                add_in_range(orig, rhs@),
                rhs@.len() <= self@.len(),
                i <= rhs@.len(),
                self@.len() == base.len(),
                forall|j: int| 0 <= j < base.len() ==> #[trigger] (base[j] as int) == exp_at(orig, j),
                forall|j: int| i <= j < self@.len() ==> self@[j] == base[j],
                forall|j: int|
                    0 <= j < i ==> #[trigger] (self@[j] as int) == exp_at(orig, j) + exp_at(rhs@, j),
            decreases rhs@.len() - i,
        {
            let a = self.inner[i];
            let b = rhs.inner[i];
            proof {
                assert(a as int == base[i as int] as int == exp_at(orig, i as int));
                assert(b as int == exp_at(rhs@, i as int));
            }
            self.inner[i] = a + b;
            i = i + 1;
        }
        proof {
            assert(self@ =~= padded_add(orig, rhs@));
        }
        self.reduce();
    }

    /// The product of the two rationals: position-by-position sum of the
    /// exponent vectors, in canonical form.
    pub fn mul(self, rhs: &Urat) -> (r: Urat)
        requires
            add_in_range(self@, rhs@),
        ensures
            r@ == trim(padded_add(self@, rhs@)),
            canonical(r@),
    {
        let mut s = self;
        s.mul_assign(rhs);
        s
    }

    /// Divides `self` by `rhs` in place: every exponent of `rhs` is
    /// subtracted from the exponent at the same position, and the result is
    /// trimmed back to canonical form. The differences are not kept from
    /// going negative: the exponent kind is signed.
    pub fn div_assign(&mut self, rhs: &Urat)
        requires
            sub_in_range(old(self)@, rhs@),
        ensures
            final(self)@ == trim(padded_sub(old(self)@, rhs@)),
            canonical(final(self)@),
    {
        let ghost orig = self@;
        self.reserve(rhs.inner.len());
        let ghost base = self@;
        let mut i: usize = 0;
        while i < rhs.inner.len()
            invariant
                sub_in_range(orig, rhs@),
                rhs@.len() <= self@.len(),
                i <= rhs@.len(),
                self@.len() == base.len(),
                forall|j: int| 0 <= j < base.len() ==> #[trigger] (base[j] as int) == exp_at(orig, j),
                forall|j: int| i <= j < self@.len() ==> self@[j] == base[j],
                forall|j: int|
                    0 <= j < i ==> #[trigger] (self@[j] as int) == exp_at(orig, j) - exp_at(rhs@, j),
            decreases rhs@.len() - i,
        {
            let a = self.inner[i];
            let b = rhs.inner[i];
            proof {
                assert(a as int == base[i as int] as int == exp_at(orig, i as int));
                assert(b as int == exp_at(rhs@, i as int));
            }
            self.inner[i] = a - b;
            i = i + 1;
        }
        proof {
            assert(self@ =~= padded_sub(orig, rhs@));
        }
        self.reduce();
    }

    /// The quotient of the two rationals: position-by-position difference of
    /// the exponent vectors, in canonical form.
    pub fn div(self, rhs: &Urat) -> (r: Urat)
        requires
            sub_in_range(self@, rhs@),
        ensures
            r@ == trim(padded_sub(self@, rhs@)),
            canonical(r@),
    {
        let mut s = self;
        s.div_assign(rhs);
        s
    }

    /// The `rhs`-th power of the rational: every exponent multiplied by
    /// `rhs`, in canonical form. A power of zero collapses every exponent,
    /// leaving the empty vector, the value 1.
    pub fn pow(self, rhs: i8) -> (r: Urat)
        requires
            scale_in_range(self@, rhs),
        ensures
            r@ == trim(scaled(self@, rhs)),
            canonical(r@),
    {
        let mut s = self;
        let ghost base = s@;
        let mut i: usize = 0;
        while i < s.inner.len()
            invariant
                scale_in_range(base, rhs),
                i <= s@.len(),
                s@.len() == base.len(),
                forall|j: int| i <= j < s@.len() ==> s@[j] == base[j],
                forall|j: int| 0 <= j < i ==> s@[j] as int == base[j] as int * rhs as int,
            decreases s@.len() - i,
        {
            let a = s.inner[i];
            proof {
                assert(a as int == base[i as int] as int);
                assert(i8::MIN <= base[i as int] as int * rhs as int <= i8::MAX);
            }
            s.inner[i] = a * rhs;
            i = i + 1;
        }
        proof {
            assert(s@ =~= scaled(base, rhs));
        }
        s.reduce();
        s
    }

    /// Factors the positive integer `n` against the prime store, growing the
    /// store as needed: the result is the canonical vector of nonnegative
    /// exponents whose product of primes equals `n`. Each exponent increment
    /// is checked against the exponent type's range; with 64-bit inputs no
    /// exponent can reach 64, so the overflow report is proven unreachable
    /// and the only failure left is the store's own exhaustion, which no
    /// realistic run reaches.
    #[verifier::rlimit(50)]
    pub fn from_u64(n: u64, store: &mut Store) -> (r: Result<Urat, UratError>)
        requires
            n >= 1,
            old(store).wf(),
        ensures
            final(store).wf(),
            old(store)@.is_prefix_of(final(store)@),
            n == 1 ==> r is Ok && final(store)@ == old(store)@,
            r matches Ok(u) ==> {
                &&& canonical(u@)
                &&& nonneg(u@)
                &&& (forall|i: int| 0 <= i < u@.len() ==> #[trigger] u@[i] < 64)
                &&& u@.len() <= final(store)@.len()
                &&& (final(store)@.len() == old(store)@.len() || final(store)@.len() == u@.len())
                &&& prod_pow(final(store)@, u@) == n
                &&& (n == 1 ==> u@.len() == 0)
                &&& forall|i: int|
                    0 <= i < final(store)@.len() && n == final(store)@[i] ==> u@ == unit_vec(i)
            },
            r matches Err(e) ==> {
                &&& e == UratError::PrimesExhausted
                &&& no_prime_in(
                    final(store)@.last() as int,
                    scan_cap(final(store)@.last() as int),
                )
            },
    {
        let mut ret = Urat::new();
        if n == 1 {
            proof {
                assert forall|i: int|
                    0 <= i < store@.len() implies #[trigger] store@[i] as int >= 2 by {
                    assert(is_prime(store@[i] as int));
                }
            }
            return Ok(ret);
        }
        let mut rem: u64 = n;
        let mut it = crate::primes::iter();
        let mut pidx: usize = 0;
        let ghost mut gprev: int = 0;
        loop
            invariant_except_break
                rem >= 2,
                it@ == pidx as int,
                ret@.len() <= pidx as int,
                if pidx == 0 {
                    gprev == 0
                } else {
                    0 <= pidx - 1 < store@.len() && gprev == store@[pidx as int - 1] as int
                },
                n as int == prod_pow_upto(store@, ret@, pidx as int) * rem,
                store@.len() == old(store)@.len() || store@.len() == pidx as int,
                forall|j: int| 0 <= j < pidx as int ==> rem as int % (#[trigger] store@[j] as int) != 0,
                is_prime(n as int) ==> rem == n && ret@.len() == 0,
            invariant
                n >= 2,
                store.wf(),
                old(store)@.is_prefix_of(store@),
                pidx as int <= store@.len(),
                1 <= rem <= n,
                nonneg(ret@),
                ret@.len() <= store@.len(),
            ensures
                store.wf(),
                old(store)@.is_prefix_of(store@),
                nonneg(ret@),
                1 <= ret@.len() <= store@.len(),
                ret@.last() as int >= 1,
                n as int == prod_pow_upto(store@, ret@, ret@.len() as int),
                store@.len() == old(store)@.len() || store@.len() == ret@.len(),
                is_prime(n as int) ==> ret@ == unit_vec(ret@.len() - 1) && store@[ret@.len()
                    - 1] == n,
            decreases rem, rem as int - gprev,
        {
            let ghost pre = store@;
            let ghost pre_ret = ret@;
            let pr = it.next(store);
            proof {
                assert(pre.is_prefix_of(store@));
                assert forall|j: int| 0 <= j < pidx as int implies #[trigger] store@[j] == pre[j] by {
                    assert(pre[j] == store@.take(pre.len() as int)[j]);
                }
                lemma_prod_pow_upto_congruence(pre, ret@, store@, ret@, pidx as int);
            }
            let pval = match pr {
                Ok(p) => p,
                Err(_) => {
                    return Err(UratError::PrimesExhausted);
                },
            };
            proof {
                assert(pval == store@[pidx as int]);
                assert(is_prime(pval as int));
                assert(pidx as int + 1 <= usize::MAX);
            }
            if rem % pval == 0 {
                proof {
                    if pval > rem {
                        lemma_small_mod(rem as nat, pval as nat);
                        assert(false);
                    }
                }
                ret.reserve(pidx + 1);
                proof {
                    assert(ret@.len() == pidx + 1);
                    assert forall|j: int|
                        0 <= j < pidx as int implies #[trigger] exp_at(pre_ret, j) == exp_at(
                        ret@,
                        j,
                    ) by {}
                    lemma_prod_pow_upto_congruence(store@, pre_ret, store@, ret@, pidx as int);
                    assert(exp_at(ret@, pidx as int) == 0);
                    vstd::arithmetic::power::lemma_pow0(pval as int);
                    assert(prod_pow_upto(store@, ret@, pidx as int + 1) == prod_pow_upto(
                        store@,
                        ret@,
                        pidx as int,
                    ));
                    if is_prime(n as int) {
                        // the only divisor of a prime in reach here is the
                        // prime itself
                        assert(rem == n);
                        if pval < n {
                            assert(2 <= pval as int && (pval as int) < (n as int) && n as int % (pval as int) == 0);
                            assert(false);
                        }
                        assert(pval == n);
                    }
                }
                let ghost entry_rem = rem;
                while rem % pval == 0
                    invariant
                        store.wf(),
                        old(store)@.is_prefix_of(store@),
                        (pidx as int) < store@.len(),
                        pval == store@[pidx as int],
                        2 <= pval,
                        n >= 2,
                        1 <= rem <= n,
                        nonneg(ret@),
                        ret@.len() == pidx as int + 1,
                        ret@.len() <= store@.len(),
                        n as int == prod_pow_upto(store@, ret@, pidx as int + 1) * rem,
                        forall|j: int|
                            0 <= j < pidx as int ==> rem as int % (#[trigger] store@[j] as int)
                                != 0,
                        rem == entry_rem || ret@[pidx as int] as int >= 1,
                        rem <= entry_rem,
                        entry_rem as int % (pval as int) == 0,
                        entry_rem >= 2,
                        is_prime(n as int) ==> {
                            &&& pval == n
                            &&& (forall|j: int| 0 <= j < pidx as int ==> #[trigger] ret@[j] == 0)
                            &&& ((rem == n && ret@[pidx as int] == 0) || (rem == 1 && ret@[
                                pidx as int] == 1))
                        },
                    decreases rem,
                {
                    let cur = ret.inner[pidx];
                    if cur == i8::MAX {
                        proof {
                            // proven unreachable: the exponent stays below 64
                            assert forall|j: int|
                                0 <= j < pidx as int + 1 implies 2 <= #[trigger] store@[j] by {
                                assert(is_prime(store@[j] as int));
                            }
                            assert(exp_at(ret@, pidx as int) == cur as int);
                            lemma_exponent_small(
                                store@,
                                ret@,
                                pidx as int + 1,
                                rem as int,
                                n as int,
                                pidx as int,
                            );
                            assert(false);
                        }
                        return Err(UratError::ExponentOverflow);
                    }
                    let ghost old_ret = ret@;
                    let ghost old_rem = rem as int;
                    ret.inner[pidx] = cur + 1;
                    rem = rem / pval;
                    proof {
                        lemma_fundamental_div_mod(old_rem, pval as int);
                        assert(old_rem == pval * (rem as int));
                        assert(rem >= 1) by (nonlinear_arith)
                            requires
                                old_rem == pval * (rem as int),
                                old_rem >= 1,
                                pval >= 2,
                                rem >= 0,
                        ;
                        assert(rem < old_rem) by (nonlinear_arith)
                            requires
                                old_rem == pval * (rem as int),
                                pval >= 2,
                                rem >= 1,
                        ;
                        assert forall|j: int|
                            0 <= j < pidx as int implies #[trigger] exp_at(old_ret, j) == exp_at(
                            ret@,
                            j,
                        ) by {}
                        lemma_prod_pow_upto_congruence(store@, old_ret, store@, ret@, pidx as int);
                        lemma_pow_nn_step(pval as int, cur as int);
                        assert(exp_at(ret@, pidx as int) == cur as int + 1);
                        assert(exp_at(old_ret, pidx as int) == cur as int);
                        let prodk = prod_pow_upto(store@, old_ret, pidx as int);
                        let pw = pow_nn(pval as int, cur as int);
                        assert(prod_pow_upto(store@, ret@, pidx as int + 1) == prodk * (pw * (
                        pval as int)));
                        assert(prodk * (pw * (pval as int)) * (rem as int) == prodk * pw * (pval
                            as int * rem as int)) by (nonlinear_arith);
                        assert(n as int == prod_pow_upto(store@, ret@, pidx as int + 1) * rem);
                        assert forall|j: int|
                            0 <= j < pidx as int implies rem as int % (#[trigger] store@[j] as int)
                            != 0 by {
                            if rem as int % (store@[j] as int) == 0 {
                                lemma_mod_multiples_basic(pval as int, rem as int);
                                crate::primes::lemma_divides_transitive(
                                    store@[j] as int,
                                    rem as int,
                                    old_rem,
                                );
                            }
                        }
                        if is_prime(n as int) {
                            if old_rem == 1 {
                                lemma_small_mod(1, pval as nat);
                                assert(false);
                            }
                            assert(old_rem == n);
                            assert(cur == 0);
                            assert(old_rem == pval as int);
                            assert(rem == 1) by (nonlinear_arith)
                                requires
                                    old_rem == pval * (rem as int),
                                    old_rem == pval as int,
                                    pval >= 2,
                                    rem >= 1,
                            ;
                        }
                    }
                }
                if rem == 1 {
                    proof {
                        assert(store@.len() == old(store)@.len() || store@.len() == pidx as int
                            + 1);
                        assert(ret@[pidx as int] as int >= 1);
                        assert(ret@.last() as int >= 1);
                        assert(ret@.len() == pidx as int + 1);
                        assert(n as int == prod_pow_upto(store@, ret@, pidx as int + 1) * (
                        rem as int));
                        assert(n as int == prod_pow_upto(store@, ret@, ret@.len() as int));
                        if is_prime(n as int) {
                            assert(ret@ =~= unit_vec(pidx as int));
                        }
                    }
                    break;
                }
                proof {
                    // at least one division happened, so the remainder shrank
                    assert(rem < entry_rem);
                }
            } else {
                proof {
                    assert(exp_at(ret@, pidx as int) == 0);
                    vstd::arithmetic::power::lemma_pow0(pval as int);
                    assert(prod_pow_upto(store@, ret@, pidx as int + 1) == prod_pow_upto(
                        store@,
                        ret@,
                        pidx as int,
                    ) * pow_nn(store@[pidx as int] as int, exp_at(ret@, pidx as int)));
                    assert(prod_pow_upto(store@, ret@, pidx as int + 1) == prod_pow_upto(
                        store@,
                        ret@,
                        pidx as int,
                    ));
                }
            }
            proof {
                // the next prime to try cannot lie beyond the smallest prime
                // factor that is still in the remainder
                assert(rem >= 2);
                assert(rem as int % (pval as int) != 0);
                crate::primes::lemma_has_prime_factor(rem as int);
                let p = choose|p: int|
                    is_prime(p) && p <= rem as int && #[trigger] (rem as int % p) == 0;
                if p < pval as int {
                    assert(store@[pidx as int] <= store@[store@.len() - 1]);
                    assert(2 <= p <= store@.last());
                    let i0 = choose|i: int| 0 <= i < store@.len() && store@[i] == p;
                    if i0 > pidx as int {
                        assert(store@[pidx as int] < store@[i0]);
                        assert(false);
                    }
                    if i0 == pidx as int {
                        assert(false);
                    }
                    assert(rem as int % (store@[i0] as int) != 0);
                    assert(false);
                }
                assert(pval as int <= p <= rem as int);
                if pidx > 0 {
                    assert(store@[pidx as int - 1] < store@[pidx as int]);
                }
                gprev = pval as int;
            }
            pidx = pidx + 1;
        }
        let ghost loop_ret = ret@;
        ret.reduce();
        proof {
            lemma_trim_canonical_noop(loop_ret);
            assert(ret@ == loop_ret);
            assert forall|i: int| 0 <= i < ret@.len() implies #[trigger] ret@[i] < 64 by {
                assert forall|j: int|
                    0 <= j < ret@.len() implies 2 <= #[trigger] store@[j] by {
                    assert(is_prime(store@[j] as int));
                }
                lemma_exponent_small(store@, ret@, ret@.len() as int, 1, n as int, i);
                assert(exp_at(ret@, i) == ret@[i]);
            }
            assert forall|i: int|
                0 <= i < store@.len() && n == store@[i] implies ret@ == unit_vec(i) by {
                assert(is_prime(store@[i] as int));
                assert(is_prime(n as int));
                let l = ret@.len() - 1;
                if i != l {
                    if i < l {
                        assert(store@[i] < store@[l]);
                    } else {
                        assert(store@[l] < store@[i]);
                    }
                    assert(false);
                }
            }
        }
        Ok(ret)
    }

    /// Restores canonical form: removes the trailing run of zero exponents.
    pub fn reduce(&mut self)
        ensures
            final(self)@ == trim(old(self)@),
            canonical(final(self)@),
    {
        loop
            invariant
                trim(self@) == trim(old(self)@),
            ensures
                self@ == trim(old(self)@),
            decreases self.inner.len(),
        {
            let l = self.inner.len();
            if l == 0 {
                break;
            }
            if self.inner[l - 1] != 0 {
                break;
            }
            let ghost pre = self@;
            self.inner.pop();
            proof {
                assert(self@ =~= pre.drop_last());
            }
        }
        proof {
            lemma_trim_canonical(old(self)@);
        }
    }
}

/// The canonical form of any vector is itself canonical, so trimming twice
/// is the same as trimming once.
pub proof fn lemma_trim_canonical(s: Seq<i8>)
    ensures
        canonical(trim(s)),
        trim(trim(s)) == trim(s),
    decreases s.len(),
{
    if s.len() == 0 || s.last() != 0 {
    } else {
        lemma_trim_canonical(s.drop_last());
    }
}

/// Re-trimming an already-canonical vector is a no-op.
pub proof fn lemma_trim_canonical_noop(s: Seq<i8>)
    requires
        canonical(s),
    ensures
        trim(s) == s,
{
}

/// A vector of zero exponents trims to the empty vector.
pub proof fn lemma_trim_all_zero(s: Seq<i8>)
    requires
        forall|i: int| 0 <= i < s.len() ==> #[trigger] s[i] == 0,
    ensures
        trim(s) == Seq::<i8>::empty(),
    decreases s.len(),
{
    if s.len() == 0 {
        assert(s =~= Seq::<i8>::empty());
    } else {
        lemma_trim_all_zero(s.drop_last());
    }
}

/// `b` to the power `e` for a nonnegative exponent, and 1 otherwise.
pub open spec fn pow_nn(b: int, e: int) -> int {
    if e >= 0 {
        vstd::arithmetic::power::pow(b, e as nat)
    } else {
        1
    }
}

/// The product of `ps[j]` to the power `es[j]` over the first `k` positions,
/// exponents beyond the end of `es` taken as zero.
pub open spec fn prod_pow_upto(ps: Seq<u64>, es: Seq<i8>, k: int) -> int
    decreases k,
{
    if k <= 0 {
        1
    } else {
        prod_pow_upto(ps, es, k - 1) * pow_nn(ps[k - 1] as int, exp_at(es, k - 1))
    }
}

/// The value an exponent vector represents over the prime sequence `ps`:
/// the product of each prime to its exponent.
pub open spec fn prod_pow(ps: Seq<u64>, es: Seq<i8>) -> int {
    prod_pow_upto(ps, es, es.len() as int)
}

/// The exponent vector of a prime at position `i`: a single 1 at position
/// `i` after `i` zeros.
pub open spec fn unit_vec(i: int) -> Seq<i8> {
    Seq::new((i + 1) as nat, |j: int| if j == i { 1i8 } else { 0i8 })
}

/// The product over the first `k` positions reads only those positions: two
/// prime sequences and two exponent vectors that agree there give the same
/// product.
pub proof fn lemma_prod_pow_upto_congruence(
    ps1: Seq<u64>,
    es1: Seq<i8>,
    ps2: Seq<u64>,
    es2: Seq<i8>,
    k: int,
)
    requires
        forall|j: int| 0 <= j < k ==> #[trigger] ps1[j] == ps2[j],
        forall|j: int| 0 <= j < k ==> #[trigger] exp_at(es1, j) == exp_at(es2, j),
    ensures
        prod_pow_upto(ps1, es1, k) == prod_pow_upto(ps2, es2, k),
    decreases k,
{
    if k > 0 {
        lemma_prod_pow_upto_congruence(ps1, es1, ps2, es2, k - 1);
    }
}

/// With every base at least 1 and every exponent nonnegative, the product
/// is at least 1.
pub proof fn lemma_prod_pow_upto_pos(ps: Seq<u64>, es: Seq<i8>, k: int)
    requires
        forall|j: int| 0 <= j < k ==> 1 <= #[trigger] ps[j],
        nonneg(es),
    ensures
        prod_pow_upto(ps, es, k) >= 1,
    decreases k,
{
    if k > 0 {
        lemma_prod_pow_upto_pos(ps, es, k - 1);
        let b = ps[k - 1] as int;
        let e = exp_at(es, k - 1);
        assert(e >= 0);
        vstd::arithmetic::power::lemma_pow_positive(b, e as nat);
        assert(prod_pow_upto(ps, es, k - 1) * pow_nn(b, e) >= 1) by (nonlinear_arith)
            requires
                prod_pow_upto(ps, es, k - 1) >= 1,
                pow_nn(b, e) >= 1,
        ;
    }
}

/// The product over the first `k` positions is at least the contribution of
/// the last of them alone.
pub proof fn lemma_prod_pow_upto_last_lower(ps: Seq<u64>, es: Seq<i8>, k: int)
    requires
        k >= 1,
        forall|j: int| 0 <= j < k ==> 1 <= #[trigger] ps[j],
        nonneg(es),
    ensures
        prod_pow_upto(ps, es, k) >= pow_nn(ps[k - 1] as int, exp_at(es, k - 1)),
{
    lemma_prod_pow_upto_pos(ps, es, k - 1);
    let b = ps[k - 1] as int;
    let e = exp_at(es, k - 1);
    vstd::arithmetic::power::lemma_pow_positive(b, if e >= 0 { e as nat } else { 0 });
    assert(prod_pow_upto(ps, es, k - 1) * pow_nn(b, e) >= pow_nn(b, e)) by (nonlinear_arith)
        requires
            prod_pow_upto(ps, es, k - 1) >= 1,
            pow_nn(b, e) >= 1,
    ;
}

/// The product over the first `k` positions is at least the contribution
/// of any single one of them.
pub proof fn lemma_prod_pow_upto_lower_any(ps: Seq<u64>, es: Seq<i8>, k: int, i: int)
    requires
        0 <= i < k,
        forall|j: int| 0 <= j < k ==> 1 <= #[trigger] ps[j],
        nonneg(es),
    ensures
        prod_pow_upto(ps, es, k) >= pow_nn(ps[i] as int, exp_at(es, i)),
    decreases k,
{
    if i == k - 1 {
        lemma_prod_pow_upto_last_lower(ps, es, k);
    } else {
        lemma_prod_pow_upto_lower_any(ps, es, k - 1, i);
        lemma_prod_pow_upto_pos(ps, es, k - 1);
        let b = ps[k - 1] as int;
        let e = exp_at(es, k - 1);
        vstd::arithmetic::power::lemma_pow_positive(b, if e >= 0 {
            e as nat
        } else {
            0
        });
        assert(prod_pow_upto(ps, es, k - 1) * pow_nn(b, e) >= prod_pow_upto(ps, es, k - 1))
            by (nonlinear_arith)
            requires
                prod_pow_upto(ps, es, k - 1) >= 1,
                pow_nn(b, e) >= 1,
        ;
    }
}

/// A larger base gives at least as large a power.
proof fn lemma_pow_base_le(b1: int, b2: int, e: nat)
    requires
        1 <= b1 <= b2,
    ensures
        vstd::arithmetic::power::pow(b1, e) <= vstd::arithmetic::power::pow(b2, e),
    decreases e,
{
    if e > 0 {
        lemma_pow_base_le(b1, b2, (e - 1) as nat);
        vstd::arithmetic::power::lemma_pow_positive(b1, (e - 1) as nat);
        let p1 = vstd::arithmetic::power::pow(b1, (e - 1) as nat);
        let p2 = vstd::arithmetic::power::pow(b2, (e - 1) as nat);
        vstd::arithmetic::power::lemma_pow_adds(b1, (e - 1) as nat, 1);
        vstd::arithmetic::power::lemma_pow_adds(b2, (e - 1) as nat, 1);
        vstd::arithmetic::power::lemma_pow1(b1);
        vstd::arithmetic::power::lemma_pow1(b2);
        assert(vstd::arithmetic::power::pow(b1, e) == p1 * b1);
        assert(vstd::arithmetic::power::pow(b2, e) == p2 * b2);
        assert(p1 * b1 <= p2 * b2) by (nonlinear_arith)
            requires
                1 <= b1 <= b2,
                1 <= p1 <= p2,
        ;
    } else {
        vstd::arithmetic::power::lemma_pow0(b1);
        vstd::arithmetic::power::lemma_pow0(b2);
    }
}

/// Incrementing a nonnegative exponent multiplies the power by the base.
proof fn lemma_pow_nn_step(b: int, e: int)
    requires
        e >= 0,
    ensures
        pow_nn(b, e + 1) == pow_nn(b, e) * b,
{
    vstd::arithmetic::power::lemma_pow_adds(b, e as nat, 1);
    vstd::arithmetic::power::lemma_pow1(b);
}

/// In a factorization over primes of a value of at most `u64::MAX`, no
/// single exponent can reach 64: the prime is at least 2, and two to the
/// 64th already exceeds the value.
proof fn lemma_exponent_small(ps: Seq<u64>, es: Seq<i8>, k: int, rem: int, n: int, i: int)
    requires
        0 <= i < k,
        forall|j: int| 0 <= j < k ==> 2 <= #[trigger] ps[j],
        nonneg(es),
        prod_pow_upto(ps, es, k) * rem == n,
        rem >= 1,
        n <= u64::MAX,
    ensures
        exp_at(es, i) < 64,
{
    let e = exp_at(es, i);
    let b = ps[i] as int;
    let prod = prod_pow_upto(ps, es, k);
    lemma_prod_pow_upto_lower_any(ps, es, k, i);
    lemma_prod_pow_upto_pos(ps, es, k);
    assert(prod <= n) by (nonlinear_arith)
        requires
            prod * rem == n,
            rem >= 1,
            prod >= 1,
    ;
    if e >= 64 {
        lemma_pow_base_le(2, b, e as nat);
        vstd::arithmetic::power::lemma_pow_increases(2, 64, e as nat);
        vstd::arithmetic::power2::lemma_pow2(64);
        vstd::arithmetic::power2::lemma2_to64_rest();
        assert(vstd::arithmetic::power::pow(2, 64) > u64::MAX);
        assert(false);
    }
}

/// Trimming changes no exponent: every position of the trimmed vector holds
/// what it held before, and positions removed held zero.
pub proof fn lemma_trim_exp_at(s: Seq<i8>)
    ensures
        trim(s).len() <= s.len(),
        forall|j: int| #[trigger] exp_at(trim(s), j) == exp_at(s, j),
    decreases s.len(),
{
    if s.len() == 0 || s.last() != 0 {
    } else {
        lemma_trim_exp_at(s.drop_last());
        assert forall|j: int| #[trigger] exp_at(trim(s), j) == exp_at(s, j) by {
            assert(exp_at(trim(s), j) == exp_at(s.drop_last(), j));
            if j == s.len() - 1 {
                assert(exp_at(s, j) == 0);
            }
        }
    }
}

/// Positions holding a zero exponent beyond `k1` contribute a factor of 1:
/// the product is the same over `k1` and over `k2` positions.
pub proof fn lemma_prod_pow_upto_extend(ps: Seq<u64>, es: Seq<i8>, k1: int, k2: int)
    requires
        0 <= k1 <= k2,
        forall|j: int| k1 <= j < k2 ==> #[trigger] exp_at(es, j) == 0,
    ensures
        prod_pow_upto(ps, es, k1) == prod_pow_upto(ps, es, k2),
    decreases k2 - k1,
{
    if k1 < k2 {
        lemma_prod_pow_upto_extend(ps, es, k1, k2 - 1);
        assert(exp_at(es, k2 - 1) == 0);
        vstd::arithmetic::power::lemma_pow0(ps[k2 - 1] as int);
        assert(pow_nn(ps[k2 - 1] as int, exp_at(es, k2 - 1)) == 1);
    }
}

/// The represented value does not change under trimming.
pub proof fn lemma_prod_pow_trim(ps: Seq<u64>, es: Seq<i8>)
    ensures
        prod_pow(ps, trim(es)) == prod_pow(ps, es),
{
    lemma_trim_exp_at(es);
    lemma_trim_canonical(es);
    let t = trim(es);
    lemma_prod_pow_upto_congruence(ps, t, ps, es, t.len() as int);
    assert forall|j: int| t.len() <= j < es.len() implies #[trigger] exp_at(es, j) == 0 by {
        assert(exp_at(t, j) == exp_at(es, j));
    }
    lemma_prod_pow_upto_extend(ps, es, t.len() as int, es.len() as int);
}

/// Step for the homomorphism law: over the first `k` positions, the product
/// for the position-by-position sum of two nonnegative vectors is the
/// product of their products.
proof fn lemma_prod_pow_upto_mul(ps: Seq<u64>, a: Seq<i8>, b: Seq<i8>, k: int)
    requires
        nonneg(a),
        nonneg(b),
        add_in_range(a, b),
    ensures
        prod_pow_upto(ps, padded_add(a, b), k) == prod_pow_upto(ps, a, k) * prod_pow_upto(
            ps,
            b,
            k,
        ),
    decreases k,
{
    if k <= 0 {
    } else {
        lemma_prod_pow_upto_mul(ps, a, b, k - 1);
        let p = ps[k - 1] as int;
        let ea = exp_at(a, k - 1);
        let eb = exp_at(b, k - 1);
        assert(ea >= 0 && eb >= 0);
        assert(exp_at(padded_add(a, b), k - 1) == ea + eb);
        assert(pow_nn(p, ea + eb) == pow_nn(p, ea) * pow_nn(p, eb)) by {
            vstd::arithmetic::power::lemma_pow_adds(p, ea as nat, eb as nat);
        }
        let ra = prod_pow_upto(ps, a, k - 1);
        let rb = prod_pow_upto(ps, b, k - 1);
        let pa = pow_nn(p, ea);
        let pb = pow_nn(p, eb);
        assert((ra * rb) * (pa * pb) == (ra * pa) * (rb * pb)) by (nonlinear_arith);
    }
}

/// Multiplication is a homomorphism on the represented values: over any
/// prime sequence, the canonical position-by-position sum of two
/// nonnegative exponent vectors stands for the product of the values the
/// two vectors stand for.
pub proof fn lemma_mul_is_value_mul(ps: Seq<u64>, a: Seq<i8>, b: Seq<i8>)
    requires
        nonneg(a),
        nonneg(b),
        add_in_range(a, b),
    ensures
        prod_pow(ps, trim(padded_add(a, b))) == prod_pow(ps, a) * prod_pow(ps, b),
{
    let m = padded_add(a, b).len() as int;
    lemma_prod_pow_trim(ps, padded_add(a, b));
    lemma_prod_pow_upto_mul(ps, a, b, m);
    assert forall|j: int| a.len() <= j < m implies #[trigger] exp_at(a, j) == 0 by {}
    lemma_prod_pow_upto_extend(ps, a, a.len() as int, m);
    assert forall|j: int| b.len() <= j < m implies #[trigger] exp_at(b, j) == 0 by {}
    lemma_prod_pow_upto_extend(ps, b, b.len() as int, m);
}

/// A prime divides no power of a different prime.
proof fn lemma_prime_coprime_pow(p: int, q: int, e: int)
    requires
        is_prime(p),
        is_prime(q),
        p != q,
        e >= 0,
    ensures
        pow_nn(q, e) % p != 0,
    decreases e,
{
    vstd::arithmetic::power::lemma_pow_positive(q, e as nat);
    if e == 0 {
        vstd::arithmetic::power::lemma_pow0(q);
        vstd::arithmetic::div_mod::lemma_small_mod(1, p as nat);
    } else {
        lemma_prime_coprime_pow(p, q, e - 1);
        lemma_pow_nn_step(q, e - 1);
        vstd::arithmetic::power::lemma_pow_positive(q, (e - 1) as nat);
        if pow_nn(q, e) % p == 0 {
            crate::primes::lemma_euclid(p, pow_nn(q, e - 1), q);
            assert(q % p == 0);
            if p < q {
                assert(q % p != 0);
            }
            if p > q {
                vstd::arithmetic::div_mod::lemma_small_mod(q as nat, p as nat);
            }
            assert(false);
        }
    }
}

/// A prime that stands at none of the first `k` positions does not divide
/// the product over them.
proof fn lemma_prod_pow_upto_coprime(ps: Seq<u64>, es: Seq<i8>, k: int, p: int)
    requires
        is_prime(p),
        forall|j: int| 0 <= j < k ==> is_prime(#[trigger] ps[j] as int),
        forall|j: int| 0 <= j < k ==> #[trigger] ps[j] as int != p,
        nonneg(es),
    ensures
        prod_pow_upto(ps, es, k) % p != 0,
    decreases k,
{
    if k <= 0 {
        vstd::arithmetic::div_mod::lemma_small_mod(1, p as nat);
    } else {
        lemma_prod_pow_upto_coprime(ps, es, k - 1, p);
        let q = ps[k - 1] as int;
        let e = exp_at(es, k - 1);
        assert(e >= 0);
        lemma_prime_coprime_pow(p, q, e);
        lemma_prod_pow_upto_pos(ps, es, k - 1);
        vstd::arithmetic::power::lemma_pow_positive(q, e as nat);
        if prod_pow_upto(ps, es, k) % p == 0 {
            crate::primes::lemma_euclid(p, prod_pow_upto(ps, es, k - 1), pow_nn(q, e));
            assert(false);
        }
    }
}

/// Cancelling one prime's power against another on both sides of a product
/// equation: with neither side's cofactor divisible by the prime, the
/// exponents and the cofactors agree.
proof fn lemma_pow_cancel(q: int, e1: int, e2: int, va: int, vb: int)
    requires
        q >= 2,
        e1 >= 0,
        e2 >= 0,
        va >= 1,
        vb >= 1,
        va % q != 0,
        vb % q != 0,
        pow_nn(q, e1) * va == pow_nn(q, e2) * vb,
    ensures
        e1 == e2,
        va == vb,
    decreases e1 + e2,
{
    vstd::arithmetic::power::lemma_pow_positive(q, e1 as nat);
    vstd::arithmetic::power::lemma_pow_positive(q, e2 as nat);
    vstd::arithmetic::power::lemma_pow0(q);
    if e1 == 0 && e2 == 0 {
    } else if e1 == 0 {
        lemma_pow_nn_step(q, e2 - 1);
        vstd::arithmetic::power::lemma_pow_positive(q, (e2 - 1) as nat);
        assert(va == q * (pow_nn(q, e2 - 1) * vb)) by (nonlinear_arith)
            requires
                1 * va == (pow_nn(q, e2 - 1) * q) * vb,
        ;
        vstd::arithmetic::mul::lemma_mul_is_commutative(q, pow_nn(q, e2 - 1) * vb);
        lemma_mod_multiples_basic(pow_nn(q, e2 - 1) * vb, q);
        assert(false);
    } else if e2 == 0 {
        lemma_pow_nn_step(q, e1 - 1);
        vstd::arithmetic::power::lemma_pow_positive(q, (e1 - 1) as nat);
        assert(vb == q * (pow_nn(q, e1 - 1) * va)) by (nonlinear_arith)
            requires
                1 * vb == (pow_nn(q, e1 - 1) * q) * va,
        ;
        vstd::arithmetic::mul::lemma_mul_is_commutative(q, pow_nn(q, e1 - 1) * va);
        lemma_mod_multiples_basic(pow_nn(q, e1 - 1) * va, q);
        assert(false);
    } else {
        lemma_pow_nn_step(q, e1 - 1);
        lemma_pow_nn_step(q, e2 - 1);
        assert(pow_nn(q, e1 - 1) * va == pow_nn(q, e2 - 1) * vb) by (nonlinear_arith)
            requires
                (pow_nn(q, e1 - 1) * q) * va == (pow_nn(q, e2 - 1) * q) * vb,
                q >= 2,
        ;
        lemma_pow_cancel(q, e1 - 1, e2 - 1, va, vb);
    }
}

/// Over pairwise distinct primes, the product determines every exponent:
/// two nonnegative exponent vectors with equal products agree position by
/// position.
proof fn lemma_prod_pow_upto_injective(ps: Seq<u64>, es1: Seq<i8>, es2: Seq<i8>, k: int)
    requires
        forall|j: int| 0 <= j < k ==> is_prime(#[trigger] ps[j] as int),
        forall|i: int, j: int| 0 <= i < j < k ==> ps[i] != ps[j],
        nonneg(es1),
        nonneg(es2),
        prod_pow_upto(ps, es1, k) == prod_pow_upto(ps, es2, k),
    ensures
        forall|j: int| 0 <= j < k ==> #[trigger] exp_at(es1, j) == exp_at(es2, j),
    decreases k,
{
    if k > 0 {
        let q = ps[k - 1] as int;
        let va = prod_pow_upto(ps, es1, k - 1);
        let vb = prod_pow_upto(ps, es2, k - 1);
        lemma_prod_pow_upto_pos(ps, es1, k - 1);
        lemma_prod_pow_upto_pos(ps, es2, k - 1);
        assert forall|j: int| 0 <= j < k - 1 implies #[trigger] ps[j] as int != q by {
            assert(ps[j] != ps[k - 1]);
        }
        lemma_prod_pow_upto_coprime(ps, es1, k - 1, q);
        lemma_prod_pow_upto_coprime(ps, es2, k - 1, q);
        assert(is_prime(q));
        assert(q >= 2);
        assert(exp_at(es1, k - 1) >= 0 && exp_at(es2, k - 1) >= 0);
        assert(pow_nn(q, exp_at(es1, k - 1)) * va == pow_nn(q, exp_at(es2, k - 1)) * vb) by {
            assert(prod_pow_upto(ps, es1, k) == va * pow_nn(q, exp_at(es1, k - 1)));
            assert(prod_pow_upto(ps, es2, k) == vb * pow_nn(q, exp_at(es2, k - 1)));
        }
        lemma_pow_cancel(q, exp_at(es1, k - 1), exp_at(es2, k - 1), va, vb);
        lemma_prod_pow_upto_injective(ps, es1, es2, k - 1);
    }
}

/// Unique factorization over a sequence of distinct primes: two canonical
/// nonnegative exponent vectors that represent the same value are the same
/// vector.
pub proof fn lemma_canonical_representation_unique(ps: Seq<u64>, a: Seq<i8>, b: Seq<i8>)
    requires
        forall|j: int| 0 <= j < ps.len() ==> is_prime(#[trigger] ps[j] as int),
        forall|i: int, j: int| 0 <= i < j < ps.len() ==> ps[i] != ps[j],
        a.len() <= ps.len(),
        b.len() <= ps.len(),
        nonneg(a),
        nonneg(b),
        canonical(a),
        canonical(b),
        prod_pow(ps, a) == prod_pow(ps, b),
    ensures
        a == b,
{
    let k = ps.len() as int;
    assert forall|j: int| a.len() <= j < k implies #[trigger] exp_at(a, j) == 0 by {}
    lemma_prod_pow_upto_extend(ps, a, a.len() as int, k);
    assert forall|j: int| b.len() <= j < k implies #[trigger] exp_at(b, j) == 0 by {}
    lemma_prod_pow_upto_extend(ps, b, b.len() as int, k);
    lemma_prod_pow_upto_injective(ps, a, b, k);
    if a.len() < b.len() {
        assert(exp_at(a, b.len() - 1) == 0);
        assert(exp_at(b, b.len() - 1) == b.last() as int);
        assert(b.last() != 0);
        assert(false);
    }
    if b.len() < a.len() {
        assert(exp_at(b, a.len() - 1) == 0);
        assert(exp_at(a, a.len() - 1) == a.last() as int);
        assert(a.last() != 0);
        assert(false);
    }
    assert forall|j: int| 0 <= j < a.len() implies a[j] == b[j] by {
        assert(exp_at(a, j) == exp_at(b, j));
    }
    assert(a =~= b);
}

/// Multiplication matches conversion: over distinct primes, the canonical
/// sum of two conversions is the one canonical nonnegative vector whose
/// value is the product — so multiplying the conversions of two integers
/// gives the conversion of their product.
pub proof fn lemma_mul_matches_conversion(ps: Seq<u64>, a: Seq<i8>, b: Seq<i8>, c: Seq<i8>)
    requires
        forall|j: int| 0 <= j < ps.len() ==> is_prime(#[trigger] ps[j] as int),
        forall|i: int, j: int| 0 <= i < j < ps.len() ==> ps[i] != ps[j],
        a.len() <= ps.len(),
        b.len() <= ps.len(),
        c.len() <= ps.len(),
        nonneg(a),
        nonneg(b),
        nonneg(c),
        canonical(c),
        add_in_range(a, b),
        prod_pow(ps, c) == prod_pow(ps, a) * prod_pow(ps, b),
    ensures
        trim(padded_add(a, b)) == c,
{
    lemma_mul_is_value_mul(ps, a, b);
    let m = trim(padded_add(a, b));
    lemma_trim_canonical(padded_add(a, b));
    lemma_trim_exp_at(padded_add(a, b));
    assert forall|j: int| 0 <= j < m.len() implies #[trigger] m[j] >= 0 by {
        assert(exp_at(m, j) == exp_at(padded_add(a, b), j));
        assert(exp_at(padded_add(a, b), j) == exp_at(a, j) + exp_at(b, j));
    }
    assert(m.len() <= padded_add(a, b).len() <= ps.len());
    lemma_canonical_representation_unique(ps, m, c);
}

/// Dividing any value by itself yields the default: every exponent cancels,
/// and the difference trims down to the empty vector, the value 1.
pub proof fn lemma_div_self_collapses(a: Seq<i8>)
    ensures
        trim(padded_sub(a, a)) == Seq::<i8>::empty(),
{
    let z = padded_sub(a, a);
    assert(forall|i: int| 0 <= i < z.len() ==> #[trigger] z[i] == 0);
    lemma_trim_all_zero(z);
}

/// Raising any value to the power zero yields the default: every exponent
/// becomes zero, and the vector trims down to the empty vector, the value 1.
pub proof fn lemma_pow_zero_collapses(a: Seq<i8>)
    ensures
        trim(scaled(a, 0)) == Seq::<i8>::empty(),
{
    let z = scaled(a, 0);
    assert(forall|i: int| 0 <= i < z.len() ==> #[trigger] z[i] == 0);
    lemma_trim_all_zero(z);
}

} // verus!
