//! The RSA accumulator engine: a digest `A = g^s mod n` over the running
//! product `s` of the accumulated primes, with membership and
//! non-membership witnesses, batched updates, and aggregated proofs.

use vstd::prelude::*;
use num_bigint_dig::{BigInt, BigUint};
use crate::bigint::{
    big_div_rem, big_eq, big_from_u64, big_is_zero, big_lt, big_mod, big_modpow, big_mul,
    gen_below, gen_prime, ival, useq, uval,
};
use crate::math::{extended_gcd, mod_inverse, modpow_uint_int, root_factor, shamir_trick};
use crate::nt::{
    divides, gcd, is_spow, lemma_coprime_pow_rev, lemma_div_exact,
    lemma_divides_iff_mod_zero, lemma_divides_trans, lemma_gcd_mod_noop, lemma_inverse_coprime,
    lemma_nested_div,
    lemma_inverse_exists, lemma_pow_nonneg, lemma_powm_bound, lemma_powm_powm, lemma_spow_mul,
    lemma_spow_pow, lemma_spow_rebase, lemma_spow_unique, lemma_uprod_coprime, lemma_uprod_pos,
    lemma_uprod_push, powm, uprod,
};
use crate::proofs::{
    ni_poe_prove, ni_poe_verify, ni_poke2_prove, ni_poke2_verify, poe_accepts, poe_challenge,
    poke2_accepts, poke2_alpha, poke2_l,
};

verus! {

/// An RSA accumulator: modulus `n`, quadratic-residue generator `g`,
/// current digest `a_t`, and the private running product `s` of the
/// accumulated primes.
#[derive(Clone)]
pub struct RsaAccumulator {
    lambda: usize,
    g: BigUint,
    n: BigUint,
    a_t: BigUint,
    s: BigUint,
}

impl RsaAccumulator {
    /// The security parameter the accumulator was set up with.
    pub closed spec fn lambda_val(&self) -> nat {
        self.lambda as nat
    }

    /// The modulus.
    pub closed spec fn n_val(&self) -> nat {
        uval(self.n)
    }

    /// The generator.
    pub closed spec fn g_val(&self) -> nat {
        uval(self.g)
    }

    /// The current digest.
    pub closed spec fn a_val(&self) -> nat {
        uval(self.a_t)
    }

    /// The running product of the accumulated primes.
    pub closed spec fn s_val(&self) -> nat {
        uval(self.s)
    }

    /// Well-formedness: the modulus and generator are in range, the
    /// generator is a unit modulo `n`, and the digest equals `g^s mod n` --
    /// the digest invariant that every mutator preserves.
    pub open spec fn wf(&self) -> bool {
        &&& self.n_val() >= 2
        &&& 2 <= self.g_val() < self.n_val()
        &&& gcd(self.g_val(), self.n_val()) == 1
        &&& self.s_val() >= 1
        &&& self.a_val() == powm(self.g_val(), self.s_val(), self.n_val())
    }

    /// The setup parameters are unchanged by an operation.
    pub open spec fn same_setup(&self, other: &Self) -> bool {
        self.lambda_val() == other.lambda_val() && self.n_val() == other.n_val() && self.g_val()
            == other.g_val()
    }

    /// Returns the current public digest.
    pub fn state(&self) -> (r: &BigUint)
        ensures
            uval(*r) == self.a_val(),
    {
        &self.a_t
    }

    /// Assembles an accumulator from a drawn modulus factorization and a
    /// drawn group element: the modulus is `n = p * q`, the generator is
    /// the quadratic residue `g = h^2 mod n`, and the state starts at
    /// `s = 1`, `A = g`. Returns `Some` exactly when the draws are usable:
    /// `p` and `q` are distinct and `g` is at least two and a unit modulo
    /// `n`. This function fixes `setup`'s result for every outcome of its
    /// random draws.
    pub fn assemble(p: &BigUint, q: &BigUint, h: &BigUint, lambda: usize) -> (r: Option<
        RsaAccumulator,
    >)
        requires
            uval(*p) >= 1,
            uval(*q) >= 1,
        ensures
            r is Some <==> (uval(*p) != uval(*q) && powm(uval(*h), 2, uval(*p) * uval(*q)) >= 2
                && gcd(powm(uval(*h), 2, uval(*p) * uval(*q)), uval(*p) * uval(*q)) == 1),
            r is Some ==> r->Some_0.wf() && r->Some_0.lambda_val() == lambda && r->Some_0.s_val()
                == 1 && r->Some_0.n_val() == uval(*p) * uval(*q) && r->Some_0.g_val() == powm(
                uval(*h),
                2,
                uval(*p) * uval(*q),
            ) && r->Some_0.a_val() == r->Some_0.g_val(),
    {
        let n = big_mul(p, q);
        proof {
            assert(uval(n) >= 1) by (nonlinear_arith)
                requires
                    uval(n) == uval(*p) * uval(*q),
                    uval(*p) >= 1,
                    uval(*q) >= 1,
            ;
        }
        let two = big_from_u64(2);
        let g = big_modpow(h, &two, &n);
        if big_eq(p, q) {
            return None;
        }
        if big_lt(&g, &two) {
            return None;
        }
        let (gg, _x, _y) = extended_gcd(&g, &n);
        let one = big_from_u64(1);
        if !big_eq(&gg, &one) {
            return None;
        }
        proof {
            lemma_powm_bound(uval(*h), 2, uval(n));
            assert(powm(uval(g), 1, uval(n)) == uval(g)) by {
                vstd::arithmetic::power::lemma_pow1(uval(g) as int);
                vstd::arithmetic::div_mod::lemma_small_mod(uval(g), uval(n));
            }
        }
        let a_t = g.clone();
        let s = big_from_u64(1);
        Some(RsaAccumulator { lambda, g, n, a_t, s })
    }

    /// Trusted setup: draws two random primes of half the requested bit
    /// length and a random element below their product, and assembles the
    /// accumulator from them: modulus `n = p * q`, generator the quadratic
    /// residue `g = h^2 mod n`, `s = 1`, `A = g`. Whatever the draws,
    /// `assemble` fixes the result: `None` comes exactly when the drawn
    /// generator is unusable (equal primes, `g` below two, or `g` not a
    /// unit modulo `n`). The modulus has exactly `2 * (lambda / 2)` bits,
    /// one less than `lambda` when `lambda` is odd.
    pub fn setup(lambda: usize) -> (r: Option<RsaAccumulator>)
        requires
            lambda >= 4,
        ensures
            r is Some ==> r->Some_0.wf() && r->Some_0.lambda_val() == lambda && r->Some_0.s_val()
                == 1 && r->Some_0.a_val() == r->Some_0.g_val(),
            r is Some ==> vstd::arithmetic::power2::pow2((2 * (lambda / 2) - 1) as nat)
                <= r->Some_0.n_val() < vstd::arithmetic::power2::pow2((2 * (lambda / 2)) as nat),
            r is Some ==> exists|hh: nat|
                r->Some_0.g_val() == #[trigger] powm(hh, 2, r->Some_0.n_val()),
    {
        let half = lambda / 2;
        let p = gen_prime(half);
        let q = gen_prime(half);
        let n = big_mul(&p, &q);
        proof {
            assert(uval(n) >= 9) by (nonlinear_arith)
                requires
                    uval(n) == uval(p) * uval(q),
                    uval(p) >= 3,
                    uval(q) >= 3,
            ;
            let lo = vstd::arithmetic::power2::pow2((half - 1) as nat) + vstd::arithmetic::power2::pow2((half - 2) as nat);
            let hi = vstd::arithmetic::power2::pow2(half as nat);
            let quarter = vstd::arithmetic::power2::pow2((half - 2) as nat);
            vstd::arithmetic::power2::lemma2_to64();
            vstd::arithmetic::power2::lemma_pow2_adds(1, (half - 2) as nat);
            assert(lo == 3 * quarter);
            vstd::arithmetic::power2::lemma_pow2_adds((half - 2) as nat, (half - 2) as nat);
            vstd::arithmetic::power2::lemma_pow2_adds(3, (2 * half - 4) as nat);
            vstd::arithmetic::power2::lemma_pow2_adds(half as nat, half as nat);
            vstd::arithmetic::power2::lemma_pow2_pos((half - 2) as nat);
            // n = p * q lies between (3 * 2^(half-2))^2 = 9 * 2^(2half-4)
            // >= 8 * 2^(2half-4) = 2^(2half-1) and 2^(2half)
            assert((3 * quarter) * (3 * quarter) == 9 * (quarter * quarter)) by (nonlinear_arith);
            assert(lo * lo <= uval(p) * uval(q) < hi * hi) by (nonlinear_arith)
                requires
                    lo >= 1,
                    lo <= uval(p) < hi,
                    lo <= uval(q) < hi,
            ;
            assert(9 * (quarter * quarter) >= 8 * (quarter * quarter)) by (nonlinear_arith)
                requires
                    quarter >= 1,
            ;
            assert((half - 2) + (half - 2) == 2 * half - 4);
            assert(3 + (2 * half - 4) == 2 * (lambda / 2) - 1);
            assert(half + half == 2 * (lambda / 2));
        }
        let h = gen_below(&n);
        let r = Self::assemble(&p, &q, &h, lambda);
        proof {
            if r is Some {
                let acc = r->Some_0;
                assert(acc.g_val() == powm(uval(h), 2, acc.n_val()));
            }
        }
        r
    }

    /// Adds a prime `x` to the set: `s` becomes `s * x` and the digest is
    /// raised to the `x`-th power. Preserves the digest invariant.
    pub fn add(&mut self, x: &BigUint)
        requires
            old(self).wf(),
            uval(*x) >= 1,
        ensures
            final(self).wf(),
            final(self).same_setup(old(self)),
            final(self).s_val() == old(self).s_val() * uval(*x),
            final(self).a_val() == powm(old(self).a_val(), uval(*x), old(self).n_val()),
    {
        self.s = big_mul(&self.s, x);
        self.a_t = big_modpow(&self.a_t, x, &self.n);
        proof {
            lemma_powm_powm(self.g_val(), old(self).s_val(), uval(*x), self.n_val());
            let s0 = old(self).s_val();
            let xv = uval(*x);
            assert(s0 * xv >= 1) by (nonlinear_arith)
                requires
                    s0 >= 1,
                    xv >= 1,
            ;
        }
    }

    /// Membership witness for a prime `x` dividing `s`: `w = g^(s/x) mod n`.
    /// Such a witness always verifies: `w^x == A (mod n)`.
    pub fn mem_wit_create(&self, x: &BigUint) -> (w: BigUint)
        requires
            self.wf(),
            uval(*x) >= 1,
            divides(uval(*x), self.s_val()),
        ensures
            uval(w) == powm(self.g_val(), self.s_val() / uval(*x), self.n_val()),
            powm(uval(w), uval(*x), self.n_val()) == self.a_val(),
    {
        let (quot, _rem) = big_div_rem(&self.s, x);
        proof {
            vstd::arithmetic::div_mod::lemma_fundamental_div_mod_converse(
                self.s_val() as int,
                uval(*x) as int,
                uval(quot) as int,
                uval(_rem) as int,
            );
            lemma_membership_roundtrip(
                self.g_val(),
                self.n_val(),
                self.s_val(),
                uval(*x),
            );
        }
        big_modpow(&self.g, &quot, &self.n)
    }

    /// Membership verification: true exactly when `w^x == A (mod n)`.
    pub fn ver_mem(&self, w: &BigUint, x: &BigUint) -> (r: bool)
        requires
            self.n_val() >= 1,
        ensures
            r == (powm(uval(*w), uval(*x), self.n_val()) == self.a_val()),
    {
        let p = big_modpow(w, x, &self.n);
        big_eq(&p, &self.a_t)
    }

    /// Deletes `x` from the set: `s` becomes `s / x` and the digest is
    /// recomputed from scratch. Returns `None`, leaving the state
    /// untouched, when `x` is one or does not divide `s`.
    pub fn del(&mut self, x: &BigUint) -> (r: Option<()>)
        requires
            old(self).wf(),
            uval(*x) >= 1,
        ensures
            final(self).same_setup(old(self)),
            r is None <==> (uval(*x) == 1 || !divides(uval(*x), old(self).s_val())),
            r is None ==> final(self).s_val() == old(self).s_val()
                && final(self).a_val() == old(self).a_val(),
            r is Some ==> final(self).s_val() == old(self).s_val() / uval(*x)
                && final(self).a_val() == powm(final(self).g_val(), final(self).s_val(), final(self).n_val())
                && final(self).wf(),
    {
        let one = big_from_u64(1);
        proof {
            lemma_divides_iff_mod_zero(uval(*x), old(self).s_val());
        }
        if big_eq(x, &one) {
            return None;
        }
        let (quot, rem) = big_div_rem(&self.s, x);
        proof {
            vstd::arithmetic::div_mod::lemma_fundamental_div_mod_converse(
                self.s_val() as int,
                uval(*x) as int,
                uval(quot) as int,
                uval(rem) as int,
            );
        }
        if !big_is_zero(&rem) {
            return None;
        }
        proof {
            lemma_div_exact(uval(*x), old(self).s_val());
            let s0 = old(self).s_val();
            let xv = uval(*x);
            assert(uval(quot) >= 1) by (nonlinear_arith)
                requires
                    s0 == xv * (s0 / xv),
                    s0 >= 1,
                    uval(quot) == s0 / xv,
            ;
        }
        self.s = quot;
        self.a_t = big_modpow(&self.g, &self.s, &self.n);
        Some(())
    }

    /// Non-membership witness for `x` coprime to `s`: with Bezout
    /// coefficients `a * x + b * s == 1`, the pair `(g^a mod n, b)`.
    pub fn non_mem_wit_create(&self, x: &BigUint) -> (r: (BigUint, BigInt))
        requires
            self.wf(),
            gcd(uval(*x), self.s_val()) == 1,
        ensures
            exists|av: int|
                #[trigger] (av * (uval(*x) as int)) + ival(r.1) * (self.s_val() as int) == 1
                    && is_spow(self.g_val(), av, self.n_val(), uval(r.0)) && uval(r.0)
                    < self.n_val(),
    {
        let (_g, a, b) = extended_gcd(x, &self.s);
        let d = match modpow_uint_int(&self.g, &a, &self.n) {
            Some(v) => v,
            None => {
                proof {
                    assert(false);
                }
                vstd::pervasive::unreached()
            },
        };
        proof {
            assert((ival(a) * (uval(*x) as int)) + ival(b) * (self.s_val() as int) == 1);
        }
        (d, b)
    }

    /// Non-membership verification for a witness `(d, b)`: true exactly
    /// when `d^x * A^b == g (mod n)`, where `A^b` is the signed modular
    /// power; a witness whose inverse does not exist is rejected.
    pub fn ver_non_mem(&self, w: &(BigUint, BigInt), x: &BigUint) -> (r: bool)
        requires
            self.n_val() >= 1,
        ensures
            r == exists|v: nat|
                #[trigger] is_spow(self.a_val(), ival(w.1), self.n_val(), v) && v < self.n_val() && (
                powm(uval(w.0), uval(*x), self.n_val()) * v) % self.n_val() == self.g_val(),
    {
        let a_b = match modpow_uint_int(&self.a_t, &w.1, &self.n) {
            Some(v) => v,
            None => {
                proof {
                    let nn = self.n_val();
                    let bb = ival(w.1);
                    let av = self.a_val();
                    assert forall|v: nat|
                        !(#[trigger] is_spow(av, bb, nn, v) && v < nn && (powm(
                            uval(w.0),
                            uval(*x),
                            nn,
                        ) * v) % nn == self.g_val()) by {
                        if is_spow(av, bb, nn, v) {
                            assert(bb < 0);
                            let u = powm(av, (-bb) as nat, nn);
                            lemma_inverse_coprime(u, nn, v);
                            lemma_gcd_mod_noop(
                                (vstd::arithmetic::power::pow(av as int, (-bb) as nat)) as nat,
                                nn,
                            );
                            lemma_pow_nonneg(av, (-bb) as nat);
                            lemma_coprime_pow_rev(av, (-bb) as nat, nn);
                        }
                    }
                }
                return false;
            },
        };
        let d_x = big_modpow(&w.0, x, &self.n);
        let lhs = big_mod(&big_mul(&d_x, &a_b), &self.n);
        let r = big_eq(&lhs, &self.g);
        proof {
            let nn = self.n_val();
            let bb = ival(w.1);
            let av = self.a_val();
            let v0 = uval(a_b);
            if !r {
                assert forall|v: nat|
                    !(#[trigger] is_spow(av, bb, nn, v) && v < nn && (powm(uval(w.0), uval(*x), nn)
                        * v) % nn == self.g_val()) by {
                    if is_spow(av, bb, nn, v) && v < nn {
                        lemma_spow_unique(av, bb, nn, v, v0);
                    }
                }
            }
        }
        r
    }

    /// Batched addition: multiplies every element into `s`, raises the
    /// digest to their product, and returns a proof of exponentiation that
    /// certifies the move from the old digest to the new one.
    pub fn batch_add(&mut self, xs: &Vec<BigUint>) -> (pi: BigUint)
        requires
            old(self).wf(),
            forall|i: int| 0 <= i < xs@.len() ==> uval(#[trigger] xs@[i]) >= 1,
        ensures
            final(self).wf(),
            final(self).same_setup(old(self)),
            final(self).s_val() == old(self).s_val() * uprod(useq(xs@)),
            final(self).a_val() == powm(old(self).a_val(), uprod(useq(xs@)), old(self).n_val()),
            uval(pi) == powm(
                old(self).a_val(),
                uprod(useq(xs@)) / poe_challenge(
                    uprod(useq(xs@)),
                    old(self).a_val(),
                    final(self).a_val(),
                ),
                old(self).n_val(),
            ),
    {
        let mut x_star = big_from_u64(1);
        let mut i: usize = 0;
        proof {
            assert(useq(xs@).subrange(0, 0) =~= Seq::<nat>::empty());
        }
        while i < xs.len()
            invariant
                0 <= i <= xs@.len(),
                forall|j: int| 0 <= j < xs@.len() ==> uval(#[trigger] xs@[j]) >= 1,
                uval(x_star) == uprod(useq(xs@).subrange(0, i as int)),
                self.s_val() == old(self).s_val() * uprod(useq(xs@).subrange(0, i as int)),
                self.n_val() == old(self).n_val(),
                self.g_val() == old(self).g_val(),
                self.a_val() == old(self).a_val(),
                self.lambda_val() == old(self).lambda_val(),
                old(self).wf(),
            decreases xs@.len() - i,
        {
            x_star = big_mul(&x_star, &xs[i]);
            self.s = big_mul(&self.s, &xs[i]);
            proof {
                let sub = useq(xs@);
                assert(sub.subrange(0, i + 1) =~= sub.subrange(0, i as int).push(sub[i as int]));
                lemma_uprod_push(sub.subrange(0, i as int), sub[i as int]);
                let s0 = old(self).s_val();
                let pp = uprod(sub.subrange(0, i as int));
                let xv = sub[i as int];
                assert((s0 * pp) * xv == s0 * (pp * xv)) by (nonlinear_arith);
            }
            i = i + 1;
        }
        proof {
            assert(useq(xs@).subrange(0, xs@.len() as int) =~= useq(xs@));
        }
        let a_pre = self.a_t.clone();
        self.a_t = big_modpow(&self.a_t, &x_star, &self.n);
        proof {
            lemma_powm_powm(self.g_val(), old(self).s_val(), uval(x_star), self.n_val());
            let s0 = old(self).s_val();
            let pp = uval(x_star);
            lemma_uprod_pos(useq(xs@));
            assert(s0 * pp >= 1) by (nonlinear_arith)
                requires
                    s0 >= 1,
                    pp >= 1,
            ;
        }
        ni_poe_prove(&x_star, &a_pre, &self.a_t, &self.n)
    }

    /// Verifies a batch-add certificate against the current digest: the
    /// proof of exponentiation for `a_pre^(prod xs) == A (mod n)`.
    pub fn ver_batch_add(&self, w: &BigUint, a_pre: &BigUint, xs: &Vec<BigUint>) -> (r: bool)
        requires
            self.n_val() >= 1,
        ensures
            r == poe_accepts(self.n_val(), uprod(useq(xs@)), uval(*a_pre), self.a_val(), uval(*w)),
    {
        let x_star = crate::math::prod_range(xs, 0, xs.len());
        proof {
            assert(useq(xs@).subrange(0, xs@.len() as int) =~= useq(xs@));
        }
        ni_poe_verify(&x_star, a_pre, &self.a_t, w, &self.n)
    }

    /// Batched deletion by Shamir's trick: folds member witnesses that
    /// verify against the current digest into a single combined witness,
    /// divides `s` by every deleted prime, sets the digest to the combined
    /// witness, and certifies the move with a proof of exponentiation for
    /// `A_new^(prod xs) == A_pre (mod n)`. Returns `None` exactly on an
    /// empty input. With the canonical witnesses `g^(s/x_i)` the digest
    /// invariant is preserved as well, and the run is reproducible: digest
    /// and proof are then pinned as functions of the inputs. For witnesses
    /// that verify without being canonical the contract fixes `s`, the
    /// certificate equation and the proof's dependence on the new digest,
    /// but not the digest value itself: the folded witness also depends on
    /// the Bezout coefficients that the extended gcd picks, and any valid
    /// pair yields a correct result.
    pub fn batch_del(&mut self, pairs: &Vec<(BigUint, BigUint)>) -> (r: Option<BigUint>)
        requires
            old(self).wf(),
            forall|i: int|
                0 <= i < pairs@.len() ==> uval(#[trigger] pairs@[i].0) >= 1 && powm(
                    uval(pairs@[i].1),
                    uval(pairs@[i].0),
                    old(self).n_val(),
                ) == old(self).a_val(),
            divides(uprod(useq(firsts(pairs@))), old(self).s_val()),
            forall|i: int, j: int|
                0 <= i < j < pairs@.len() ==> gcd(
                    uval(#[trigger] pairs@[i].0),
                    uval(#[trigger] pairs@[j].0),
                ) == 1,
        ensures
            final(self).same_setup(old(self)),
            r is None <==> pairs@.len() == 0,
            r is None ==> final(self).s_val() == old(self).s_val() && final(self).a_val() == old(
                self,
            ).a_val(),
            r is Some ==> final(self).s_val() == old(self).s_val() / uprod(useq(firsts(pairs@)))
                && powm(final(self).a_val(), uprod(useq(firsts(pairs@))), old(self).n_val()) == old(
                self,
            ).a_val() && uval(r->Some_0) == powm(
                final(self).a_val(),
                uprod(useq(firsts(pairs@))) / poe_challenge(
                    uprod(useq(firsts(pairs@))),
                    final(self).a_val(),
                    old(self).a_val(),
                ),
                old(self).n_val(),
            ),
            r is Some && canonical_pairs(
                pairs@,
                old(self).g_val(),
                old(self).s_val(),
                old(self).n_val(),
            ) ==> final(self).a_val() == powm(
                final(self).g_val(),
                final(self).s_val(),
                final(self).n_val(),
            ) && final(self).wf(),
    {
        if pairs.len() == 0 {
            return None;
        }
        let ghost px = useq(firsts(pairs@));
        let ghost s0 = old(self).s_val();
        let ghost gv = old(self).g_val();
        let ghost nn = old(self).n_val();
        let a_pre = self.a_t.clone();
        let mut x_star = pairs[0].0.clone();
        let mut w_acc = pairs[0].1.clone();
        proof {
            assert(px.subrange(0, 1) =~= Seq::<nat>::empty().push(px[0]));
            lemma_uprod_push(Seq::<nat>::empty(), px[0]);
            assert(uprod(px.subrange(0, 1)) == 1 * px[0]);
            // the first prime divides s, since the whole product does
            assert(px =~= px.subrange(0, 1) + px.subrange(1, px.len() as int));
            crate::nt::lemma_uprod_concat(px.subrange(0, 1), px.subrange(1, px.len() as int));
            assert(divides(px[0], uprod(px)));
            lemma_divides_trans(px[0], uprod(px), s0);
        }
        let (q0, _r0) = big_div_rem(&self.s, &pairs[0].0);
        proof {
            vstd::arithmetic::div_mod::lemma_fundamental_div_mod_converse(
                s0 as int,
                uval(pairs@[0].0) as int,
                uval(q0) as int,
                uval(_r0) as int,
            );
        }
        self.s = q0;
        let mut i: usize = 1;
        while i < pairs.len()
            invariant
                1 <= i <= pairs@.len(),
                px == useq(firsts(pairs@)),
                s0 == old(self).s_val(),
                gv == old(self).g_val(),
                nn == old(self).n_val(),
                old(self).wf(),
                forall|j: int|
                    0 <= j < pairs@.len() ==> uval(#[trigger] pairs@[j].0) >= 1 && powm(
                        uval(pairs@[j].1),
                        uval(pairs@[j].0),
                        nn,
                    ) == old(self).a_val(),
                divides(uprod(px), s0),
                forall|j: int, k: int|
                    0 <= j < k < pairs@.len() ==> gcd(
                        uval(#[trigger] pairs@[j].0),
                        uval(#[trigger] pairs@[k].0),
                    ) == 1,
                self.n_val() == nn,
                self.g_val() == gv,
                self.a_val() == old(self).a_val(),
                self.lambda_val() == old(self).lambda_val(),
                uval(a_pre) == old(self).a_val(),
                uval(x_star) == uprod(px.subrange(0, i as int)),
                uval(x_star) >= 1,
                self.s_val() == s0 / uprod(px.subrange(0, i as int)),
                powm(uval(w_acc), uprod(px.subrange(0, i as int)), nn) == old(self).a_val(),
                canonical_pairs(pairs@, gv, s0, nn) ==> uval(w_acc) == powm(
                    gv,
                    s0 / uprod(px.subrange(0, i as int)),
                    nn,
                ),
            decreases pairs@.len() - i,
        {
            let ghost pp = uprod(px.subrange(0, i as int));
            let ghost xv = uval(pairs@[i as int].0);
            proof {
                // the prefix product and the next prime are coprime
                assert forall|j: int| 0 <= j < i implies gcd(
                    #[trigger] px.subrange(0, i as int)[j],
                    xv,
                ) == 1 by {
                    assert(px.subrange(0, i as int)[j] == uval(pairs@[j].0));
                }
                lemma_uprod_coprime(px.subrange(0, i as int), xv);
                // prefix product times the next prime divides s: the whole
                // product does, and it splits as prefix + rest
                assert(px =~= px.subrange(0, i + 1) + px.subrange(i + 1, px.len() as int));
                assert(px.subrange(0, i + 1) =~= px.subrange(0, i as int).push(px[i as int]));
                lemma_uprod_push(px.subrange(0, i as int), px[i as int]);
                crate::nt::lemma_uprod_concat(
                    px.subrange(0, i + 1),
                    px.subrange(i + 1, px.len() as int),
                );
                assert(uprod(px) == (pp * xv) * uprod(px.subrange(i + 1, px.len() as int)));
                assert(divides(pp * xv, uprod(px)));
                lemma_divides_trans(pp * xv, uprod(px), s0);
                lemma_nested_div(s0, pp, xv);
                // both running witnesses verify against the old digest,
                // which is a unit, so both are units themselves
                crate::nt::lemma_powm_coprime(gv, s0, nn);
                crate::nt::lemma_powm_coprime_rev(uval(w_acc), pp, nn);
                crate::nt::lemma_powm_coprime_rev(uval(pairs@[i as int].1), xv, nn);
            }
            let w_new = match shamir_trick(&w_acc, &pairs[i].1, &x_star, &pairs[i].0, &self.n) {
                Some(v) => v,
                None => {
                    proof {
                        assert(false);
                    }
                    vstd::pervasive::unreached()
                },
            };
            proof {
                // the combined witness again verifies against the old digest
                assert(powm(uval(w_new), pp * xv, nn) == old(self).a_val());
                // and with canonical inputs it is again canonical
                if canonical_pairs(pairs@, gv, s0, nn) {
                    assert(uval(pairs@[i as int].1) == powm(gv, s0 / xv, nn));
                    assert(uval(w_new) == powm(gv, s0 / (pp * xv), nn));
                }
            }
            w_acc = w_new;
            x_star = big_mul(&x_star, &pairs[i].0);
            let (qi, _ri) = big_div_rem(&self.s, &pairs[i].0);
            proof {
                // s / pp divided by xv is s / (pp * xv)
                vstd::arithmetic::div_mod::lemma_fundamental_div_mod_converse(
                    (s0 / pp) as int,
                    xv as int,
                    uval(qi) as int,
                    uval(_ri) as int,
                );
                assert(uval(qi) == (s0 / pp) / xv);
                assert(uval(qi) == s0 / (pp * xv));
            }
            self.s = qi;
            i = i + 1;
        }
        proof {
            assert(px.subrange(0, px.len() as int) =~= px);
            // the new product is at least one, so the new state stays sound
            let xp = uprod(px);
            lemma_div_exact(xp, s0);
            assert(xp >= 1 && s0 / xp >= 1) by (nonlinear_arith)
                requires
                    s0 == xp * (s0 / xp),
                    s0 >= 1,
            ;
        }
        self.a_t = w_acc;
        let pi = ni_poe_prove(&x_star, &self.a_t, &a_pre, &self.n);
        Some(pi)
    }

    /// Verifies a batch-del certificate against the current digest: the
    /// proof of exponentiation for `A^(prod xs) == a_pre (mod n)`.
    pub fn ver_batch_del(&self, w: &BigUint, a_pre: &BigUint, xs: &Vec<BigUint>) -> (r: bool)
        requires
            self.n_val() >= 1,
        ensures
            r == poe_accepts(self.n_val(), uprod(useq(xs@)), self.a_val(), uval(*a_pre), uval(*w)),
    {
        let x_star = crate::math::prod_range(xs, 0, xs.len());
        proof {
            assert(useq(xs@).subrange(0, xs@.len() as int) =~= useq(xs@));
        }
        ni_poe_verify(&x_star, &self.a_t, a_pre, w, &self.n)
    }

    /// Efficient deletion with a membership witness: when `w` verifies for
    /// `x`, the digest becomes `w` and `s` is divided by `x`; the state is
    /// untouched otherwise. With the canonical witness `g^(s/x)` this
    /// preserves the digest invariant.
    pub fn del_w_mem(&mut self, w: &BigUint, x: &BigUint) -> (r: Option<()>)
        requires
            old(self).wf(),
            uval(*x) >= 1,
        ensures
            final(self).same_setup(old(self)),
            r is None <==> powm(uval(*w), uval(*x), old(self).n_val()) != old(self).a_val(),
            r is None ==> final(self).s_val() == old(self).s_val() && final(self).a_val() == old(
                self,
            ).a_val(),
            r is Some ==> final(self).s_val() == old(self).s_val() / uval(*x) && final(self).a_val()
                == uval(*w),
            divides(uval(*x), old(self).s_val()) && uval(*w) == powm(
                old(self).g_val(),
                old(self).s_val() / uval(*x),
                old(self).n_val(),
            ) ==> r is Some && final(self).wf(),
    {
        proof {
            if divides(uval(*x), old(self).s_val()) && uval(*w) == powm(
                old(self).g_val(),
                old(self).s_val() / uval(*x),
                old(self).n_val(),
            ) {
                lemma_membership_roundtrip(
                    old(self).g_val(),
                    old(self).n_val(),
                    old(self).s_val(),
                    uval(*x),
                );
                lemma_div_exact(uval(*x), old(self).s_val());
                let s0 = old(self).s_val();
                let xv = uval(*x);
                assert(s0 / xv >= 1) by (nonlinear_arith)
                    requires
                        s0 == xv * (s0 / xv),
                        s0 >= 1,
                ;
            }
        }
        if !self.ver_mem(w, x) {
            return None;
        }
        let (quot, _rem) = big_div_rem(&self.s, x);
        proof {
            vstd::arithmetic::div_mod::lemma_fundamental_div_mod_converse(
                self.s_val() as int,
                uval(*x) as int,
                uval(quot) as int,
                uval(_rem) as int,
            );
        }
        self.s = quot;
        self.a_t = w.clone();
        Some(())
    }

    /// Witnesses for every member at once, by the divide-and-conquer root
    /// factor: entry `i` is `g` raised to the product of all entries of
    /// `s_list` but the `i`-th.
    pub fn create_all_mem_wit(&self, s_list: &Vec<BigUint>) -> (r: Vec<BigUint>)
        requires
            self.wf(),
        ensures
            r@.len() == s_list@.len(),
            forall|i: int|
                0 <= i < r@.len() ==> uval(r@[i]) == powm(
                    self.g_val(),
                    uprod(useq(s_list@).remove(i)),
                    self.n_val(),
                ),
    {
        root_factor(&self.g, s_list, &self.n)
    }

    /// Aggregates two membership witnesses for coprime `x` and `y` into one
    /// witness for `x * y`, with a proof of exponentiation for it.
    pub fn agg_mem_wit(&self, w_x: &BigUint, w_y: &BigUint, x: &BigUint, y: &BigUint) -> (r: (
        BigUint,
        BigUint,
    ))
        requires
            self.wf(),
            uval(*x) >= 1,
            uval(*y) >= 1,
            gcd(uval(*x), uval(*y)) == 1,
            powm(uval(*w_x), uval(*x), self.n_val()) == self.a_val(),
            powm(uval(*w_y), uval(*y), self.n_val()) == self.a_val(),
        ensures
            powm(uval(r.0), uval(*x) * uval(*y), self.n_val()) == self.a_val(),
            uval(r.1) == powm(
                uval(r.0),
                (uval(*x) * uval(*y)) / poe_challenge(
                    uval(*x) * uval(*y),
                    uval(r.0),
                    self.a_val(),
                ),
                self.n_val(),
            ),
    {
        proof {
            crate::nt::lemma_powm_coprime(self.g_val(), self.s_val(), self.n_val());
            crate::nt::lemma_powm_coprime_rev(uval(*w_x), uval(*x), self.n_val());
            crate::nt::lemma_powm_coprime_rev(uval(*w_y), uval(*y), self.n_val());
        }
        let w_xy = match shamir_trick(w_x, w_y, x, y, &self.n) {
            Some(v) => v,
            None => {
                proof {
                    assert(false);
                }
                vstd::pervasive::unreached()
            },
        };
        let xy = big_mul(x, y);
        let pi = ni_poe_prove(&xy, &w_xy, &self.a_t, &self.n);
        (w_xy, pi)
    }

    /// Verifies an aggregated membership witness: the proof of
    /// exponentiation for `w_xy^(x*y) == A (mod n)`.
    pub fn ver_agg_mem_wit(&self, w_xy: &BigUint, pi: &BigUint, x: &BigUint, y: &BigUint) -> (r:
        bool)
        requires
            self.n_val() >= 1,
        ensures
            r == poe_accepts(
                self.n_val(),
                uval(*x) * uval(*y),
                uval(*w_xy),
                self.a_val(),
                uval(*pi),
            ),
    {
        let xy = big_mul(x, y);
        ni_poe_verify(&xy, w_xy, &self.a_t, pi, &self.n)
    }

    /// A membership witness together with a proof of exponentiation for it.
    pub fn mem_wit_create_star(&self, x: &BigUint) -> (r: (BigUint, BigUint))
        requires
            self.wf(),
            uval(*x) >= 1,
            divides(uval(*x), self.s_val()),
        ensures
            uval(r.0) == powm(self.g_val(), self.s_val() / uval(*x), self.n_val()),
            powm(uval(r.0), uval(*x), self.n_val()) == self.a_val(),
            uval(r.1) == powm(
                uval(r.0),
                uval(*x) / poe_challenge(uval(*x), uval(r.0), self.a_val()),
                self.n_val(),
            ),
    {
        let w = self.mem_wit_create(x);
        let p = ni_poe_prove(x, &w, &self.a_t, &self.n);
        (w, p)
    }

    /// Verifies a starred membership witness.
    pub fn ver_mem_star(&self, x: &BigUint, pi: &(BigUint, BigUint)) -> (r: bool)
        requires
            self.n_val() >= 1,
        ensures
            r == poe_accepts(self.n_val(), uval(*x), uval(pi.0), self.a_val(), uval(pi.1)),
    {
        ni_poe_verify(x, &pi.0, &self.a_t, &pi.1, &self.n)
    }

    /// Cross-accumulator membership witness: the product of the two
    /// witnesses modulo this accumulator's modulus.
    pub fn mem_wit_x(
        &self,
        _other: &BigUint,
        w_x: &BigUint,
        w_y: &BigUint,
        _x: &BigUint,
        _y: &BigUint,
    ) -> (r: BigUint)
        requires
            self.wf(),
        ensures
            uval(r) == (uval(*w_x) * uval(*w_y)) % self.n_val(),
    {
        big_mod(&big_mul(w_x, w_y), &self.n)
    }

    /// Verifies a cross-accumulator membership witness: `x` and `y` must be
    /// coprime and `pi^(x*y) == A^y * other^x (mod n)`.
    pub fn ver_mem_x(&self, other: &BigUint, pi: &BigUint, x: &BigUint, y: &BigUint) -> (r: bool)
        requires
            self.n_val() >= 1,
        ensures
            r == (gcd(uval(*x), uval(*y)) == 1 && powm(uval(*pi), uval(*x) * uval(*y), self.n_val())
                == (powm(self.a_val(), uval(*y), self.n_val()) * powm(
                uval(*other),
                uval(*x),
                self.n_val(),
            )) % self.n_val()),
    {
        let (q, _xc, _yc) = extended_gcd(x, y);
        let one = big_from_u64(1);
        if !big_eq(&q, &one) {
            return false;
        }
        let rhs_a = big_modpow(&self.a_t, y, &self.n);
        let rhs_b = big_modpow(other, x, &self.n);
        let rhs = big_mod(&big_mul(&rhs_a, &rhs_b), &self.n);
        let xy = big_mul(x, y);
        let lhs = big_modpow(pi, &xy, &self.n);
        big_eq(&lhs, &rhs)
    }

    /// Starred non-membership witness: with Bezout coefficients
    /// `a * x + b * s == 1`, the tuple `(d, v, pi_d, pi_g)` where
    /// `d = g^a`, `v = A^b`, `pi_d` is the honest proof of knowledge of `b`
    /// with `A^b == v` (commitment `g^b`, residue `b mod l`, quotient the
    /// signed power of `A * g^alpha`), and `pi_g` is the honest
    /// exponentiation quotient for `d^x == g * v^(-1) (mod n)`. Such a
    /// tuple always passes `ver_non_mem_star`; see
    /// `lemma_non_membership_star_roundtrip`.
    pub fn non_mem_wit_create_star(&self, x: &BigUint) -> (r: (
        BigUint,
        BigUint,
        (BigUint, BigUint, BigInt),
        BigUint,
    ))
        requires
            self.wf(),
            gcd(uval(*x), self.s_val()) == 1,
        ensures
            exists|av: int, bv: int|
                #[trigger] (av * (uval(*x) as int)) + #[trigger] (bv * (self.s_val() as int)) == 1
                    && is_spow(self.g_val(), av, self.n_val(), uval(r.0)) && is_spow(
                    self.a_val(),
                    bv,
                    self.n_val(),
                    uval(r.1),
                ) && uval(r.0) < self.n_val() && uval(r.1) < self.n_val() && is_spow(
                    self.g_val(),
                    bv,
                    self.n_val(),
                    uval(r.2.0),
                ) && uval(r.2.0) < self.n_val() && ival(r.2.2) == bv % (poke2_l(
                    self.a_val(),
                    uval(r.1),
                    uval(r.2.0),
                ) as int) && is_spow(
                    (self.a_val() * powm(
                        self.g_val(),
                        poke2_alpha(self.a_val(), uval(r.1), uval(r.2.0)),
                        self.n_val(),
                    )) % self.n_val(),
                    bv / (poke2_l(self.a_val(), uval(r.1), uval(r.2.0)) as int),
                    self.n_val(),
                    uval(r.2.1),
                ),
            exists|vi: nat|
                #[trigger] is_spow(uval(r.1), -1int, self.n_val(), vi) && uval(r.3) == powm(
                    uval(r.0),
                    uval(*x) / poe_challenge(
                        uval(*x),
                        uval(r.0),
                        (self.g_val() * vi) % self.n_val(),
                    ),
                    self.n_val(),
                ),
    {
        proof {
            crate::nt::lemma_powm_coprime(self.g_val(), self.s_val(), self.n_val());
        }
        let (_g, a, b) = extended_gcd(x, &self.s);
        let d = match modpow_uint_int(&self.g, &a, &self.n) {
            Some(v) => v,
            None => {
                proof {
                    assert(false);
                }
                vstd::pervasive::unreached()
            },
        };
        let v = match modpow_uint_int(&self.a_t, &b, &self.n) {
            Some(vv) => vv,
            None => {
                proof {
                    assert(false);
                }
                vstd::pervasive::unreached()
            },
        };
        let pi_d = ni_poke2_prove(&b, &self.a_t, &v, &self.n, &self.g);
        proof {
            // v is a unit: either a power of the unit A, or an inverse
            if ival(b) >= 0 {
                crate::nt::lemma_powm_coprime(self.a_val(), ival(b) as nat, self.n_val());
            } else {
                lemma_inverse_coprime(
                    powm(self.a_val(), (-ival(b)) as nat, self.n_val()),
                    self.n_val(),
                    uval(v),
                );
                crate::nt::lemma_powm_coprime(self.a_val(), (-ival(b)) as nat, self.n_val());
                // gcd(powm(A, -b, n), n) == 1 and v * powm(A,-b,n) == 1 mod n
                assert((uval(v) * powm(self.a_val(), (-ival(b)) as nat, self.n_val()))
                    % self.n_val() == 1nat % self.n_val());
                lemma_inverse_coprime_flip(
                    uval(v),
                    powm(self.a_val(), (-ival(b)) as nat, self.n_val()),
                    self.n_val(),
                );
            }
        }
        let vinv = match mod_inverse(&v, &self.n) {
            Some(vv) => vv,
            None => {
                proof {
                    assert(false);
                }
                vstd::pervasive::unreached()
            },
        };
        let k = big_mod(&big_mul(&self.g, &vinv), &self.n);
        let pi_g = ni_poe_prove(x, &d, &k, &self.n);
        proof {
            assert((ival(a) * (uval(*x) as int)) + ival(b) * (self.s_val() as int) == 1);
            lemma_inverse_to_spow(uval(v), self.n_val(), uval(vinv));
            assert(is_spow(uval(v), -1int, self.n_val(), uval(vinv)) && uval(pi_g) == powm(
                uval(d),
                uval(*x) / poe_challenge(
                    uval(*x),
                    uval(d),
                    (self.g_val() * uval(vinv)) % self.n_val(),
                ),
                self.n_val(),
            ));
        }
        (d, v, pi_d, pi_g)
    }

    /// Verifies a starred non-membership witness: the proof of knowledge of
    /// exponent for `(A, v)` and the proof of exponentiation for
    /// `d^x == g * v^(-1) (mod n)` must both pass; a `v` with no inverse is
    /// rejected.
    pub fn ver_non_mem_star(&self, x: &BigUint, pi: &(
        BigUint,
        BigUint,
        (BigUint, BigUint, BigInt),
        BigUint,
    )) -> (r: bool)
        requires
            self.n_val() >= 1,
        ensures
            r == (poke2_accepts(
                self.n_val(),
                self.g_val(),
                self.a_val(),
                uval(pi.1),
                uval(pi.2.0),
                uval(pi.2.1),
                ival(pi.2.2),
            ) && exists|vi: nat|
                #[trigger] is_spow(uval(pi.1), -1int, self.n_val(), vi) && poe_accepts(
                    self.n_val(),
                    uval(*x),
                    uval(pi.0),
                    (self.g_val() * vi) % self.n_val(),
                    uval(pi.3),
                )),
    {
        if !ni_poke2_verify(&self.a_t, &pi.1, &pi.2, &self.n, &self.g) {
            proof {
                assert(!poke2_accepts(
                    self.n_val(),
                    self.g_val(),
                    self.a_val(),
                    uval(pi.1),
                    uval(pi.2.0),
                    uval(pi.2.1),
                    ival(pi.2.2),
                ));
            }
            return false;
        }
        let vinv = match mod_inverse(&pi.1, &self.n) {
            Some(vv) => vv,
            None => {
                proof {
                    // no inverse exists, so no witness satisfies the equation
                    assert forall|vi: nat| !(#[trigger] is_spow(
                        uval(pi.1),
                        -1int,
                        self.n_val(),
                        vi,
                    ) && poe_accepts(
                        self.n_val(),
                        uval(*x),
                        uval(pi.0),
                        (self.g_val() * vi) % self.n_val(),
                        uval(pi.3),
                    )) by {
                        if is_spow(uval(pi.1), -1int, self.n_val(), vi) {
                            lemma_spow_one_inverse(uval(pi.1), self.n_val(), vi);
                        }
                    }
                }
                return false;
            },
        };
        proof {
            lemma_inverse_to_spow(uval(pi.1), self.n_val(), uval(vinv));
        }
        let k = big_mod(&big_mul(&self.g, &vinv), &self.n);
        let res = ni_poe_verify(x, &pi.0, &k, &pi.3, &self.n);
        proof {
            let nn = self.n_val();
            let vv = uval(pi.1);
            let vi0 = uval(vinv);
            if res {
                assert(is_spow(vv, -1int, nn, vi0) && poe_accepts(
                    nn,
                    uval(*x),
                    uval(pi.0),
                    (self.g_val() * vi0) % nn,
                    uval(pi.3),
                ));
            } else {
                assert forall|vi: nat| !(#[trigger] is_spow(vv, -1int, nn, vi) && poe_accepts(
                    nn,
                    uval(*x),
                    uval(pi.0),
                    (self.g_val() * vi) % nn,
                    uval(pi.3),
                )) by {
                    if is_spow(vv, -1int, nn, vi) {
                        lemma_spow_unique(vv, -1int, nn, vi, vi0);
                    }
                }
            }
        }
        res
    }
}

/// The firsts of a sequence of pairs.
pub open spec fn firsts(s: Seq<(BigUint, BigUint)>) -> Seq<BigUint> {
    s.map_values(|p: (BigUint, BigUint)| p.0)
}

/// Every witness in `pairs` is the canonical one for its prime: `g^(s/x)`.
pub open spec fn canonical_pairs(pairs: Seq<(BigUint, BigUint)>, g: nat, s: nat, n: nat) -> bool {
    forall|i: int|
        0 <= i < pairs.len() ==> uval(#[trigger] pairs[i].1) == powm(g, s / uval(pairs[i].0), n)
}

/// An inverse relation read in the other direction: if `r * u == 1 (mod n)`
/// then `u` also inverts `r`, so `r` is a unit.
pub proof fn lemma_inverse_coprime_flip(r: nat, u: nat, n: nat)
    requires
        n >= 1,
        (r * u) % n == 1nat % n,
    ensures
        gcd(r, n) == 1,
{
    assert(u * r == r * u);
    lemma_inverse_coprime(r, n, u);
}

/// An inverse of `v` is exactly a signed power of `v` with exponent `-1`.
pub proof fn lemma_inverse_to_spow(v: nat, n: nat, vi: nat)
    requires
        n >= 1,
        vi < n,
        (vi * v) % n == 1nat % n,
    ensures
        is_spow(v, -1int, n, vi),
{
    assert(powm(v, 1, n) == v % n) by {
        vstd::arithmetic::power::lemma_pow1(v as int);
    }
    assert((vi * (v % n)) % n == (vi * v) % n) by {
        vstd::arithmetic::div_mod::lemma_mul_mod_noop_right(vi as int, v as int, n as int);
    }
}

/// Conversely, a signed power with exponent `-1` certifies an inverse, so
/// its base must be a unit.
pub proof fn lemma_spow_one_inverse(v: nat, n: nat, vi: nat)
    requires
        n >= 1,
        is_spow(v, -1int, n, vi),
    ensures
        gcd(v, n) == 1,
{
    assert(powm(v, 1, n) == v % n) by {
        vstd::arithmetic::power::lemma_pow1(v as int);
    }
    assert((vi * v) % n == (vi * (v % n)) % n) by {
        vstd::arithmetic::div_mod::lemma_mul_mod_noop_right(vi as int, v as int, n as int);
    }
    lemma_inverse_coprime(v, n, vi);
}

/// Membership round-trip: for any `x` dividing the accumulated product `s`,
/// the canonical witness `g^(s/x)` satisfies the verifier's equation
/// `w^x == g^s (mod n)`.
pub proof fn lemma_membership_roundtrip(g: nat, n: nat, s: nat, x: nat)
    requires
        n >= 1,
        x >= 1,
        divides(x, s),
    ensures
        powm(powm(g, s / x, n), x, n) == powm(g, s, n),
{
    lemma_powm_powm(g, s / x, x, n);
    lemma_div_exact(x, s);
    assert((s / x) * x == s) by (nonlinear_arith)
        requires
            s == x * (s / x),
    ;
}

/// Non-membership round-trip: if `a * x + b * s == 1` (so `x` is coprime to
/// `s`), `d` is the signed power `g^a mod n`, and `v` is the signed power
/// `A^b mod n` against the digest `A = g^s mod n`, then the verifier's
/// equation `d^x * v == g (mod n)` holds.
pub proof fn lemma_non_membership_roundtrip(
    g: nat,
    n: nat,
    s: nat,
    x: nat,
    a: int,
    b: int,
    d: nat,
    v: nat,
)
    requires
        n >= 1,
        g < n,
        gcd(g, n) == 1,
        a * (x as int) + b * (s as int) == 1,
        is_spow(g, a, n, d),
        is_spow(powm(g, s, n), b, n, v),
    ensures
        (powm(d, x, n) * v) % n == g % n,
{
    let av = powm(g, s, n);
    let dx = powm(d, x, n);
    lemma_spow_pow(g, a, n, d, x);
    lemma_spow_rebase(g, s, av, n, b, v);
    assert(is_spow(g, s * b, n, v));
    lemma_spow_mul(g, a * (x as int), s * b, n, dx, v);
    assert(a * (x as int) + s * b == 1) by (nonlinear_arith)
        requires
            a * (x as int) + b * (s as int) == 1,
    ;
    assert(is_spow(g, 1int, n, (dx * v) % n));
    assert(powm(g, 1, n) == g % n) by {
        vstd::arithmetic::power::lemma_pow1(g as int);
    }
}


/// Batch-add certificate law: the proof returned by a batched addition
/// passes batch-add verification against the post-state digest
/// `A == a_pre^(prod xs) mod n`.
pub proof fn lemma_batch_add_certificate(n: nat, a_pre: nat, xs: Seq<nat>, q: nat)
    requires
        n >= 1,
        q == powm(
            a_pre,
            uprod(xs) / poe_challenge(uprod(xs), a_pre, powm(a_pre, uprod(xs), n)),
            n,
        ),
    ensures
        poe_accepts(n, uprod(xs), a_pre, powm(a_pre, uprod(xs), n), q),
{
    crate::proofs::lemma_poe_certificate(uprod(xs), a_pre, powm(a_pre, uprod(xs), n), n, q);
}

/// Batch-del certificate law: whenever a batched deletion moved the digest
/// from `a_pre` to an `a_new` with `a_new^(prod xs) == a_pre (mod n)` --
/// which `batch_del` ensures for any witnesses that verify against
/// `a_pre` -- the returned proof passes batch-del verification against the
/// pre-state digest.
pub proof fn lemma_batch_del_certificate(n: nat, a_new: nat, a_pre: nat, xs: Seq<nat>, q: nat)
    requires
        n >= 1,
        powm(a_new, uprod(xs), n) == a_pre,
        q == powm(a_new, uprod(xs) / poe_challenge(uprod(xs), a_new, a_pre), n),
    ensures
        poe_accepts(n, uprod(xs), a_new, a_pre, q),
{
    crate::proofs::lemma_poe_certificate(uprod(xs), a_new, a_pre, n, q);
}

/// Root-factor witnesses are the canonical ones: when the entries of `xs`
/// multiply to the accumulated product `s`, the witness that
/// `create_all_mem_wit` returns for entry `i` -- the generator raised to
/// the product of the other entries -- carries the exponent `s / xs[i]`,
/// so it also meets the canonical premise of a batched deletion.
pub proof fn lemma_root_factor_witness_canonical(xs: Seq<nat>, s: nat, i: int)
    requires
        0 <= i < xs.len(),
        uprod(xs) == s,
        xs[i] >= 1,
    ensures
        divides(xs[i], s),
        uprod(xs.remove(i)) == s / xs[i],
{
    crate::nt::lemma_uprod_remove(xs, i);
    assert(divides(xs[i], s));
    vstd::arithmetic::div_mod::lemma_div_multiples_vanish(
        uprod(xs.remove(i)) as int,
        xs[i] as int,
    );
}

/// Aggregation soundness law: an aggregated witness `w_xy` with
/// `w_xy^(x*y) == A (mod n)` together with its honest proof of
/// exponentiation passes aggregated verification.
pub proof fn lemma_aggregation_certificate(n: nat, a: nat, w_xy: nat, xy: nat, q: nat)
    requires
        n >= 1,
        powm(w_xy, xy, n) == a,
        q == powm(w_xy, xy / poe_challenge(xy, w_xy, a), n),
    ensures
        poe_accepts(n, xy, w_xy, a, q),
{
    crate::proofs::lemma_poe_certificate(xy, w_xy, a, n, q);
}

/// Witness reuse after an unrelated deletion: when both `x` and `y` are
/// members (their product divides `s`), deleting `y` keeps `x` a member,
/// and the witness recomputed against the new digest `g^(s/y)` verifies.
/// An old witness is checked against the old digest only; it goes stale.
pub proof fn lemma_witness_after_unrelated_deletion(g: nat, n: nat, s: nat, x: nat, y: nat)
    requires
        n >= 1,
        x >= 1,
        y >= 1,
        divides(x * y, s),
    ensures
        divides(x, s / y),
        powm(powm(g, (s / y) / x, n), x, n) == powm(g, s / y, n),
{
    assert(y * x == x * y);
    assert(divides(y * x, s));
    lemma_nested_div(s, y, x);
    lemma_membership_roundtrip(g, n, s / y, x);
}

/// Cross-accumulator membership: when `w_x` witnesses `x` against the
/// digest `a1` and `w_y` witnesses `y` against the digest `a2`, both over
/// the same modulus, their product passes cross verification:
/// `(w_x * w_y)^(x*y) == a1^y * a2^x (mod n)`.
pub proof fn lemma_cross_membership(n: nat, a1: nat, a2: nat, wx: nat, wy: nat, x: nat, y: nat)
    requires
        n >= 1,
        powm(wx, x, n) == a1,
        powm(wy, y, n) == a2,
    ensures
        powm((wx * wy) % n, x * y, n) == (powm(a1, y, n) * powm(a2, x, n)) % n,
{
    let ni = n as int;
    let xy = x * y;
    lemma_pow_nonneg(wx, xy);
    lemma_pow_nonneg(wy, xy);
    assert(powm((wx * wy) % n, xy, n) == powm(wx * wy, xy, n)) by {
        vstd::arithmetic::power::lemma_pow_mod_noop((wx * wy) as int, xy, ni);
    }
    assert(vstd::arithmetic::power::pow((wx * wy) as int, xy) == vstd::arithmetic::power::pow(
        wx as int,
        xy,
    ) * vstd::arithmetic::power::pow(wy as int, xy)) by {
        vstd::arithmetic::power::lemma_pow_distributes(wx as int, wy as int, xy);
    }
    assert((vstd::arithmetic::power::pow(wx as int, xy) * vstd::arithmetic::power::pow(
        wy as int,
        xy,
    )) % ni == ((powm(wx, xy, n) as int) * (powm(wy, xy, n) as int)) % ni) by {
        vstd::arithmetic::div_mod::lemma_mul_mod_noop_general(
            vstd::arithmetic::power::pow(wx as int, xy),
            vstd::arithmetic::power::pow(wy as int, xy),
            ni,
        );
        vstd::arithmetic::div_mod::lemma_mul_mod_noop_general(
            powm(wx, xy, n) as int,
            powm(wy, xy, n) as int,
            ni,
        );
    }
    lemma_powm_powm(wx, x, y, n);
    lemma_powm_powm(wy, y, x, n);
    assert(y * x == x * y) by (nonlinear_arith);
}


/// Non-membership round-trip, completed: for `x` coprime to `s` and a
/// Bezout witness `(d, b)` as produced against the digest `g^s mod n`,
/// some signed power `v` of the digest exists and the verifier's equation
/// `d^x * v == g (mod n)` holds for it, so verification succeeds.
pub proof fn lemma_non_membership_verifies(g: nat, n: nat, s: nat, x: nat, a: int, b: int, d: nat)
    requires
        n >= 1,
        g < n,
        gcd(g, n) == 1,
        a * (x as int) + b * (s as int) == 1,
        is_spow(g, a, n, d),
    ensures
        exists|v: nat|
            #[trigger] is_spow(powm(g, s, n), b, n, v) && v < n && (powm(d, x, n) * v) % n == g,
{
    let av = powm(g, s, n);
    if b >= 0 {
        let v = powm(av, b as nat, n);
        lemma_powm_bound(av, b as nat, n);
        lemma_non_membership_roundtrip(g, n, s, x, a, b, d, v);
        vstd::arithmetic::div_mod::lemma_small_mod(g, n);
        assert(is_spow(av, b, n, v) && v < n && (powm(d, x, n) * v) % n == g);
    } else {
        crate::nt::lemma_powm_coprime(g, s, n);
        crate::nt::lemma_powm_coprime(av, (-b) as nat, n);
        lemma_inverse_exists(powm(av, (-b) as nat, n), n);
        let v = choose|v: nat|
            v < n && (#[trigger] (v * powm(av, (-b) as nat, n))) % n == 1nat % n;
        assert(is_spow(av, b, n, v));
        lemma_non_membership_roundtrip(g, n, s, x, a, b, d, v);
        vstd::arithmetic::div_mod::lemma_small_mod(g, n);
        assert(is_spow(av, b, n, v) && v < n && (powm(d, x, n) * v) % n == g);
    }
}


/// All-member witnesses verify: when the entries of `xs` multiply to the
/// accumulated product `s`, the root-factor witness for entry `i` (the
/// generator raised to the product of the other entries) satisfies the
/// membership equation against the digest `g^s mod n`.
pub proof fn lemma_all_witnesses_verify(g: nat, n: nat, xs: Seq<nat>, s: nat, i: int)
    requires
        n >= 1,
        0 <= i < xs.len(),
        uprod(xs) == s,
    ensures
        powm(powm(g, uprod(xs.remove(i)), n), xs[i], n) == powm(g, s, n),
{
    crate::nt::lemma_uprod_remove(xs, i);
    lemma_powm_powm(g, uprod(xs.remove(i)), xs[i], n);
    assert(uprod(xs.remove(i)) * xs[i] == xs[i] * uprod(xs.remove(i))) by (nonlinear_arith);
}


/// The exponentiation claim inside the starred non-membership protocol:
/// with a Bezout identity `a * x + b * s == 1` against the digest
/// `A = g^s mod n`, the witness part `d = g^a` satisfies
/// `d^x == g * v^(-1) (mod n)` for `v = A^b` and any inverse `v^(-1)` of it,
/// which is exactly the claim certified by the proof of exponentiation.
pub proof fn lemma_non_membership_star_equation(
    g: nat,
    n: nat,
    s: nat,
    x: nat,
    a: int,
    b: int,
    d: nat,
    v: nat,
    vi: nat,
)
    requires
        n >= 1,
        g < n,
        gcd(g, n) == 1,
        a * (x as int) + b * (s as int) == 1,
        is_spow(g, a, n, d),
        is_spow(powm(g, s, n), b, n, v),
        v < n,
        vi < n,
        (vi * v) % n == 1nat % n,
    ensures
        powm(d, x, n) == (g * vi) % n,
{
    let ni = n as int;
    let dx = powm(d, x, n);
    lemma_non_membership_roundtrip(g, n, s, x, a, b, d, v);
    // (g * vi) * v == g * (vi * v) == g (mod n), and dx * v == g (mod n)
    assert((((g * vi) % n) * v) % n == (g as int) % ni) by {
        vstd::arithmetic::div_mod::lemma_mul_mod_noop_left((g * vi) as int, v as int, ni);
        assert((g * vi) * v == (g as int) * ((vi * v) as int)) by (nonlinear_arith);
        vstd::arithmetic::div_mod::lemma_mul_mod_noop_right(g as int, (vi * v) as int, ni);
        vstd::arithmetic::div_mod::lemma_mul_mod_noop_right(g as int, 1int, ni);
        vstd::arithmetic::div_mod::lemma_mod_twice(1int, ni);
    }
    // cancel the unit v on both sides
    lemma_inverse_coprime(v, n, vi);
    crate::nt::lemma_mul_cancel(((g * vi) % n) as int, dx as int, v, n);
    assert(dx % n == dx) by {
        crate::nt::lemma_powm_bound(d, x, n);
        vstd::arithmetic::div_mod::lemma_small_mod(dx, n);
    }
    assert(((g * vi) % n) % n == (g * vi) % n) by {
        vstd::arithmetic::div_mod::lemma_mod_twice((g * vi) as int, ni);
    }
    vstd::arithmetic::div_mod::lemma_small_mod(g, n);
    assert((dx * v) % n == g);
    assert((((g * vi) % n) as int) % ni == (dx as int) % ni);
}


/// Starred non-membership round-trip: a witness tuple as
/// `non_mem_wit_create_star` builds it -- Bezout pair `(a, b)` for
/// `a*x + b*s == 1` against the digest `A = g^s mod n`, signed powers
/// `d = g^a` and `v = A^b`, an honest proof of knowledge `(z, q, rr)` for
/// the claim `A^b == v`, and the honest exponentiation quotient `pg` for
/// `d^x == g * v^(-1)` -- passes both checks of `ver_non_mem_star`.
pub proof fn lemma_non_membership_star_roundtrip(
    g: nat,
    n: nat,
    s: nat,
    x: nat,
    a: int,
    b: int,
    d: nat,
    v: nat,
    z: nat,
    q: nat,
    rr: int,
    pg: nat,
)
    requires
        n >= 1,
        g < n,
        gcd(g, n) == 1,
        a * (x as int) + b * (s as int) == 1,
        is_spow(g, a, n, d),
        d < n,
        is_spow(powm(g, s, n), b, n, v),
        v < n,
        is_spow(g, b, n, z),
        z < n,
        rr == b % (poke2_l(powm(g, s, n), v, z) as int),
        is_spow(
            (powm(g, s, n) * powm(g, poke2_alpha(powm(g, s, n), v, z), n)) % n,
            b / (poke2_l(powm(g, s, n), v, z) as int),
            n,
            q,
        ),
        exists|vi: nat|
            #[trigger] is_spow(v, -1int, n, vi) && pg == powm(
                d,
                x / poe_challenge(x, d, (g * vi) % n),
                n,
            ),
    ensures
        poke2_accepts(n, g, powm(g, s, n), v, z, q, rr),
        exists|vi: nat|
            #[trigger] is_spow(v, -1int, n, vi) && poe_accepts(n, x, d, (g * vi) % n, pg),
{
    let av = powm(g, s, n);
    crate::nt::lemma_powm_coprime(g, s, n);
    crate::proofs::lemma_poke2_completeness(n, g, av, v, b, z, q, rr);
    let vi = choose|vi: nat|
        #[trigger] is_spow(v, -1int, n, vi) && pg == powm(
            d,
            x / poe_challenge(x, d, (g * vi) % n),
            n,
        );
    // the named inverse really inverts v
    assert(powm(v, 1, n) == v % n) by {
        vstd::arithmetic::power::lemma_pow1(v as int);
    }
    assert((vi * v) % n == (vi * (v % n)) % n) by {
        vstd::arithmetic::div_mod::lemma_mul_mod_noop_right(vi as int, v as int, n as int);
    }
    lemma_non_membership_star_equation(g, n, s, x, a, b, d, v, vi);
    crate::proofs::lemma_poe_certificate(x, d, (g * vi) % n, n, pg);
    assert(is_spow(v, -1int, n, vi) && poe_accepts(n, x, d, (g * vi) % n, pg));
}


} // verus!
