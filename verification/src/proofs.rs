//! Non-interactive proofs over the accumulator group: a proof of
//! exponentiation (a single quotient, checked against a Fiat--Shamir prime
//! challenge) and a proof of knowledge of a signed exponent (a base
//! commitment, a quotient, and a residue, checked against two challenges).

use vstd::prelude::*;
use num_bigint_dig::{BigInt, BigUint};
use crate::bigint::{
    big_div_rem, big_eq, big_lt, big_mod, big_modpow, big_mul, int_div_mod_floor, int_from_uint,
    int_is_negative, int_magnitude, ival, uval,
};
use crate::encode::{challenge_of, enc_uint, hash_to_prime, push_uint};
use crate::nt::{
    gcd, is_spow, lemma_coprime_mul, lemma_coprime_pow, lemma_gcd_mod_noop, lemma_pow_nonneg,
    lemma_powm_bound, lemma_powm_powm, powm,
};
use crate::math::modpow_uint_int;

verus! {

/// The prime challenge for the claim `u^x == w`.
pub open spec fn poe_challenge(x: nat, u: nat, w: nat) -> nat {
    challenge_of(enc_uint(x) + enc_uint(u) + enc_uint(w))
}

/// The verifier's equation for a proof of exponentiation: with challenge
/// `l`, quotient proof `q` and residue `x % l`, accept `u^x == w (mod n)`
/// iff `q^l * u^(x % l) == w (mod n)`.
pub open spec fn poe_accepts(n: nat, x: nat, u: nat, w: nat, q: nat) -> bool {
    let l = poe_challenge(x, u, w);
    (powm(q, l, n) * powm(u, x % l, n)) % n == w % n
}

/// Proof of exponentiation for the claim `u^x == w (mod n)`: the quotient
/// `u^(x / l) mod n` for the transcript's prime challenge `l`.
pub fn ni_poe_prove(x: &BigUint, u: &BigUint, w: &BigUint, n: &BigUint) -> (q: BigUint)
    requires
        uval(*n) >= 1,
    ensures
        uval(q) == powm(uval(*u), uval(*x) / poe_challenge(uval(*x), uval(*u), uval(*w)), uval(*n)),
{
    let mut buf: Vec<u8> = Vec::new();
    push_uint(&mut buf, x);
    push_uint(&mut buf, u);
    push_uint(&mut buf, w);
    let l = hash_to_prime(&buf);
    let (quot, rem) = big_div_rem(x, &l);
    proof {
        vstd::arithmetic::div_mod::lemma_fundamental_div_mod_converse(
            uval(*x) as int,
            uval(l) as int,
            uval(quot) as int,
            uval(rem) as int,
        );
    }
    big_modpow(u, &quot, n)
}

/// Verifier for a proof of exponentiation: recomputes the challenge and
/// checks the quotient-residue equation against the claim `u^x == w`.
pub fn ni_poe_verify(x: &BigUint, u: &BigUint, w: &BigUint, q: &BigUint, n: &BigUint) -> (r: bool)
    requires
        uval(*n) >= 1,
    ensures
        r == poe_accepts(uval(*n), uval(*x), uval(*u), uval(*w), uval(*q)),
{
    let mut buf: Vec<u8> = Vec::new();
    push_uint(&mut buf, x);
    push_uint(&mut buf, u);
    push_uint(&mut buf, w);
    let l = hash_to_prime(&buf);
    let (_quot, rem) = big_div_rem(x, &l);
    proof {
        vstd::arithmetic::div_mod::lemma_fundamental_div_mod_converse(
            uval(*x) as int,
            uval(l) as int,
            uval(_quot) as int,
            uval(rem) as int,
        );
    }
    let ql = big_modpow(q, &l, n);
    let ur = big_modpow(u, &rem, n);
    let lhs = big_mod(&big_mul(&ql, &ur), n);
    let wm = big_mod(w, n);
    big_eq(&lhs, &wm)
}

/// Completeness of the proof of exponentiation, for any positive challenge:
/// the honest quotient always satisfies the verifier's equation.
pub proof fn lemma_poe_completeness(u: nat, x: nat, l: nat, n: nat, q: nat, w: nat)
    requires
        n >= 1,
        l >= 1,
        w == powm(u, x, n),
        q == powm(u, x / l, n),
    ensures
        (powm(q, l, n) * powm(u, x % l, n)) % n == w % n,
{
    let ni = n as int;
    lemma_powm_powm(u, x / l, l, n);
    let q0 = x / l;
    assert(x as int == (l as int) * (q0 as int) + ((x % l) as int)) by {
        vstd::arithmetic::div_mod::lemma_fundamental_div_mod(x as int, l as int);
    }
    assert(q0 * l + x % l == x) by (nonlinear_arith)
        requires
            x as int == (l as int) * (q0 as int) + ((x % l) as int),
            q0 == x / l,
    ;
    lemma_pow_nonneg(u, (x / l) * l);
    lemma_pow_nonneg(u, x % l);
    assert((powm(q, l, n) * powm(u, x % l, n)) % n == (vstd::arithmetic::power::pow(
        u as int,
        (x / l) * l,
    ) * vstd::arithmetic::power::pow(u as int, x % l)) % ni) by {
        vstd::arithmetic::div_mod::lemma_mul_mod_noop_general(
            vstd::arithmetic::power::pow(u as int, (x / l) * l),
            vstd::arithmetic::power::pow(u as int, x % l),
            ni,
        );
    }
    vstd::arithmetic::power::lemma_pow_adds(u as int, (x / l) * l, x % l);
    lemma_powm_bound(u, x, n);
    vstd::arithmetic::div_mod::lemma_small_mod(w, n);
}

/// A batch-update certificate verifies: whenever the digest moved from
/// `a_pre` to `w == a_pre^x mod n`, the honest proof of exponentiation for
/// that claim passes the verifier's equation. This is the certificate law
/// behind batched additions and deletions.
pub proof fn lemma_poe_certificate(x: nat, u: nat, w: nat, n: nat, q: nat)
    requires
        n >= 1,
        w == powm(u, x, n),
        q == powm(u, x / poe_challenge(x, u, w), n),
    ensures
        poe_accepts(n, x, u, w, q),
{
    lemma_poe_completeness(u, x, poe_challenge(x, u, w), n, q, w);
}

/// Fiat--Shamir determinism: proving the same claim twice yields the same
/// proof, because the challenge and the quotient are functions of the
/// transcript alone.
pub proof fn lemma_poe_prove_deterministic(x: nat, u: nat, w: nat, n: nat, q1: nat, q2: nat)
    requires
        q1 == powm(u, x / poe_challenge(x, u, w), n),
        q2 == powm(u, x / poe_challenge(x, u, w), n),
    ensures
        q1 == q2,
{
}

/// The first prime challenge of a proof of knowledge of exponent, over the
/// claim `u^b == w` with commitment `z`.
pub open spec fn poke2_l(u: nat, w: nat, z: nat) -> nat {
    challenge_of(enc_uint(u) + enc_uint(w) + enc_uint(z))
}

/// The second challenge, derived from the transcript extended by the first.
pub open spec fn poke2_alpha(u: nat, w: nat, z: nat) -> nat {
    challenge_of(enc_uint(u) + enc_uint(w) + enc_uint(z) + enc_uint(poke2_l(u, w, z)))
}

/// The verifier's equation for a proof of knowledge of exponent `(z, q, r)`
/// over the claim `u^b == w (mod n)` with base `g`: the residue lies below
/// the challenge and `q^l * (u * g^alpha)^r == w * z^alpha (mod n)`.
pub open spec fn poke2_accepts(n: nat, g: nat, u: nat, w: nat, z: nat, q: nat, r: int) -> bool {
    let l = poke2_l(u, w, z);
    let a = poke2_alpha(u, w, z);
    0 <= r < l && (powm(q, l, n) * powm((u * powm(g, a, n)) % n, r as nat, n)) % n == (w * powm(
        z,
        a,
        n,
    )) % n
}

/// Proof of knowledge of the signed exponent `b` with `u^b == w (mod n)`,
/// over the auxiliary base `g`: commits `z = g^b`, derives the challenges,
/// and emits `(z, (u * g^alpha)^(b / l), b mod l)`.
pub fn ni_poke2_prove(b: &BigInt, u: &BigUint, w: &BigUint, n: &BigUint, g: &BigUint) -> (pi: (
    BigUint,
    BigUint,
    BigInt,
))
    requires
        uval(*n) >= 1,
        gcd(uval(*g), uval(*n)) == 1,
        gcd(uval(*u), uval(*n)) == 1,
    ensures
        ({
            let zv = uval(pi.0);
            let l = poke2_l(uval(*u), uval(*w), zv);
            let a = poke2_alpha(uval(*u), uval(*w), zv);
            let base = (uval(*u) * powm(uval(*g), a, uval(*n))) % uval(*n);
            is_spow(uval(*g), ival(*b), uval(*n), zv) && zv < uval(*n) && ival(pi.2) == ival(*b) % (
            l as int) && is_spow(base, ival(*b) / (l as int), uval(*n), uval(pi.1))
        }),
{
    let z = match modpow_uint_int(g, b, n) {
        Some(v) => v,
        None => {
            proof {
                assert(false);
            }
            vstd::pervasive::unreached()
        },
    };
    let mut buf: Vec<u8> = Vec::new();
    push_uint(&mut buf, u);
    push_uint(&mut buf, w);
    push_uint(&mut buf, &z);
    let l = hash_to_prime(&buf);
    push_uint(&mut buf, &l);
    let alpha = hash_to_prime(&buf);
    let li = int_from_uint(&l);
    let (quot, rem) = int_div_mod_floor(b, &li);
    let ga = big_modpow(g, &alpha, n);
    let ug = big_mod(&big_mul(u, &ga), n);
    proof {
        vstd::arithmetic::div_mod::lemma_fundamental_div_mod_converse(
            ival(*b),
            uval(l) as int,
            ival(quot),
            ival(rem),
        );
        // u * g^alpha is coprime to n, so the quotient power always exists
        let nn = uval(*n);
        let a = uval(alpha);
        lemma_coprime_pow(uval(*g), a, nn);
        lemma_pow_nonneg(uval(*g), a);
        lemma_gcd_mod_noop(
            (vstd::arithmetic::power::pow(uval(*g) as int, a)) as nat,
            nn,
        );
        assert(powm(uval(*g), a, nn) == (vstd::arithmetic::power::pow(uval(*g) as int, a)) as nat
            % nn);
        lemma_gcd_mod_noop(powm(uval(*g), a, nn), nn);
        lemma_coprime_mul(uval(*u), powm(uval(*g), a, nn), nn);
        lemma_gcd_mod_noop(uval(*u) * powm(uval(*g), a, nn), nn);
    }
    let q = match modpow_uint_int(&ug, &quot, n) {
        Some(v) => v,
        None => {
            proof {
                assert(false);
            }
            vstd::pervasive::unreached()
        },
    };
    (z, q, rem)
}

/// Verifier for a proof of knowledge of exponent: recomputes both
/// challenges and checks the quotient-residue equation.
pub fn ni_poke2_verify(u: &BigUint, w: &BigUint, pi: &(BigUint, BigUint, BigInt), n: &BigUint, g:
    &BigUint) -> (r: bool)
    requires
        uval(*n) >= 1,
    ensures
        r == poke2_accepts(uval(*n), uval(*g), uval(*u), uval(*w), uval(pi.0), uval(pi.1), ival(
            pi.2,
        )),
{
    let mut buf: Vec<u8> = Vec::new();
    push_uint(&mut buf, u);
    push_uint(&mut buf, w);
    push_uint(&mut buf, &pi.0);
    let l = hash_to_prime(&buf);
    push_uint(&mut buf, &l);
    let alpha = hash_to_prime(&buf);
    if int_is_negative(&pi.2) {
        return false;
    }
    let rmag = int_magnitude(&pi.2);
    if !big_lt(&rmag, &l) {
        return false;
    }
    let ga = big_modpow(g, &alpha, n);
    let ug = big_mod(&big_mul(u, &ga), n);
    let ql = big_modpow(&pi.1, &l, n);
    let ur = big_modpow(&ug, &rmag, n);
    let lhs = big_mod(&big_mul(&ql, &ur), n);
    let za = big_modpow(&pi.0, &alpha, n);
    let rhs = big_mod(&big_mul(w, &za), n);
    big_eq(&lhs, &rhs)
}


/// Completeness of the proof of knowledge of exponent: an honestly built
/// proof `(z, q, r)` for the claim `u^b == w (mod n)` -- commitment
/// `z = g^b`, quotient `q = (u * g^alpha)^(b / l)` and residue `r = b mod l`
/// for the transcript's challenges `l` and `alpha` -- always satisfies the
/// verifier's equation, for units `g` and `u`.
pub proof fn lemma_poke2_completeness(
    n: nat,
    g: nat,
    u: nat,
    w: nat,
    b: int,
    z: nat,
    q: nat,
    rr: int,
)
    requires
        n >= 1,
        gcd(g, n) == 1,
        gcd(u, n) == 1,
        is_spow(u, b, n, w),
        w < n,
        is_spow(g, b, n, z),
        rr == b % (poke2_l(u, w, z) as int),
        is_spow(
            (u * powm(g, poke2_alpha(u, w, z), n)) % n,
            b / (poke2_l(u, w, z) as int),
            n,
            q,
        ),
    ensures
        poke2_accepts(n, g, u, w, z, q, rr),
{
    let l = poke2_l(u, w, z);
    let a = poke2_alpha(u, w, z);
    let li = l as int;
    let gpa = powm(g, a, n);
    let base = (u * gpa) % n;
    let ni = n as int;
    assert(l >= 2);
    vstd::arithmetic::div_mod::lemma_mod_bound(b, li);
    // the base u * g^alpha is a unit modulo n
    crate::nt::lemma_powm_coprime(g, a, n);
    lemma_coprime_mul(u, gpa, n);
    lemma_gcd_mod_noop(u * gpa, n);
    // the left side is the signed power of the base with exponent b
    let lv = (powm(q, l, n) * powm(base, rr as nat, n)) % n;
    crate::nt::lemma_spow_pow(base, b / li, n, q, l);
    assert(is_spow(base, rr, n, powm(base, rr as nat, n)));
    crate::nt::lemma_spow_mul(base, (b / li) * li, rr, n, powm(q, l, n), powm(
        base,
        rr as nat,
        n,
    ));
    assert((b / li) * li + rr == b) by {
        vstd::arithmetic::div_mod::lemma_fundamental_div_mod(b, li);
        assert(li * (b / li) == (b / li) * li) by (nonlinear_arith);
    }
    assert(is_spow(base, b, n, lv));
    // the right side is the same signed power
    let t = powm(z, a, n);
    crate::nt::lemma_spow_pow(g, b, n, z, a);
    assert(b * (a as int) == a * b) by (nonlinear_arith);
    crate::nt::lemma_spow_rebase(g, a, gpa, n, b, t);
    assert(is_spow(gpa, b, n, t));
    crate::nt::lemma_spow_base_mul(u, gpa, b, n, w, t);
    let rv = (w * t) % n;
    assert(is_spow(base, b, n, rv));
    vstd::arithmetic::div_mod::lemma_mod_bound((powm(q, l, n) * powm(base, rr as nat, n)) as int, ni);
    vstd::arithmetic::div_mod::lemma_mod_bound((w * t) as int, ni);
    crate::nt::lemma_spow_unique(base, b, n, lv, rv);
}

} // verus!
