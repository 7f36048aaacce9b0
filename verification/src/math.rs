//! Executable number theory over arbitrary-precision integers: extended
//! Euclidean algorithm, modular inverse, modular exponentiation with a
//! signed exponent, Shamir's trick, and the divide-and-conquer root factor.

use vstd::prelude::*;
use num_bigint_dig::{BigInt, BigUint};
use crate::bigint::{
    big_div_rem, big_eq, big_from_u64, big_is_zero, big_mod, big_modpow, big_mul, ival,
    int_div_mod_floor, int_from_u64, int_from_uint, int_is_negative, int_magnitude,
    int_mul, int_sub, useq, uval,
};
use crate::nt::{
    divides, gcd, is_spow, lemma_coprime_pow, lemma_coprime_pow_rev, lemma_gcd_mod_noop,
    lemma_pow_nonneg, lemma_powm_bound, lemma_powm_powm, lemma_spow_mul, lemma_spow_pow,
    lemma_nested_div, lemma_spow_rebase, lemma_uprod_concat, lemma_uprod_push, powm, uprod,
};

verus! {

/// Extended greatest common divisor: `r.0` is `gcd(a, b)` and the signed
/// coefficients satisfy the Bezout identity `r.1 * a + r.2 * b == r.0`.
pub fn extended_gcd(a: &BigUint, b: &BigUint) -> (r: (BigUint, BigInt, BigInt))
    ensures
        uval(r.0) == gcd(uval(*a), uval(*b)),
        ival(r.1) * uval(*a) + ival(r.2) * uval(*b) == uval(r.0),
{
    let mut old_r = a.clone();
    let mut cur_r = b.clone();
    let mut old_s = int_from_u64(1);
    let mut cur_s = int_from_u64(0);
    let mut old_t = int_from_u64(0);
    let mut cur_t = int_from_u64(1);
    while !big_is_zero(&cur_r)
        invariant
            ival(old_s) * uval(*a) + ival(old_t) * uval(*b) == uval(old_r),
            ival(cur_s) * uval(*a) + ival(cur_t) * uval(*b) == uval(cur_r),
            gcd(uval(old_r), uval(cur_r)) == gcd(uval(*a), uval(*b)),
        decreases uval(cur_r),
    {
        let (q, rem) = big_div_rem(&old_r, &cur_r);
        let qi = int_from_uint(&q);
        let qs = int_mul(&qi, &cur_s);
        let new_s = int_sub(&old_s, &qs);
        let qt = int_mul(&qi, &cur_t);
        let new_t = int_sub(&old_t, &qt);
        proof {
            let or = uval(old_r) as int;
            let cr = uval(cur_r) as int;
            let qq = uval(q) as int;
            let rr = uval(rem) as int;
            vstd::arithmetic::div_mod::lemma_fundamental_div_mod_converse(or, cr, qq, rr);
            assert(uval(rem) == uval(old_r) % uval(cur_r));
            assert(gcd(uval(cur_r), uval(rem)) == gcd(uval(old_r), uval(cur_r)));
            assert(ival(new_s) * uval(*a) + ival(new_t) * uval(*b) == uval(rem)) by (nonlinear_arith)
                requires
                    ival(new_s) == ival(old_s) - (uval(q) as int) * ival(cur_s),
                    ival(new_t) == ival(old_t) - (uval(q) as int) * ival(cur_t),
                    ival(old_s) * uval(*a) + ival(old_t) * uval(*b) == uval(old_r),
                    ival(cur_s) * uval(*a) + ival(cur_t) * uval(*b) == uval(cur_r),
                    uval(old_r) as int == (uval(q) as int) * (uval(cur_r) as int) + uval(rem),
            ;
        }
        old_r = cur_r;
        cur_r = rem;
        old_s = cur_s;
        cur_s = new_s;
        old_t = cur_t;
        cur_t = new_t;
    }
    (old_r, old_s, old_t)
}

/// Multiplicative inverse modulo `m`: `Some` exactly when `a` and `m` are
/// coprime, and the result then satisfies `r * a == 1 (mod m)` and lies in
/// `[0, m)`.
pub fn mod_inverse(a: &BigUint, m: &BigUint) -> (r: Option<BigUint>)
    requires
        uval(*m) >= 1,
    ensures
        r is Some <==> gcd(uval(*a), uval(*m)) == 1,
        r is Some ==> uval(r->Some_0) < uval(*m) && (uval(r->Some_0) * uval(*a)) % uval(*m)
            == 1nat % uval(*m),
{
    let (g, x, y) = extended_gcd(a, m);
    let one = big_from_u64(1);
    if !big_eq(&g, &one) {
        return None;
    }
    let mi = int_from_uint(m);
    let (_q, rem) = int_div_mod_floor(&x, &mi);
    let v = int_magnitude(&rem);
    proof {
        let ai = uval(*a) as int;
        let mm = uval(*m) as int;
        let xi = ival(x);
        let yi = ival(y);
        let vi = uval(v) as int;
        assert(vi == xi % mm) by {
            vstd::arithmetic::div_mod::lemma_fundamental_div_mod_converse(
                xi,
                mm,
                ival(_q),
                ival(rem),
            );
        }
        // (v * a) % m == (x * a) % m == (1 - y * m) % m == 1 % m
        assert((vi * ai) % mm == (xi * ai) % mm) by {
            vstd::arithmetic::div_mod::lemma_mul_mod_noop_left(xi, ai, mm);
        }
        assert(xi * ai == mm * (-yi) + 1) by (nonlinear_arith)
            requires
                xi * (uval(*a) as int) + yi * (uval(*m) as int) == 1,
                ai == uval(*a) as int,
                mm == uval(*m) as int,
        ;
        assert((mm * (-yi) + 1) % mm == 1int % mm) by {
            vstd::arithmetic::div_mod::lemma_mod_multiples_vanish(-yi, 1int, mm);
        }
    }
    Some(v)
}

/// Modular exponentiation with a signed exponent: `base^e mod m`, inverting
/// modulo `m` for a negative `e`. Returns `None` exactly when an inverse is
/// needed and the base is not coprime to the modulus.
pub fn modpow_uint_int(base: &BigUint, e: &BigInt, m: &BigUint) -> (r: Option<BigUint>)
    requires
        uval(*m) >= 1,
    ensures
        r is Some <==> (ival(*e) >= 0 || gcd(uval(*base), uval(*m)) == 1),
        r is Some ==> is_spow(uval(*base), ival(*e), uval(*m), uval(r->Some_0)) && uval(
            r->Some_0,
        ) < uval(*m),
{
    let ue = int_magnitude(e);
    if !int_is_negative(e) {
        let p = big_modpow(base, &ue, m);
        proof {
            lemma_powm_bound(uval(*base), uval(ue), uval(*m));
        }
        Some(p)
    } else {
        let t = big_modpow(base, &ue, m);
        proof {
            let b = uval(*base);
            let mm = uval(*m);
            let k = uval(ue);
            lemma_pow_nonneg(b, k);
            lemma_gcd_mod_noop((vstd::arithmetic::power::pow(b as int, k)) as nat, mm);
            if gcd(b, mm) == 1 {
                lemma_coprime_pow(b, k, mm);
            }
            if gcd(uval(t), mm) == 1 {
                lemma_coprime_pow_rev(b, k, mm);
            }
            assert(gcd(uval(t), mm) == 1 <==> gcd(b, mm) == 1);
        }
        mod_inverse(&t, m)
    }
}

/// Shamir's trick: from `w_x` and `w_y` with `w_x^x == w_y^y == A (mod n)`
/// and coprime `x, y`, compute `w` with `w^(x*y) == A (mod n)`. Returns
/// `None` when `x` and `y` are not coprime; succeeds whenever they are and
/// both inputs are coprime to the modulus.
pub fn shamir_trick(w_x: &BigUint, w_y: &BigUint, x: &BigUint, y: &BigUint, n: &BigUint) -> (r:
    Option<BigUint>)
    requires
        uval(*n) >= 1,
        uval(*x) >= 1,
        uval(*y) >= 1,
    ensures
        gcd(uval(*x), uval(*y)) != 1 ==> r is None,
        gcd(uval(*x), uval(*y)) == 1 && gcd(uval(*w_x), uval(*n)) == 1 && gcd(
            uval(*w_y),
            uval(*n),
        ) == 1 ==> r is Some,
        r is Some ==> uval(r->Some_0) < uval(*n),
        r is Some && powm(uval(*w_y), uval(*y), uval(*n)) == powm(uval(*w_x), uval(*x), uval(*n))
            && gcd(powm(uval(*w_x), uval(*x), uval(*n)), uval(*n)) == 1 ==> powm(
            uval(r->Some_0),
            uval(*x) * uval(*y),
            uval(*n),
        ) == powm(uval(*w_x), uval(*x), uval(*n)),
        r is Some ==> forall|g0: nat, sv: nat|
            gcd(g0, uval(*n)) == 1 && divides(uval(*x) * uval(*y), sv) && uval(*w_x) == powm(
                g0,
                sv / uval(*x),
                uval(*n),
            ) && uval(*w_y) == powm(g0, sv / uval(*y), uval(*n)) ==> uval(r->Some_0)
                == #[trigger] powm(g0, sv / (uval(*x) * uval(*y)), uval(*n)),
{
    let (g, al, be) = extended_gcd(x, y);
    let one = big_from_u64(1);
    if !big_eq(&g, &one) {
        return None;
    }
    let r1 = match modpow_uint_int(w_x, &be, n) {
        Some(v) => v,
        None => {
            return None;
        },
    };
    let r2 = match modpow_uint_int(w_y, &al, n) {
        Some(v) => v,
        None => {
            return None;
        },
    };
    let w = big_mod(&big_mul(&r1, &r2), n);
    proof {
        let nn = uval(*n);
        let xx = uval(*x);
        let yy = uval(*y);
        let wx = uval(*w_x);
        let wy = uval(*w_y);
        let av = ival(al);
        let bv = ival(be);
        let aa = powm(wx, xx, nn);
        if powm(wy, yy, nn) == aa && gcd(aa, nn) == 1 {
            // x >= 1, so coprimality of A and n gives coprimality of the bases
            lemma_gcd_mod_noop((vstd::arithmetic::power::pow(wx as int, xx)) as nat, nn);
            lemma_pow_nonneg(wx, xx);
            lemma_coprime_pow_rev(wx, xx, nn);
            lemma_gcd_mod_noop((vstd::arithmetic::power::pow(wy as int, yy)) as nat, nn);
            lemma_pow_nonneg(wy, yy);
            lemma_coprime_pow_rev(wy, yy, nn);
            // t1 = r1^(x*y) mod n represents w_x^(b*(x*y)) = A^(b*y)
            let t1 = powm(uval(r1), xx * yy, nn);
            let t2 = powm(uval(r2), xx * yy, nn);
            lemma_spow_pow(wx, bv, nn, uval(r1), xx * yy);
            assert(bv * ((xx * yy) as int) == xx * (bv * yy)) by (nonlinear_arith);
            lemma_spow_rebase(wx, xx, aa, nn, bv * yy, t1);
            assert(is_spow(aa, bv * yy, nn, t1));
            lemma_spow_pow(wy, av, nn, uval(r2), xx * yy);
            assert(av * ((xx * yy) as int) == yy * (av * xx)) by (nonlinear_arith);
            lemma_spow_rebase(wy, yy, aa, nn, av * xx, t2);
            assert(is_spow(aa, av * xx, nn, t2));
            lemma_spow_mul(aa, bv * yy, av * xx, nn, t1, t2);
            assert(bv * yy + av * xx == 1) by (nonlinear_arith)
                requires
                    av * (uval(*x) as int) + bv * (uval(*y) as int) == 1,
                    xx == uval(*x),
                    yy == uval(*y),
            ;
            assert(is_spow(aa, 1int, nn, (t1 * t2) % nn));
            assert((t1 * t2) % nn == aa) by {
                vstd::arithmetic::power::lemma_pow1(aa as int);
                lemma_powm_bound(wx, xx, nn);
                vstd::arithmetic::div_mod::lemma_small_mod(aa, nn);
            }
            // w^(x*y) == (r1 * r2)^(x*y) == t1 * t2 (mod n)
            assert(powm(uval(w), xx * yy, nn) == (t1 * t2) % nn) by {
                let r1i = uval(r1) as int;
                let r2i = uval(r2) as int;
                let ni = nn as int;
                let k = xx * yy;
                vstd::arithmetic::power::lemma_pow_mod_noop(r1i * r2i, k, ni);
                vstd::arithmetic::power::lemma_pow_distributes(r1i, r2i, k);
                lemma_pow_nonneg(uval(r1), k);
                lemma_pow_nonneg(uval(r2), k);
                vstd::arithmetic::div_mod::lemma_mul_mod_noop_general(
                    vstd::arithmetic::power::pow(r1i, k),
                    vstd::arithmetic::power::pow(r2i, k),
                    ni,
                );
            }
        }
        assert forall|g0: nat, sv: nat|
            gcd(g0, nn) == 1 && divides(xx * yy, sv) && wx == powm(g0, sv / xx, nn) && wy == powm(
                g0,
                sv / yy,
                nn,
            ) implies uval(w) == #[trigger] powm(g0, sv / (xx * yy), nn) by {
            let k = sv / (xx * yy);
            lemma_nested_div(sv, xx, yy);
            assert(yy * xx == xx * yy);
            assert(divides(yy * xx, sv));
            lemma_nested_div(sv, yy, xx);
            assert(sv / (yy * xx) == sv / (xx * yy));
            assert(sv / xx == yy * k);
            assert(sv / yy == xx * k);
            lemma_spow_rebase(g0, yy * k, wx, nn, bv, uval(r1));
            lemma_spow_rebase(g0, xx * k, wy, nn, av, uval(r2));
            lemma_spow_mul(g0, (yy * k) * bv, (xx * k) * av, nn, uval(r1), uval(r2));
            assert((yy * k) * bv + (xx * k) * av == k) by (nonlinear_arith)
                requires
                    av * (xx as int) + bv * (yy as int) == 1,
            ;
            assert(is_spow(g0, k as int, nn, (uval(r1) * uval(r2)) % nn));
        }
    }
    Some(w)
}

/// Product of the values held in `primes[lo..hi]`.
pub fn prod_range(primes: &Vec<BigUint>, lo: usize, hi: usize) -> (r: BigUint)
    requires
        lo <= hi <= primes@.len(),
    ensures
        uval(r) == uprod(useq(primes@).subrange(lo as int, hi as int)),
{
    let mut acc = big_from_u64(1);
    let mut j = lo;
    proof {
        assert(useq(primes@).subrange(lo as int, lo as int) =~= Seq::<nat>::empty());
    }
    while j < hi
        invariant
            lo <= j <= hi <= primes@.len(),
            uval(acc) == uprod(useq(primes@).subrange(lo as int, j as int)),
        decreases hi - j,
    {
        let next = big_mul(&acc, &primes[j]);
        proof {
            let sub = useq(primes@);
            assert(sub.subrange(lo as int, j + 1) =~= sub.subrange(lo as int, j as int).push(
                sub[j as int],
            ));
            lemma_uprod_push(sub.subrange(lo as int, j as int), sub[j as int]);
            assert(sub[j as int] == uval(primes@[j as int]));
        }
        acc = next;
        j = j + 1;
    }
    acc
}

/// Recursive core of the root factor: witnesses for `primes[lo..hi]` from a
/// base that already carries the product of the primes outside the range.
fn root_factor_range(g: &BigUint, primes: &Vec<BigUint>, lo: usize, hi: usize, n: &BigUint) -> (r:
    Vec<BigUint>)
    requires
        uval(*n) >= 1,
        uval(*g) < uval(*n),
        lo < hi <= primes@.len(),
    ensures
        r@.len() == hi - lo,
        forall|i: int|
            0 <= i < hi - lo ==> uval(r@[i]) == powm(
                uval(*g),
                uprod(useq(primes@).subrange(lo as int, hi as int).remove(i)),
                uval(*n),
            ),
    decreases hi - lo,
{
    let sub = Ghost(useq(primes@).subrange(lo as int, hi as int));
    if hi - lo == 1 {
        let mut out: Vec<BigUint> = Vec::new();
        out.push(g.clone());
        proof {
            assert(sub@.remove(0) =~= Seq::<nat>::empty());
            assert(uprod(sub@.remove(0)) == 1);
            assert(powm(uval(*g), 1, uval(*n)) == uval(*g)) by {
                vstd::arithmetic::power::lemma_pow1(uval(*g) as int);
                vstd::arithmetic::div_mod::lemma_small_mod(uval(*g), uval(*n));
            }
        }
        out
    } else {
        let mid = lo + (hi - lo) / 2;
        proof {
            assert(lo < mid < hi);
        }
        let ghost sub_l = useq(primes@).subrange(lo as int, mid as int);
        let ghost sub_r = useq(primes@).subrange(mid as int, hi as int);
        let p_r = prod_range(primes, mid, hi);
        let p_l = prod_range(primes, lo, mid);
        let g_l = big_modpow(g, &p_r, n);
        let g_r = big_modpow(g, &p_l, n);
        proof {
            lemma_powm_bound(uval(*g), uval(p_r), uval(*n));
            lemma_powm_bound(uval(*g), uval(p_l), uval(*n));
        }
        let left = root_factor_range(&g_l, primes, lo, mid, n);
        let right = root_factor_range(&g_r, primes, mid, hi, n);
        let mut out = left;
        let ghost left_view = out@;
        let mut j: usize = 0;
        while j < right.len()
            invariant
                0 <= j <= right@.len(),
                out@.len() == left_view.len() + j,
                forall|i: int| 0 <= i < left_view.len() ==> out@[i] == left_view[i],
                forall|i: int|
                    left_view.len() <= i < out@.len() ==> uval(out@[i]) == uval(
                        right@[i - left_view.len()],
                    ),
            decreases right@.len() - j,
        {
            out.push(right[j].clone());
            j = j + 1;
        }
        proof {
            let whole = sub@;
            let half = (mid - lo) as int;
            assert forall|i: int| 0 <= i < hi - lo implies uval(out@[i]) == powm(
                uval(*g),
                uprod(whole.remove(i)),
                uval(*n),
            ) by {
                if i < half {
                    assert(whole.remove(i) =~= sub_l.remove(i) + sub_r);
                    lemma_uprod_concat(sub_l.remove(i), sub_r);
                    lemma_powm_powm(uval(*g), uprod(sub_r), uprod(sub_l.remove(i)), uval(*n));
                    assert(uprod(sub_r) * uprod(sub_l.remove(i)) == uprod(sub_l.remove(i)) * uprod(
                        sub_r,
                    )) by (nonlinear_arith);
                    assert(uval(out@[i]) == uval(left_view[i]));
                } else {
                    let k = i - half;
                    assert(whole.remove(i) =~= sub_l + sub_r.remove(k));
                    lemma_uprod_concat(sub_l, sub_r.remove(k));
                    lemma_powm_powm(uval(*g), uprod(sub_l), uprod(sub_r.remove(k)), uval(*n));
                    assert(uval(out@[i]) == uval(right@[k]));
                }
            }
        }
        out
    }
}

/// Root factor: for primes `[s_1, ..., s_k]` and their product `S`, the
/// sequence `[g^(S/s_1), ..., g^(S/s_k)] mod n`, each exponent being the
/// product of all the other entries.
pub fn root_factor(g: &BigUint, primes: &Vec<BigUint>, n: &BigUint) -> (r: Vec<BigUint>)
    requires
        uval(*n) >= 1,
        uval(*g) < uval(*n),
    ensures
        r@.len() == primes@.len(),
        forall|i: int|
            0 <= i < r@.len() ==> uval(r@[i]) == powm(
                uval(*g),
                uprod(useq(primes@).remove(i)),
                uval(*n),
            ),
{
    if primes.len() == 0 {
        Vec::new()
    } else {
        let r = root_factor_range(g, primes, 0, primes.len(), n);
        proof {
            assert(useq(primes@).subrange(0, primes@.len() as int) =~= useq(primes@));
        }
        r
    }
}

} // verus!
