//! Number-theoretic specifications and lemmas: divisibility, greatest common
//! divisors with Bezout coefficients, modular powers with signed exponents,
//! and products of sequences. Everything here is pure mathematics; the
//! executable counterparts live in the other modules.

use vstd::prelude::*;
use vstd::arithmetic::power::pow;

verus! {

broadcast use vstd::arithmetic::div_mod::lemma_fundamental_div_mod;

/// `d` divides `a`.
pub open spec fn divides(d: nat, a: nat) -> bool {
    exists|k: nat| a == #[trigger] (d * k)
}

/// Greatest common divisor by the Euclidean recursion.
pub open spec fn gcd(a: nat, b: nat) -> nat
    decreases b,
{
    if b == 0 {
        a
    } else {
        gcd(b, a % b)
    }
}

/// `b^e mod m`, as a natural number.
pub open spec fn powm(b: nat, e: nat, m: nat) -> nat
    recommends
        m >= 1,
{
    (pow(b as int, e) % (m as int)) as nat
}

/// `r` is the value of `b^e mod m` for a signed exponent `e`: the ordinary
/// modular power when `e >= 0`, and the multiplicative inverse of `b^(-e)`
/// modulo `m` (reduced into `[0, m)`) when `e < 0`.
pub open spec fn is_spow(b: nat, e: int, m: nat, r: nat) -> bool {
    if e >= 0 {
        m >= 1 && r == powm(b, e as nat, m)
    } else {
        m >= 1 && r < m && (r * powm(b, (-e) as nat, m)) % m == 1nat % m
    }
}

/// Product of a sequence of naturals.
pub open spec fn uprod(s: Seq<nat>) -> nat
    decreases s.len(),
{
    if s.len() == 0 {
        1
    } else {
        s[0] * uprod(s.drop_first())
    }
}

/// Minimal big-endian byte representation of a natural number.
pub open spec fn bytes_be(n: nat) -> Seq<u8>
    decreases n,
{
    if n == 0 {
        Seq::empty()
    } else {
        bytes_be(n / 256).push((n % 256) as u8)
    }
}

/// The natural number denoted by a big-endian byte string.
pub open spec fn be_val(s: Seq<u8>) -> nat
    decreases s.len(),
{
    if s.len() == 0 {
        0
    } else {
        be_val(s.drop_last()) * 256 + s.last() as nat
    }
}

/// A power of a natural number is a natural number.
pub proof fn lemma_pow_nonneg(b: nat, e: nat)
    ensures
        pow(b as int, e) >= 0,
{
    if b == 0 {
        if e == 0 {
            vstd::arithmetic::power::lemma_pow0(0);
        } else {
            vstd::arithmetic::power::lemma0_pow(e);
        }
    } else {
        vstd::arithmetic::power::lemma_pow_positive(b as int, e);
    }
}

/// The gcd divides both of its arguments.
pub proof fn lemma_gcd_divides(a: nat, b: nat)
    ensures
        divides(gcd(a, b), a),
        divides(gcd(a, b), b),
    decreases b,
{
    if b == 0 {
        assert(a == gcd(a, b) * 1);
        assert(b == gcd(a, b) * 0);
    } else {
        lemma_gcd_divides(b, a % b);
        let g = gcd(b, a % b);
        let k1 = choose|k: nat| b == #[trigger] (g * k);
        let k2 = choose|k: nat| (a % b) == #[trigger] (g * k);
        let q = a as int / b as int;
        assert(a as int == (b as int) * q + (a as int) % (b as int)) by {
            vstd::arithmetic::div_mod::lemma_fundamental_div_mod(a as int, b as int);
        }
        assert(q >= 0) by {
            vstd::arithmetic::div_mod::lemma_div_pos_is_pos(a as int, b as int);
        }
        assert(a as int == g * (q * k1 + k2)) by (nonlinear_arith)
            requires
                a as int == ((g * k1) as int) * q + g * k2,
        ;
        assert(q * k1 + k2 >= 0) by (nonlinear_arith)
            requires
                q >= 0,
                k1 >= 0,
                k2 >= 0,
        ;
        assert(a == gcd(a, b) * ((q * k1 + k2) as nat));
    }
}

/// Bezout: the gcd is an integer combination of its arguments.
pub proof fn lemma_bezout(a: nat, b: nat)
    ensures
        exists|x: int, y: int| #[trigger] (x * a) + #[trigger] (y * b) == gcd(a, b),
    decreases b,
{
    if b == 0 {
        assert(1int * (a as int) + 0int * (b as int) == gcd(a, b));
    } else {
        lemma_bezout(b, a % b);
        let (x1, y1) = choose|x: int, y: int| #[trigger] (x * b) + #[trigger] (y * ((a % b) as int)) == gcd(b, a % b);
        let q = a as int / b as int;
        assert((a % b) as int == a - q * b) by {
            vstd::arithmetic::div_mod::lemma_fundamental_div_mod(a as int, b as int);
        }
        let x = y1;
        let y = x1 - y1 * q;
        assert(x * a + y * b == x1 * b + y1 * (a - q * b)) by (nonlinear_arith)
            requires
                x == y1,
                y == x1 - y1 * q,
        ;
        assert(x * a + y * b == gcd(a, b));
    }
}

/// If `1` is an integer combination of `u` and `n`, they are coprime.
pub proof fn lemma_combination_one_implies_coprime(u: nat, n: nat, x: int, y: int)
    requires
        x * u + y * n == 1,
    ensures
        gcd(u, n) == 1,
{
    lemma_gcd_divides(u, n);
    let g = gcd(u, n);
    let k1 = choose|k: nat| u == #[trigger] (g * k);
    let k2 = choose|k: nat| n == #[trigger] (g * k);
    let t = x * k1 + y * k2;
    assert(1int == (g as int) * t) by (nonlinear_arith)
        requires
            u == g * k1,
            n == g * k2,
            x * u + y * n == 1,
            t == x * k1 + y * k2,
    ;
    if g != 1 {
        assert(false) by (nonlinear_arith)
            requires
                1int == (g as int) * t,
                g != 1,
                g >= 0,
        ;
    }
}

/// Coprimality is preserved under reduction of the first argument.
pub proof fn lemma_gcd_mod_noop(a: nat, n: nat)
    requires
        n >= 1,
    ensures
        gcd(a % n, n) == gcd(a, n),
{
    if a % n == 0 {
        assert(gcd(a % n, n) == gcd(n, (a % n) % n));
        vstd::arithmetic::div_mod::lemma_mod_twice(a as int, n as int);
    } else {
        assert(gcd(a, n) == gcd(n, a % n));
        assert(gcd(a % n, n) == gcd(n, (a % n) % n));
        vstd::arithmetic::div_mod::lemma_mod_twice(a as int, n as int);
    }
}

/// Products of numbers coprime to `n` are coprime to `n`.
pub proof fn lemma_coprime_mul(a: nat, b: nat, n: nat)
    requires
        gcd(a, n) == 1,
        gcd(b, n) == 1,
    ensures
        gcd(a * b, n) == 1,
{
    lemma_bezout(a, n);
    lemma_bezout(b, n);
    let (x1, y1) = choose|x: int, y: int| #[trigger] (x * a) + #[trigger] (y * n) == gcd(a, n);
    let (x2, y2) = choose|x: int, y: int| #[trigger] (x * b) + #[trigger] (y * n) == gcd(b, n);
    let x = x1 * x2;
    let y = x1 * a * y2 + y1 * x2 * b + y1 * y2 * n;
    assert(x * (a * b) + y * n == 1) by (nonlinear_arith)
        requires
            x1 * a + y1 * n == 1,
            x2 * b + y2 * n == 1,
            x == x1 * x2,
            y == x1 * a * y2 + y1 * x2 * b + y1 * y2 * n,
    ;
    lemma_combination_one_implies_coprime(a * b, n, x, y);
}

/// Powers of a number coprime to `n` are coprime to `n`.
pub proof fn lemma_coprime_pow(b: nat, k: nat, n: nat)
    requires
        gcd(b, n) == 1,
    ensures
        gcd((pow(b as int, k)) as nat, n) == 1,
    decreases k,
{
    lemma_pow_nonneg(b, k);
    if k == 0 {
        assert(pow(b as int, 0) == 1) by {
            vstd::arithmetic::power::lemma_pow0(b as int);
        }
        lemma_combination_one_implies_coprime(1, n, 1, 0);
    } else {
        lemma_coprime_pow(b, (k - 1) as nat, n);
        assert(pow(b as int, k) == b * pow(b as int, (k - 1) as nat)) by {
            vstd::arithmetic::power::lemma_pow_adds(b as int, 1, (k - 1) as nat);
            vstd::arithmetic::power::lemma_pow1(b as int);
        }
        lemma_pow_nonneg(b, (k - 1) as nat);
        let p = (pow(b as int, (k - 1) as nat)) as nat;
        lemma_coprime_mul(b, p, n);
        assert((pow(b as int, k)) as nat == b * p);
    }
}

/// A modular power lies below the modulus.
pub proof fn lemma_powm_bound(b: nat, e: nat, n: nat)
    requires
        n >= 1,
    ensures
        powm(b, e, n) < n,
{
    lemma_pow_nonneg(b, e);
    vstd::arithmetic::div_mod::lemma_mod_bound(pow(b as int, e), n as int);
}

/// Dividing an exact multiple recovers the cofactor.
pub proof fn lemma_div_exact(x: nat, s: nat)
    requires
        x >= 1,
        divides(x, s),
    ensures
        s == x * (s / x),
{
    let k = choose|k: nat| s == #[trigger] (x * k);
    vstd::arithmetic::div_mod::lemma_div_multiples_vanish(k as int, x as int);
}

/// Divisibility by a positive number is the same as a zero remainder.
pub proof fn lemma_divides_iff_mod_zero(x: nat, s: nat)
    requires
        x >= 1,
    ensures
        divides(x, s) <==> s % x == 0,
{
    if divides(x, s) {
        let k = choose|k: nat| s == #[trigger] (x * k);
        vstd::arithmetic::div_mod::lemma_mod_multiples_basic(k as int, x as int);
        assert(s as int == (k as int) * (x as int)) by (nonlinear_arith)
            requires
                s == x * k,
        ;
        assert(s % x == 0);
    }
    if s % x == 0 {
        assert(s as int == (x as int) * ((s as int) / (x as int))) by {
            vstd::arithmetic::div_mod::lemma_fundamental_div_mod(s as int, x as int);
        }
        assert(s / x >= 0);
        assert(s == x * ((s / x) as nat));
    }
}

/// Whoever has a multiplicative inverse modulo `n` is coprime to `n`.
pub proof fn lemma_inverse_coprime(u: nat, n: nat, r: nat)
    requires
        n >= 1,
        (r * u) % n == 1nat % n,
    ensures
        gcd(u, n) == 1,
{
    if n == 1 {
        assert(u % 1 == 0) by {
            vstd::arithmetic::div_mod::lemma_mod_multiples_basic(u as int, 1int);
        }
        assert(gcd(u, 1) == gcd(1, u % 1));
    } else {
        let q = (r * u) as int / n as int;
        assert(1nat % n == 1) by {
            vstd::arithmetic::div_mod::lemma_small_mod(1nat, n);
        }
        assert((r * u) as int == (n as int) * q + ((r * u) as nat) % n) by {
            vstd::arithmetic::div_mod::lemma_fundamental_div_mod((r * u) as int, n as int);
        }
        assert((r as int) * u + (-q) * n == 1) by (nonlinear_arith)
            requires
                (r * u) as int == (n as int) * q + 1,
        ;
        lemma_combination_one_implies_coprime(u, n, r as int, -q);
    }
}

/// Multiplication by a unit can be cancelled under the modulus.
pub proof fn lemma_mul_cancel(x: int, y: int, u: nat, n: nat)
    requires
        n >= 1,
        gcd(u, n) == 1,
        (x * u) % (n as int) == (y * u) % (n as int),
    ensures
        x % (n as int) == y % (n as int),
{
    lemma_bezout(u, n);
    let (al, be) = choose|a: int, b: int| #[trigger] (a * u) + #[trigger] (b * n) == gcd(u, n);
    let ni = n as int;
    assert(x == al * (x * u) + ni * (x * be)) by (nonlinear_arith)
        requires
            al * u + be * n == 1,
            ni == n as int,
    ;
    assert(y == al * (y * u) + ni * (y * be)) by (nonlinear_arith)
        requires
            al * u + be * n == 1,
            ni == n as int,
    ;
    assert(x % ni == (al * (x * u)) % ni) by {
        vstd::arithmetic::div_mod::lemma_mod_multiples_vanish(x * be, al * (x * u), ni);
    }
    assert(y % ni == (al * (y * u)) % ni) by {
        vstd::arithmetic::div_mod::lemma_mod_multiples_vanish(y * be, al * (y * u), ni);
    }
    assert((al * (x * u)) % ni == (al * ((x * u) % ni)) % ni) by {
        vstd::arithmetic::div_mod::lemma_mul_mod_noop_right(al, x * u, ni);
    }
    assert((al * (y * u)) % ni == (al * ((y * u) % ni)) % ni) by {
        vstd::arithmetic::div_mod::lemma_mul_mod_noop_right(al, y * u, ni);
    }
}

/// The two values of a modular power with signed exponent agree.
pub proof fn lemma_spow_unique(b: nat, e: int, n: nat, r1: nat, r2: nat)
    requires
        is_spow(b, e, n, r1),
        is_spow(b, e, n, r2),
        r1 < n,
        r2 < n,
    ensures
        r1 == r2,
{
    if e < 0 {
        let u = powm(b, (-e) as nat, n);
        lemma_inverse_coprime(u, n, r1);
        lemma_mul_cancel(r1 as int, r2 as int, u, n);
        vstd::arithmetic::div_mod::lemma_small_mod(r1, n);
        vstd::arithmetic::div_mod::lemma_small_mod(r2, n);
    }
}

/// Iterated modular powers compose by multiplying the exponents.
pub proof fn lemma_powm_powm(b: nat, s: nat, k: nat, n: nat)
    requires
        n >= 1,
    ensures
        powm(powm(b, s, n), k, n) == powm(b, s * k, n),
{
    lemma_pow_nonneg(b, s);
    lemma_powm_bound(b, s, n);
    let p = powm(b, s, n);
    assert(pow(p as int, k) % (n as int) == pow(pow(b as int, s), k) % (n as int)) by {
        vstd::arithmetic::power::lemma_pow_mod_noop(pow(b as int, s), k, n as int);
    }
    assert(pow(pow(b as int, s), k) == pow(b as int, s * k)) by {
        vstd::arithmetic::power::lemma_pow_multiplies(b as int, s, k);
    }
}

/// Multiplying modular powers (signed exponents) adds the exponents.
proof fn lemma_spow_mul_core(b: nat, e1: int, e2: int, n: nat, r1: nat, r2: nat)
    requires
        n >= 1,
        gcd(b, n) == 1,
        is_spow(b, e1, n, r1),
        is_spow(b, e2, n, r2),
        e1 >= 0 || e2 < 0,
    ensures
        is_spow(b, e1 + e2, n, (r1 * r2) % n),
{
    let ni = n as int;
    vstd::arithmetic::div_mod::lemma_mod_bound((r1 * r2) as int, ni);
    if e1 >= 0 && e2 >= 0 {
        assert(((r1 * r2) % n) as int == (pow(b as int, e1 as nat) * pow(
            b as int,
            e2 as nat,
        )) % ni) by {
            lemma_pow_nonneg(b, e1 as nat);
            lemma_pow_nonneg(b, e2 as nat);
            vstd::arithmetic::div_mod::lemma_mul_mod_noop_general(
                pow(b as int, e1 as nat),
                pow(b as int, e2 as nat),
                ni,
            );
        }
        vstd::arithmetic::power::lemma_pow_adds(b as int, e1 as nat, e2 as nat);
    } else if e1 >= 0 && e2 < 0 {
        let m = (-e2) as nat;
        let pm = powm(b, m, n);
        lemma_pow_nonneg(b, m);
        lemma_powm_bound(b, m, n);
        // (r1 * r2 * pow(b, m)) % n == (r1 * ((r2 * pm) % n)) % n == r1 % n
        assert(((r1 * r2) * pow(b as int, m)) % ni == ((r1 as int) * (((r2 * pm) % n) as int))
            % ni) by {
            vstd::arithmetic::div_mod::lemma_mul_mod_noop_right(
                (r1 * r2) as int,
                pow(b as int, m),
                ni,
            );
            assert((r1 * r2) * pow(b as int, m) == (r1 as int) * ((r2 as int) * (pm as int))
                + (r1 * r2) * (pow(b as int, m) - pm)) by (nonlinear_arith);
            assert(((r1 * r2) * pm) as int == (r1 as int) * ((r2 * pm) as int)) by (nonlinear_arith);
            vstd::arithmetic::div_mod::lemma_mul_mod_noop_right(r1 as int, (r2 * pm) as int, ni);
        }
        assert(((r1 as int) * ((1nat % n) as int)) % ni == (r1 as int) % ni) by {
            vstd::arithmetic::div_mod::lemma_mul_mod_noop_right(r1 as int, 1int, ni);
        }
        assert(((r1 * r2) * pow(b as int, m)) % ni == (r1 as int) % ni);
        if e1 + e2 >= 0 {
            let s = (e1 + e2) as nat;
            // r1 % n == (pow(b, s) * pow(b, m)) % n
            assert(r1 as int == pow(b as int, e1 as nat) % ni);
            vstd::arithmetic::div_mod::lemma_mod_twice(pow(b as int, e1 as nat), ni);
            vstd::arithmetic::power::lemma_pow_adds(b as int, s, m);
            // ((r1*r2) % n * pow(b, m)) % n == (pow(b, s) * pow(b, m)) % n
            assert((((r1 * r2) % n) as int * pow(b as int, m)) % ni == ((r1 * r2) as int * pow(
                b as int,
                m,
            )) % ni) by {
                vstd::arithmetic::div_mod::lemma_mul_mod_noop_left(
                    (r1 * r2) as int,
                    pow(b as int, m),
                    ni,
                );
            }
            assert((pow(b as int, s) * pow(b as int, m)) % ni == ((pow(b as int, s) % ni) * pow(
                b as int,
                m,
            )) % ni) by {
                vstd::arithmetic::div_mod::lemma_mul_mod_noop_left(
                    pow(b as int, s),
                    pow(b as int, m),
                    ni,
                );
            }
            let u = (pow(b as int, m)) as nat;
            lemma_coprime_pow(b, m, n);
            lemma_mul_cancel(((r1 * r2) % n) as int, pow(b as int, s) % ni, u, n);
            lemma_pow_nonneg(b, s);
            vstd::arithmetic::div_mod::lemma_mod_twice(pow(b as int, s), ni);
            vstd::arithmetic::div_mod::lemma_small_mod((r1 * r2) % n, n);
        } else {
            // e1 + e2 < 0: exhibit the inverse directly
            let t = (-(e1 + e2)) as nat;
            // (((r1*r2) % n) * powm(b, t, n)) % n == (r1 * r2 * pow(b, t)) % n
            let pt = powm(b, t, n);
            lemma_pow_nonneg(b, t);
            assert((((r1 * r2) % n) * pt) % n == ((r1 * r2) * pow(b as int, t)) % ni) by {
                vstd::arithmetic::div_mod::lemma_mul_mod_noop_general(
                    (r1 * r2) as int,
                    pow(b as int, t),
                    ni,
                );
            }
            // r1 * pow(b, t) === pow(b, e1 + t) == pow(b, m) (mod n), since e1 + t == m
            assert(e1 + t == m);
            assert(((r1 * r2) * pow(b as int, t)) % ni == ((r2 as int) * ((r1 as int) * pow(
                b as int,
                t,
            ))) % ni) by (nonlinear_arith)
                requires
                    ni == n as int,
                    n >= 1,
            ;
            assert(((r1 as int) * pow(b as int, t)) % ni == pow(b as int, m) % ni) by {
                vstd::arithmetic::div_mod::lemma_mul_mod_noop_left(
                    pow(b as int, e1 as nat),
                    pow(b as int, t),
                    ni,
                );
                vstd::arithmetic::power::lemma_pow_adds(b as int, e1 as nat, t);
            }
            assert(((r2 as int) * ((r1 as int) * pow(b as int, t))) % ni == ((r2 as int) * (pow(
                b as int,
                m,
            ) % ni)) % ni) by {
                vstd::arithmetic::div_mod::lemma_mul_mod_noop_right(
                    r2 as int,
                    (r1 as int) * pow(b as int, t),
                    ni,
                );
                vstd::arithmetic::div_mod::lemma_mul_mod_noop_right(r2 as int, pow(b as int, m), ni);
            }
            assert(((r2 as int) * ((pow(b as int, m) % ni))) % ni == ((r2 * pm) % n) as int) by {
                vstd::arithmetic::div_mod::lemma_mod_bound(pow(b as int, m), ni);
            }
        }
    } else {
        // e1 < 0 and e2 < 0
        let m1 = (-e1) as nat;
        let m2 = (-e2) as nat;
        let p1 = powm(b, m1, n);
        let p2 = powm(b, m2, n);
        lemma_pow_nonneg(b, m1);
        lemma_pow_nonneg(b, m2);
        let t = (m1 + m2) as nat;
        assert((((r1 * r2) % n) * powm(b, t, n)) % n == ((r1 * r2) * pow(b as int, t)) % (
        n as int)) by {
            vstd::arithmetic::div_mod::lemma_mul_mod_noop_general(
                (r1 * r2) as int,
                pow(b as int, t),
                ni,
            );
        }
        vstd::arithmetic::power::lemma_pow_adds(b as int, m1, m2);
        assert(((r1 * r2) * pow(b as int, t)) % ni == (((r1 * p1) as int) * ((r2 * p2) as int))
            % ni) by {
            assert((r1 * r2) * (pow(b as int, m1) * pow(b as int, m2)) == ((r1 as int) * pow(
                b as int,
                m1,
            )) * ((r2 as int) * pow(b as int, m2))) by (nonlinear_arith);
            vstd::arithmetic::div_mod::lemma_mul_mod_noop_general(
                (r1 as int) * pow(b as int, m1),
                (r2 as int) * pow(b as int, m2),
                ni,
            );
            assert(((r1 as int) * pow(b as int, m1)) % ni == ((r1 * p1) % n) as int) by {
                vstd::arithmetic::div_mod::lemma_mul_mod_noop_right(r1 as int, pow(b as int, m1), ni);
            }
            assert(((r2 as int) * pow(b as int, m2)) % ni == ((r2 * p2) % n) as int) by {
                vstd::arithmetic::div_mod::lemma_mul_mod_noop_right(r2 as int, pow(b as int, m2), ni);
            }
            vstd::arithmetic::div_mod::lemma_mul_mod_noop_general(
                ((r1 * p1) % n) as int,
                ((r2 * p2) % n) as int,
                ni,
            );
            vstd::arithmetic::div_mod::lemma_mul_mod_noop_general(
                ((r1 * p1)) as int,
                ((r2 * p2)) as int,
                ni,
            );
        }
        assert((((r1 * p1) as int) * ((r2 * p2) as int)) % ni == ((1nat % n) * (1nat % n)) % n) by {
            vstd::arithmetic::div_mod::lemma_mul_mod_noop_general(
                (r1 * p1) as int,
                (r2 * p2) as int,
                ni,
            );
        }
        assert(((1nat % n) * (1nat % n)) % n == 1nat % n) by {
            vstd::arithmetic::div_mod::lemma_mul_mod_noop_general(1int, 1int, ni);
            vstd::arithmetic::div_mod::lemma_mod_twice(1int, ni);
        }
    }
}

/// Multiplying modular powers with signed exponents adds the exponents.
pub proof fn lemma_spow_mul(b: nat, e1: int, e2: int, n: nat, r1: nat, r2: nat)
    requires
        n >= 1,
        gcd(b, n) == 1,
        is_spow(b, e1, n, r1),
        is_spow(b, e2, n, r2),
    ensures
        is_spow(b, e1 + e2, n, (r1 * r2) % n),
{
    if e1 >= 0 || e2 < 0 {
        lemma_spow_mul_core(b, e1, e2, n, r1, r2);
    } else {
        lemma_spow_mul_core(b, e2, e1, n, r2, r1);
        assert(r1 * r2 == r2 * r1);
    }
}

/// Raising a modular power with signed exponent to a natural power
/// multiplies the exponents.
pub proof fn lemma_spow_pow(b: nat, e: int, n: nat, r: nat, k: nat)
    requires
        n >= 1,
        is_spow(b, e, n, r),
    ensures
        is_spow(b, e * k, n, powm(r, k, n)),
{
    let ni = n as int;
    lemma_powm_bound(r, k, n);
    if e >= 0 {
        lemma_powm_powm(b, e as nat, k, n);
        assert((e as nat) * k == e * k);
    } else {
        let m = (-e) as nat;
        if k == 0 {
            assert(powm(r, 0, n) == 1nat % n) by {
                vstd::arithmetic::power::lemma_pow0(r as int);
            }
            assert(powm(b, 0, n) == 1nat % n) by {
                vstd::arithmetic::power::lemma_pow0(b as int);
            }
        } else {
            let t = m * k;
            assert(e * k == -(t as int)) by (nonlinear_arith)
                requires
                    e < 0,
                    m == -e,
                    t == m * k,
            ;
            assert(t >= 1) by (nonlinear_arith)
                requires
                    m >= 1,
                    k >= 1,
                    t == m * k,
            ;
            let pm = powm(b, m, n);
            lemma_pow_nonneg(b, m);
            lemma_pow_nonneg(b, t);
            lemma_pow_nonneg(r, k);
            // (powm(r,k,n) * powm(b,t,n)) % n == (pow(r,k) * pow(b,t)) % n
            assert((powm(r, k, n) * powm(b, t, n)) % n == (pow(r as int, k) * pow(b as int, t))
                % ni) by {
                vstd::arithmetic::div_mod::lemma_mul_mod_noop_general(
                    pow(r as int, k),
                    pow(b as int, t),
                    ni,
                );
            }
            // pow(r,k) * pow(b,t) == pow(r * pow(b,m), k)
            assert(pow(b as int, t) == pow(pow(b as int, m), k)) by {
                vstd::arithmetic::power::lemma_pow_multiplies(b as int, m, k);
            }
            assert(pow(r as int, k) * pow(pow(b as int, m), k) == pow(
                (r as int) * pow(b as int, m),
                k,
            )) by {
                vstd::arithmetic::power::lemma_pow_distributes(r as int, pow(b as int, m), k);
            }
            // pow(r * pow(b,m), k) % n == pow((r * pm) % n, k) % n == pow(1 % n, k) % n == 1 % n
            assert(pow((r as int) * pow(b as int, m), k) % ni == pow(((r * pm) % n) as int, k)
                % ni) by {
                assert((r as int) * pow(b as int, m) == (r * pm) as int + (r as int) * (pow(
                    b as int,
                    m,
                ) - pm)) by (nonlinear_arith);
                vstd::arithmetic::div_mod::lemma_mul_mod_noop_right(r as int, pow(b as int, m), ni);
                vstd::arithmetic::power::lemma_pow_mod_noop((r as int) * pow(b as int, m), k, ni);
                vstd::arithmetic::power::lemma_pow_mod_noop((r * pm) as int, k, ni);
                vstd::arithmetic::div_mod::lemma_mod_twice((r * pm) as int, ni);
            }
            assert(pow(((r * pm) % n) as int, k) % ni == 1int % ni) by {
                vstd::arithmetic::power::lemma_pow_mod_noop(1int, k, ni);
                vstd::arithmetic::power::lemma_pow_mod_noop(((r * pm) % n) as int, k, ni);
                vstd::arithmetic::div_mod::lemma_mod_twice(1int, ni);
                vstd::arithmetic::power::lemma1_pow(k);
            }
        }
    }
}

/// Signed powers of two bases with one exponent multiply to a signed power
/// of the product of the bases.
pub proof fn lemma_spow_base_mul(x: nat, y: nat, e: int, n: nat, r1: nat, r2: nat)
    requires
        n >= 1,
        is_spow(x, e, n, r1),
        is_spow(y, e, n, r2),
    ensures
        is_spow((x * y) % n, e, n, (r1 * r2) % n),
{
    let ni = n as int;
    vstd::arithmetic::div_mod::lemma_mod_bound((r1 * r2) as int, ni);
    if e >= 0 {
        let k = e as nat;
        lemma_pow_nonneg(x, k);
        lemma_pow_nonneg(y, k);
        assert(((r1 * r2) % n) as int == (pow(x as int, k) * pow(y as int, k)) % ni) by {
            vstd::arithmetic::div_mod::lemma_mul_mod_noop_general(
                pow(x as int, k),
                pow(y as int, k),
                ni,
            );
        }
        vstd::arithmetic::power::lemma_pow_distributes(x as int, y as int, k);
        vstd::arithmetic::power::lemma_pow_mod_noop((x * y) as int, k, ni);
    } else {
        let m = (-e) as nat;
        lemma_pow_nonneg(x, m);
        lemma_pow_nonneg(y, m);
        let px = powm(x, m, n);
        let py = powm(y, m, n);
        assert(powm((x * y) % n, m, n) == powm(x * y, m, n)) by {
            vstd::arithmetic::power::lemma_pow_mod_noop((x * y) as int, m, ni);
        }
        assert((((r1 * r2) % n) * powm(x * y, m, n)) % n == ((r1 * r2) * pow((x * y) as int, m))
            % ni) by {
            vstd::arithmetic::div_mod::lemma_mul_mod_noop_general(
                (r1 * r2) as int,
                pow((x * y) as int, m),
                ni,
            );
        }
        vstd::arithmetic::power::lemma_pow_distributes(x as int, y as int, m);
        assert((r1 * r2) * (pow(x as int, m) * pow(y as int, m)) == ((r1 as int) * pow(x as int, m))
            * ((r2 as int) * pow(y as int, m))) by (nonlinear_arith);
        assert((((r1 as int) * pow(x as int, m)) * ((r2 as int) * pow(y as int, m))) % ni == (((r1
            * px) % n) as int * (((r2 * py) % n) as int)) % ni) by {
            assert(((r1 as int) * pow(x as int, m)) % ni == ((r1 * px) % n) as int) by {
                vstd::arithmetic::div_mod::lemma_mul_mod_noop_right(r1 as int, pow(x as int, m), ni);
            }
            assert(((r2 as int) * pow(y as int, m)) % ni == ((r2 * py) % n) as int) by {
                vstd::arithmetic::div_mod::lemma_mul_mod_noop_right(r2 as int, pow(y as int, m), ni);
            }
            vstd::arithmetic::div_mod::lemma_mul_mod_noop_general(
                (r1 as int) * pow(x as int, m),
                (r2 as int) * pow(y as int, m),
                ni,
            );
            vstd::arithmetic::div_mod::lemma_mul_mod_noop_general(
                ((r1 * px) % n) as int,
                ((r2 * py) % n) as int,
                ni,
            );
        }
        assert(((1nat % n) * (1nat % n)) % n == 1nat % n) by {
            vstd::arithmetic::div_mod::lemma_mul_mod_noop_general(1int, 1int, ni);
            vstd::arithmetic::div_mod::lemma_mod_twice(1int, ni);
        }
    }
}

/// Changing the base of a modular power: if `a == b^x mod n` then a power of
/// `a` with signed exponent `k` is a power of `b` with exponent `x * k`, and
/// conversely.
pub proof fn lemma_spow_rebase(b: nat, x: nat, a: nat, n: nat, k: int, r: nat)
    requires
        n >= 1,
        a == powm(b, x, n),
    ensures
        is_spow(a, k, n, r) ==> is_spow(b, x * k, n, r),
        x >= 1 && is_spow(b, x * k, n, r) ==> is_spow(a, k, n, r),
{
    if k >= 0 {
        lemma_powm_powm(b, x, k as nat, n);
        assert(x * (k as nat) == x * k);
        assert(is_spow(a, k, n, r) <==> r == powm(a, k as nat, n));
        if x >= 1 {
            assert(x * k >= 0) by (nonlinear_arith)
                requires
                    x >= 1,
                    k >= 0,
            ;
        }
    } else {
        let m = (-k) as nat;
        lemma_powm_powm(b, x, m, n);
        assert(x * m == -(x * (k as int))) by (nonlinear_arith)
            requires
                m == -k,
        ;
        if x == 0 {
            assert(x * k == 0) by (nonlinear_arith)
                requires
                    x == 0,
            ;
            // is_spow(a, k, n, r) means r inverts powm(b, 0, n) ... handled below
            if is_spow(a, k, n, r) {
                // powm(a, m, n) == powm(b, 0, n) == 1 % n
                assert((r * powm(a, m, n)) % n == 1nat % n);
                assert(powm(a, m, n) == powm(b, x * m, n));
                assert(x * m == 0) by (nonlinear_arith)
                    requires
                        x == 0,
                ;
                assert(powm(b, 0, n) == 1nat % n) by {
                    vstd::arithmetic::power::lemma_pow0(b as int);
                }
                // r * (1 % n) % n == 1 % n, and is_spow(b, 0, n, r) wants r == 1 % n
                assert(((r * (1nat % n)) % n) as int == (r as int) % (n as int)) by {
                    vstd::arithmetic::div_mod::lemma_mul_mod_noop_right(r as int, 1int, n as int);
                    vstd::arithmetic::div_mod::lemma_mod_twice(1int, n as int);
                }
                vstd::arithmetic::div_mod::lemma_small_mod(r, n);
                vstd::arithmetic::div_mod::lemma_mod_twice(1int, n as int);
                assert(r == 1nat % n);
                assert(powm(b, (x * k) as nat, n) == 1nat % n) by {
                    vstd::arithmetic::power::lemma_pow0(b as int);
                }
            }
        } else {
            assert(x * k < 0) by (nonlinear_arith)
                requires
                    x >= 1,
                    k < 0,
            ;
            assert((-(x * k)) as nat == x * m);
            assert(powm(a, m, n) == powm(b, x * m, n));
        }
    }
}

/// Splitting an exact division by a product into two nested divisions.
pub proof fn lemma_nested_div(s: nat, p: nat, x: nat)
    requires
        p >= 1,
        x >= 1,
        divides(p * x, s),
    ensures
        divides(p, s),
        divides(x, s / p),
        s / p == x * (s / (p * x)),
        (s / p) / x == s / (p * x),
{
    let k = choose|k: nat| s == #[trigger] ((p * x) * k);
    assert(s == p * (x * k)) by (nonlinear_arith)
        requires
            s == (p * x) * k,
    ;
    vstd::arithmetic::div_mod::lemma_div_multiples_vanish((x * k) as int, p as int);
    assert(s / p == x * k);
    assert(divides(x, s / p));
    assert(p * x >= 1) by (nonlinear_arith)
        requires
            p >= 1,
            x >= 1,
    ;
    vstd::arithmetic::div_mod::lemma_div_multiples_vanish(k as int, (p * x) as int);
    assert(s / (p * x) == k);
    vstd::arithmetic::div_mod::lemma_div_multiples_vanish(k as int, x as int);
    assert((s / p) / x == k);
}

/// A modular power of a unit is a unit.
pub proof fn lemma_powm_coprime(g: nat, e: nat, n: nat)
    requires
        n >= 1,
        gcd(g, n) == 1,
    ensures
        gcd(powm(g, e, n), n) == 1,
{
    lemma_coprime_pow(g, e, n);
    lemma_pow_nonneg(g, e);
    lemma_gcd_mod_noop((pow(g as int, e)) as nat, n);
}

/// If a positive modular power of `w` is a unit, so is `w`.
pub proof fn lemma_powm_coprime_rev(w: nat, x: nat, n: nat)
    requires
        n >= 1,
        x >= 1,
        gcd(powm(w, x, n), n) == 1,
    ensures
        gcd(w, n) == 1,
{
    lemma_pow_nonneg(w, x);
    lemma_gcd_mod_noop((pow(w as int, x)) as nat, n);
    lemma_coprime_pow_rev(w, x, n);
}

/// One is coprime to everything.
pub proof fn lemma_gcd_one_left(y: nat)
    ensures
        gcd(1, y) == 1,
{
    if y == 0 {
    } else if y == 1 {
        assert(1nat % 1 == 0) by {
            vstd::arithmetic::div_mod::lemma_mod_multiples_basic(1int, 1int);
        }
        assert(gcd(1, 1) == gcd(1, 0));
    } else {
        vstd::arithmetic::div_mod::lemma_small_mod(1, y);
        assert(gcd(1, y) == gcd(y, 1));
        assert(1nat % 1 == 0) by {
            vstd::arithmetic::div_mod::lemma_mod_multiples_basic(1int, 1int);
        }
        assert(gcd(y, 1) == gcd(1, y % 1));
        assert(y % 1 == 0) by {
            vstd::arithmetic::div_mod::lemma_mod_multiples_basic(y as int, 1int);
        }
    }
}

/// Divisibility is transitive.
pub proof fn lemma_divides_trans(a: nat, b: nat, c: nat)
    requires
        divides(a, b),
        divides(b, c),
    ensures
        divides(a, c),
{
    let k1 = choose|k: nat| b == #[trigger] (a * k);
    let k2 = choose|k: nat| c == #[trigger] (b * k);
    assert(c == a * (k1 * k2)) by (nonlinear_arith)
        requires
            b == a * k1,
            c == b * k2,
    ;
}

/// A product of factors each coprime to `y` is coprime to `y`.
pub proof fn lemma_uprod_coprime(s: Seq<nat>, y: nat)
    requires
        forall|i: int| 0 <= i < s.len() ==> gcd(#[trigger] s[i], y) == 1,
    ensures
        gcd(uprod(s), y) == 1,
    decreases s.len(),
{
    if s.len() == 0 {
        lemma_gcd_one_left(y);
    } else {
        lemma_uprod_coprime(s.drop_first(), y);
        lemma_coprime_mul(s[0], uprod(s.drop_first()), y);
    }
}

/// A number coprime to the modulus has a multiplicative inverse.
pub proof fn lemma_inverse_exists(u: nat, n: nat)
    requires
        n >= 1,
        gcd(u, n) == 1,
    ensures
        exists|v: nat|
            v < n && (#[trigger] (v * u)) % n == 1nat % n,
{
    lemma_bezout(u, n);
    let (al, be) = choose|x: int, y: int| #[trigger] (x * u) + #[trigger] (y * n) == gcd(u, n);
    let ni = n as int;
    let v = al % ni;
    vstd::arithmetic::div_mod::lemma_mod_bound(al, ni);
    assert((v * u) % ni == (al * u) % ni) by {
        vstd::arithmetic::div_mod::lemma_mul_mod_noop_left(al, u as int, ni);
        vstd::arithmetic::div_mod::lemma_mod_twice(al, ni);
        vstd::arithmetic::div_mod::lemma_mul_mod_noop_left(al % ni, u as int, ni);
    }
    assert(al * u == ni * (-be) + 1) by (nonlinear_arith)
        requires
            al * u + be * n == 1,
            ni == n as int,
    ;
    assert((ni * (-be) + 1) % ni == 1int % ni) by {
        vstd::arithmetic::div_mod::lemma_mod_multiples_vanish(-be, 1int, ni);
    }
    assert((v as nat) < n && ((v as nat) * u) % n == 1nat % n);
}

/// The product of a concatenation is the product of the products.
pub proof fn lemma_uprod_concat(s: Seq<nat>, t: Seq<nat>)
    ensures
        uprod(s + t) == uprod(s) * uprod(t),
    decreases s.len(),
{
    if s.len() == 0 {
        assert(s + t =~= t);
        assert(uprod(s) == 1);
    } else {
        assert((s + t).drop_first() =~= s.drop_first() + t);
        lemma_uprod_concat(s.drop_first(), t);
        assert((s + t)[0] == s[0]);
        assert(s[0] * (uprod(s.drop_first()) * uprod(t)) == (s[0] * uprod(s.drop_first())) * uprod(
            t,
        )) by (nonlinear_arith);
    }
}

/// Appending one factor multiplies the product by it.
pub proof fn lemma_uprod_push(s: Seq<nat>, v: nat)
    ensures
        uprod(s.push(v)) == uprod(s) * v,
{
    let single = seq![v];
    assert(s.push(v) =~= s + single);
    lemma_uprod_concat(s, single);
    assert(single.drop_first() =~= Seq::<nat>::empty());
    assert(single.len() == 1 && single[0] == v);
    assert(uprod(single.drop_first()) == 1);
    assert(uprod(single) == v * uprod(single.drop_first()));
    assert(v * 1 == v) by (nonlinear_arith);
}

/// Any entry can be pulled out of a product.
pub proof fn lemma_uprod_remove(s: Seq<nat>, i: int)
    requires
        0 <= i < s.len(),
    ensures
        uprod(s) == s[i] * uprod(s.remove(i)),
    decreases i,
{
    if i == 0 {
        assert(s.remove(0) =~= s.drop_first());
    } else {
        lemma_uprod_remove(s.drop_first(), i - 1);
        assert(s.remove(i).drop_first() =~= s.drop_first().remove(i - 1));
        assert(s.remove(i)[0] == s[0]);
        let p = uprod(s.drop_first().remove(i - 1));
        assert(s[0] * (s.drop_first()[i - 1] * p) == s.drop_first()[i - 1] * (s[0]
            * p)) by (nonlinear_arith);
        assert(s.drop_first()[i - 1] == s[i]);
    }
}

/// A product of positive factors is positive.
pub proof fn lemma_uprod_pos(s: Seq<nat>)
    requires
        forall|i: int| 0 <= i < s.len() ==> s[i] >= 1,
    ensures
        uprod(s) >= 1,
    decreases s.len(),
{
    if s.len() > 0 {
        lemma_uprod_pos(s.drop_first());
        assert(s[0] * uprod(s.drop_first()) >= 1) by (nonlinear_arith)
            requires
                s[0] >= 1,
                uprod(s.drop_first()) >= 1,
        ;
    }
}

/// Conversely, if a positive power of `b` is coprime to `n`, so is `b`.
pub proof fn lemma_coprime_pow_rev(b: nat, k: nat, n: nat)
    requires
        k >= 1,
        gcd((pow(b as int, k)) as nat, n) == 1,
    ensures
        gcd(b, n) == 1,
{
    lemma_pow_nonneg(b, k);
    let p = (pow(b as int, k)) as nat;
    lemma_bezout(p, n);
    let (x, y) = choose|x: int, y: int| #[trigger] (x * p) + #[trigger] (y * n) == gcd(p, n);
    assert(pow(b as int, k) == b * pow(b as int, (k - 1) as nat)) by {
        vstd::arithmetic::power::lemma_pow_adds(b as int, 1, (k - 1) as nat);
        vstd::arithmetic::power::lemma_pow1(b as int);
    }
    let q = pow(b as int, (k - 1) as nat);
    assert((x * q) * b + y * n == 1) by (nonlinear_arith)
        requires
            x * ((b * q) as int) + y * n == 1,
    ;
    lemma_combination_one_implies_coprime(b, n, x * q, y);
}

} // verus!
