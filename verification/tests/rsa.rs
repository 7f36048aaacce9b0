use accumulators::math::{extended_gcd, mod_inverse, modpow_uint_int, shamir_trick};
use accumulators::rsa::RsaAccumulator;

use num_bigint_dig::{BigInt, BigUint, RandPrime, Sign};
use num_traits::{FromPrimitive, One, Zero};
use rand::SeedableRng;
use rand_xorshift::XorShiftRng;

#[test]
fn test_static() {
    let rng = &mut XorShiftRng::from_seed([0u8; 16]);

    // 20 rounds: each round draws seven fresh 256-bit primes, which keeps
    // the randomized suite within its time budget
    for _ in 0..20 {
        let lambda = 256; // insecure, but faster tests
        let mut acc = RsaAccumulator::setup(lambda).unwrap();

        let xs = (0..5).map(|_| rng.gen_prime(lambda)).collect::<Vec<_>>();

        for x in &xs {
            acc.add(x);
        }

        for x in &xs {
            let w = acc.mem_wit_create(x);
            assert!(acc.ver_mem(&w, x));
        }
    }
}

#[test]
fn test_dynamic() {
    let rng = &mut XorShiftRng::from_seed([0u8; 16]);

    for _ in 0..20 {
        let lambda = 256; // insecure, but faster tests
        let mut acc = RsaAccumulator::setup(lambda).unwrap();

        let xs = (0..5).map(|_| rng.gen_prime(lambda)).collect::<Vec<_>>();

        for x in &xs {
            acc.add(x);
        }

        let ws = xs
            .iter()
            .map(|x| {
                let w = acc.mem_wit_create(x);
                assert!(acc.ver_mem(&w, x));
                w
            })
            .collect::<Vec<_>>();

        for (x, w) in xs.iter().zip(ws.iter()) {
            // remove x
            acc.del(x).unwrap();
            // make sure test now fails
            assert!(!acc.ver_mem(w, x));
        }
    }
}

#[test]
fn test_universal() {
    let rng = &mut XorShiftRng::from_seed([0u8; 16]);

    for _ in 0..20 {
        let lambda = 256; // insecure, but faster tests
        let mut acc = RsaAccumulator::setup(lambda).unwrap();

        let xs = (0..5).map(|_| rng.gen_prime(lambda)).collect::<Vec<_>>();

        for x in &xs {
            acc.add(x);
        }

        for _ in 0..5 {
            let y = rng.gen_prime(lambda);

            let w = acc.non_mem_wit_create(&y);
            assert!(acc.ver_non_mem(&w, &y));
        }
    }
}

#[test]
fn test_math_non_mempership() {
    let rng = &mut XorShiftRng::from_seed([0u8; 16]);

    let lambda = 32;

    let x = rng.gen_prime(lambda);
    let s1 = rng.gen_prime(lambda);
    let s2 = rng.gen_prime(lambda);

    let n = BigUint::from_u32(43 * 67).unwrap();
    let g = BigUint::from_u32(49).unwrap();

    // s* = \prod s
    let mut s_star = BigUint::one();
    s_star *= &s1;
    s_star *= &s2;

    // A = g ^ s*
    let a_t = g.modpow(&s_star, &n);

    let (_, a, b) = extended_gcd(&x, &s_star);
    println!("{} {} {} {}", &g, &a, &b, &n);

    let u = BigInt::from_biguint(Sign::Plus, x.clone());
    let v = BigInt::from_biguint(Sign::Plus, s_star);
    let lhs = a.clone() * &u;
    let rhs = b.clone() * &v;
    println!("> {} * {} + {} * {} == 1", &a, &u, &b, &v);
    assert_eq!(lhs + &rhs, BigInt::one());

    // d = g^a mod n
    let d = modpow_uint_int(&g, &a, &n).unwrap();
    println!("> {} = {}^{} mod {}", &d, &g, &a, &n);

    // A^b
    let a_b = modpow_uint_int(&a_t, &b, &n).unwrap();
    println!("> {} = {}^{} mod {}", &a_b, &a_t, &b, &n);

    // A^b == g^{s* * b}
    let res = modpow_uint_int(&g, &(&v * &b), &n).unwrap();
    println!("> {} = {}^({} * {}) mod {}", &res, &g, &v, &b, &n);
    assert_eq!(a_b, res);

    // d^x
    let d_x = d.modpow(&x, &n);
    println!("> (d_x) {} = {}^{} mod {}", &d_x, &d, &x, &n);

    // d^x == g^{a * x}
    let res = modpow_uint_int(&g, &(&a * &u), &n).unwrap();
    println!("> (d_x) {} = {}^({} * {}) mod {}", &res, &g, &a, &u, &n);
    assert_eq!(d_x, res);

    // d^x A^b == g
    let lhs = (&d_x * &a_b) % &n;
    println!("> {} = {} * {} mod {}", &lhs, &d_x, &a_b, &n);
    assert_eq!(lhs, g);
}

fn test_batch_add_size(size: usize) {
    println!("batch_add_size {}", size);
    let rng = &mut XorShiftRng::from_seed([0u8; 16]);

    let lambda = 256; // insecure, but faster tests
    let mut acc = RsaAccumulator::setup(lambda).unwrap();

    // regular add
    let x0 = rng.gen_prime(lambda);
    acc.add(&x0);

    // batch add
    let a_t = acc.state().clone();
    let xs = (0..size).map(|_| rng.gen_prime(lambda)).collect::<Vec<_>>();
    let w = acc.batch_add(&xs);

    // verify batch add
    assert!(acc.ver_batch_add(&w, &a_t, &xs), "ver_batch_add failed");

    // delete with member
    let x = &xs[2];
    let w = acc.mem_wit_create(x);
    assert!(acc.ver_mem(&w, x), "failed to verify valid witness");

    acc.del_w_mem(&w, x).unwrap();
    assert!(
        !acc.ver_mem(&w, x),
        "witness verified, even though it was deleted"
    );

    // create all members witness
    // current state contains xs\x + x0
    let mut s = vec![x0.clone(), xs[0].clone(), xs[1].clone()];
    s.extend(xs.iter().skip(3).cloned());

    let ws = acc.create_all_mem_wit(&s);

    for (w, x) in ws.iter().zip(s.iter()) {
        assert!(acc.ver_mem(w, x));
    }

    // batch delete
    let a_t = acc.state().clone();
    let pairs = s
        .iter()
        .cloned()
        .zip(ws.iter().cloned())
        .take(3)
        .collect::<Vec<_>>();
    let w = acc.batch_del(&pairs).unwrap();

    assert!(
        acc.ver_batch_del(&w, &a_t, &s[..3].to_vec()),
        "ver_batch_del failed"
    );
}

#[test]
fn test_batch_add_small() {
    for i in 4..14 {
        test_batch_add_size(i)
    }
}

#[test]
fn test_batch_add_large() {
    let size = 128;
    let rng = &mut XorShiftRng::from_seed([0u8; 16]);
    let lambda = 256; // insecure, but faster tests
    let mut acc = RsaAccumulator::setup(lambda).unwrap();

    // regular add
    let x0 = rng.gen_prime(lambda);
    acc.add(&x0);

    // batch add
    let a_t = acc.state().clone();
    let xs = (0..size).map(|_| rng.gen_prime(lambda)).collect::<Vec<_>>();
    let w = acc.batch_add(&xs);

    // verify batch add
    assert!(acc.ver_batch_add(&w, &a_t, &xs), "ver_batch_add failed");

    // batch add
    let a_t = acc.state().clone();
    let xs = (0..size).map(|_| rng.gen_prime(lambda)).collect::<Vec<_>>();
    let w = acc.batch_add(&xs);

    // verify batch add
    assert!(acc.ver_batch_add(&w, &a_t, &xs), "ver_batch_add failed");
}

#[test]
fn test_aggregation() {
    let rng = &mut XorShiftRng::from_seed([0u8; 16]);

    for _ in 0..10 {
        let lambda = 256; // insecure, but faster tests
        let mut acc = RsaAccumulator::setup(lambda).unwrap();

        // regular add
        let xs = (0..5).map(|_| rng.gen_prime(lambda)).collect::<Vec<_>>();

        for x in &xs {
            acc.add(x);
        }

        // AggMemWit
        {
            let x = &xs[0];
            let y = &xs[1];
            let w_x = acc.mem_wit_create(x);
            let w_y = acc.mem_wit_create(y);

            let (w_xy, p_wxy) = acc.agg_mem_wit(&w_x, &w_y, x, y);

            assert!(
                acc.ver_agg_mem_wit(&w_xy, &p_wxy, x, y),
                "invalid agg_mem_wit proof"
            );
        }

        // MemWitCreate*
        {
            let pis = (0..5)
                .map(|i| acc.mem_wit_create_star(&xs[i]))
                .collect::<Vec<_>>();
            for (pi, x) in pis.iter().zip(&xs) {
                assert!(acc.ver_mem_star(x, pi), "invalid mem_wit_create_star proof");
            }
        }

        // MemWitX
        {
            let mut acc = RsaAccumulator::setup(lambda).unwrap();
            let mut other = acc.clone();
            let x = rng.gen_prime(128);
            let y = rng.gen_prime(128);

            assert!(extended_gcd(&x, &y).0.is_one(), "x, y must be coprime");

            acc.add(&x);
            other.add(&y);

            let w_x = acc.mem_wit_create(&x);
            let w_y = other.mem_wit_create(&y);

            assert!(acc.ver_mem(&w_x, &x));
            assert!(other.ver_mem(&w_y, &y));

            let w_xy = acc.mem_wit_x(other.state(), &w_x, &w_y, &x, &y);
            assert!(
                acc.ver_mem_x(other.state(), &w_xy, &x, &y),
                "invalid ver_mem_x witness"
            );
        }
    }
}

#[test]
fn test_aggregation_non_mem_star() {
    let rng = &mut XorShiftRng::from_seed([0u8; 16]);

    for _ in 0..10 {
        let lambda = 256; // insecure, but faster tests
        let mut acc = RsaAccumulator::setup(lambda).unwrap();

        // regular add
        let xs = (0..5).map(|_| rng.gen_prime(lambda)).collect::<Vec<_>>();

        for x in &xs {
            acc.add(x);
        }

        let x = rng.gen_prime(lambda);
        let pi = acc.non_mem_wit_create_star(&x);

        assert!(acc.ver_non_mem_star(&x, &pi), "invalid ver_non_mem_star");
    }
}

#[test]
fn test_extended_gcd_exact() {
    let a = BigUint::from_u32(240).unwrap();
    let b = BigUint::from_u32(46).unwrap();
    let (g, x, y) = extended_gcd(&a, &b);
    assert_eq!(g, BigUint::from_u32(2).unwrap());
    let ai = BigInt::from_biguint(Sign::Plus, a);
    let bi = BigInt::from_biguint(Sign::Plus, b);
    assert_eq!(&x * &ai + &y * &bi, BigInt::from_u32(2).unwrap());
}

#[test]
fn test_mod_inverse_exact() {
    let a = BigUint::from_u32(3).unwrap();
    let m = BigUint::from_u32(11).unwrap();
    assert_eq!(mod_inverse(&a, &m), Some(BigUint::from_u32(4).unwrap()));

    // 6 and 9 share a factor with 12: no inverse
    let a = BigUint::from_u32(6).unwrap();
    let m = BigUint::from_u32(12).unwrap();
    assert_eq!(mod_inverse(&a, &m), None);
}

#[test]
fn test_modpow_signed_exact() {
    let base = BigUint::from_u32(2).unwrap();
    let n = BigUint::from_u32(5).unwrap();
    // 2^3 mod 5 == 3
    let e = BigInt::from_u32(3).unwrap();
    assert_eq!(
        modpow_uint_int(&base, &e, &n),
        Some(BigUint::from_u32(3).unwrap())
    );
    // 2^-1 mod 5 == 3, since 2 * 3 == 6 == 1 (mod 5)
    let e = BigInt::from_i32(-1).unwrap();
    assert_eq!(
        modpow_uint_int(&base, &e, &n),
        Some(BigUint::from_u32(3).unwrap())
    );
    // 2 has no inverse modulo 6
    let n = BigUint::from_u32(6).unwrap();
    assert_eq!(modpow_uint_int(&base, &e, &n), None);
}

#[test]
fn test_shamir_trick_exact() {
    // g = 2, n = 35, s = 15: w_x = 2^5 = 32 witnesses x = 3,
    // w_y = 2^3 = 8 witnesses y = 5, both against A = 2^15 mod 35 = 8.
    let n = BigUint::from_u32(35).unwrap();
    let x = BigUint::from_u32(3).unwrap();
    let y = BigUint::from_u32(5).unwrap();
    let w_x = BigUint::from_u32(32).unwrap();
    let w_y = BigUint::from_u32(8).unwrap();
    let a = BigUint::from_u32(8).unwrap();

    assert_eq!(w_x.modpow(&x, &n), a);
    assert_eq!(w_y.modpow(&y, &n), a);

    let w = shamir_trick(&w_x, &w_y, &x, &y, &n).unwrap();
    let xy = BigUint::from_u32(15).unwrap();
    assert_eq!(w.modpow(&xy, &n), a);

    // not coprime: fails
    assert_eq!(shamir_trick(&w_x, &w_y, &x, &x, &n), None);
}

#[test]
fn test_universal_small_modulus() {
    // n = 43 * 67 = 2881, g = 49, members 11 and 13, non-member 7
    let n = BigUint::from_u32(2881).unwrap();
    let g = BigUint::from_u32(49).unwrap();
    let x = BigUint::from_u32(7).unwrap();
    let s_star = BigUint::from_u32(11 * 13).unwrap();

    let a_t = g.modpow(&s_star, &n);

    let (one, a, b) = extended_gcd(&x, &s_star);
    assert!(one.is_one());
    // 7a + 143b == 1
    let xi = BigInt::from_u32(7).unwrap();
    let si = BigInt::from_u32(143).unwrap();
    assert_eq!(&a * &xi + &b * &si, BigInt::one());

    let d = modpow_uint_int(&g, &a, &n).unwrap();
    let a_b = modpow_uint_int(&a_t, &b, &n).unwrap();
    let lhs = (&d.modpow(&x, &n) * &a_b) % &n;
    assert_eq!(lhs, g);
}

#[test]
fn test_fiat_shamir_deterministic() {
    let rng = &mut XorShiftRng::from_seed([0u8; 16]);
    let lambda = 256;
    let mut acc = RsaAccumulator::setup(lambda).unwrap();

    let x = rng.gen_prime(lambda);
    acc.add(&x);

    // proving the same claim twice yields byte-identical proofs
    let (w1, p1) = acc.mem_wit_create_star(&x);
    let (w2, p2) = acc.mem_wit_create_star(&x);
    assert_eq!(w1, w2);
    assert_eq!(p1, p2);

    // two non-membership witnesses over the same input agree as well
    let y = rng.gen_prime(lambda);
    let (d1, b1) = acc.non_mem_wit_create(&y);
    let (d2, b2) = acc.non_mem_wit_create(&y);
    assert_eq!(d1, d2);
    assert_eq!(b1, b2);
}

#[test]
fn test_batch_add_rejects_tampering() {
    let rng = &mut XorShiftRng::from_seed([0u8; 16]);
    let lambda = 256;
    let mut acc = RsaAccumulator::setup(lambda).unwrap();

    let x0 = rng.gen_prime(lambda);
    acc.add(&x0);

    let a_t = acc.state().clone();
    let xs = (0..4).map(|_| rng.gen_prime(lambda)).collect::<Vec<_>>();
    let w = acc.batch_add(&xs);
    assert!(acc.ver_batch_add(&w, &a_t, &xs));

    // a corrupted proof is rejected
    let bad = &w + BigUint::one();
    assert!(!acc.ver_batch_add(&bad, &a_t, &xs));

    // omitting a prime from the list is rejected
    let short = xs[..3].to_vec();
    assert!(!acc.ver_batch_add(&w, &a_t, &short));
}

#[test]
fn test_del_absent_returns_none() {
    let rng = &mut XorShiftRng::from_seed([0u8; 16]);
    let lambda = 256;
    let mut acc = RsaAccumulator::setup(lambda).unwrap();

    let x = rng.gen_prime(lambda);
    let y = rng.gen_prime(lambda);
    acc.add(&x);

    let before = acc.state().clone();
    // y was never added
    assert_eq!(acc.del(&y), None);
    assert_eq!(acc.state(), &before);
    // deleting a member succeeds
    assert_eq!(acc.del(&x), Some(()));

    // batch_del of nothing is None
    assert_eq!(acc.batch_del(&vec![]), None);
}

#[test]
fn test_encoding_exact() {
    // 1125 = 0x04 0x65: eight-byte length prefix, then the magnitude
    let mut buf: Vec<u8> = Vec::new();
    accumulators::encode::push_uint(&mut buf, &BigUint::from_u32(1125).unwrap());
    assert_eq!(buf, vec![0, 0, 0, 0, 0, 0, 0, 2, 4, 101]);

    let mut buf: Vec<u8> = Vec::new();
    accumulators::encode::push_uint(&mut buf, &BigUint::zero());
    assert_eq!(buf, vec![0, 0, 0, 0, 0, 0, 0, 1, 0]);

    // the challenge is a prime above the hashed transcript, and deterministic
    let data = vec![1u8, 2, 3];
    let l1 = accumulators::encode::hash_to_prime(&data);
    let l2 = accumulators::encode::hash_to_prime(&data);
    assert_eq!(l1, l2);
    assert!(l1 > BigUint::one());
}

#[test]
fn test_root_factor_exact() {
    // g = 2, n = 101, primes [3, 5, 7]: witnesses 2^35, 2^21, 2^15 mod 101
    let g = BigUint::from_u32(2).unwrap();
    let n = BigUint::from_u32(101).unwrap();
    let primes = vec![
        BigUint::from_u32(3).unwrap(),
        BigUint::from_u32(5).unwrap(),
        BigUint::from_u32(7).unwrap(),
    ];
    let ws = accumulators::math::root_factor(&g, &primes, &n);
    assert_eq!(ws.len(), 3);
    assert_eq!(ws[0], g.modpow(&BigUint::from_u32(35).unwrap(), &n));
    assert_eq!(ws[1], g.modpow(&BigUint::from_u32(21).unwrap(), &n));
    assert_eq!(ws[2], g.modpow(&BigUint::from_u32(15).unwrap(), &n));
}

#[test]
fn test_ver_mem_x_rejects_non_coprime() {
    let rng = &mut XorShiftRng::from_seed([0u8; 16]);
    let lambda = 256;
    let mut acc = RsaAccumulator::setup(lambda).unwrap();
    let mut other = acc.clone();

    let x = rng.gen_prime(128);
    acc.add(&x);
    other.add(&x);

    let w_x = acc.mem_wit_create(&x);
    let w_y = other.mem_wit_create(&x);
    let w_xy = acc.mem_wit_x(other.state(), &w_x, &w_y, &x, &x);
    // gcd(x, x) != 1: rejected
    assert!(!acc.ver_mem_x(other.state(), &w_xy, &x, &x));
}

#[test]
fn test_assemble_exact() {
    // p = 43, q = 67, h = 7: n = 2881 and g = 49, a usable generator
    let p = BigUint::from_u32(43).unwrap();
    let q = BigUint::from_u32(67).unwrap();
    let h = BigUint::from_u32(7).unwrap();
    let acc = RsaAccumulator::assemble(&p, &q, &h, 12).unwrap();
    assert_eq!(acc.state(), &BigUint::from_u32(49).unwrap());

    // equal primes are rejected
    assert!(RsaAccumulator::assemble(&p, &p, &h, 12).is_none());

    // h = 1 squares to 1, below two: rejected
    let one = BigUint::one();
    assert!(RsaAccumulator::assemble(&p, &q, &one, 12).is_none());

    // h = 43 squares to 1849 = 43 * 43, not a unit modulo 43 * 67: rejected
    let bad = BigUint::from_u32(43).unwrap();
    assert!(RsaAccumulator::assemble(&p, &q, &bad, 12).is_none());
}
