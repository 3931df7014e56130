use homo::bigint::{IBig, UBig};
use homo::ring::negacyclic_exact;
use homo::schemes::{bfv, bgn, ckks, paillier, Scheme};

fn small_keys() -> (paillier::PublicKey, paillier::SecretKey) {
    paillier::keygen(64).unwrap()
}

#[test]
fn paillier_enc_dec_roundtrip() {
    let (pk, sk) = small_keys();
    for m in [0u64, 1, 2, 42, 1000, 65535] {
        let m_b = UBig::from_u64(m);
        let ct = paillier::encrypt(&pk, &m_b);
        assert_eq!(paillier::decrypt(&sk, &ct), m_b);
    }
}

#[test]
fn paillier_additive_homomorphism() {
    let (pk, sk) = small_keys();
    let a = UBig::from_u64(123);
    let b = UBig::from_u64(456);
    let ct_a = paillier::encrypt(&pk, &a);
    let ct_b = paillier::encrypt(&pk, &b);
    let ct_sum = paillier::add(&pk, &ct_a, &ct_b);
    assert_eq!(paillier::decrypt(&sk, &ct_sum), a.add(&b));
}

#[test]
fn scalar_multiplication() {
    let (pk, sk) = small_keys();
    let m = UBig::from_u64(13);
    let k = UBig::from_u64(7);
    let ct = paillier::encrypt(&pk, &m);
    let ct_k = paillier::mul_plain(&pk, &ct, &k);
    assert_eq!(paillier::decrypt(&sk, &ct_k), m.mul(&k));
}

#[test]
fn rerandomization_preserves_plaintext() {
    let (pk, sk) = small_keys();
    let m = UBig::from_u64(99);
    let ct = paillier::encrypt(&pk, &m);
    let ct2 = paillier::rerandomize(&pk, &ct);
    assert_ne!(ct.c, ct2.c, "rerandomised ciphertext should differ");
    assert_eq!(paillier::decrypt(&sk, &ct2), m);
}

#[test]
fn add_plain_matches_add_after_encrypt() {
    let (pk, sk) = small_keys();
    let m = UBig::from_u64(5);
    let k = UBig::from_u64(7);
    let ct = paillier::encrypt(&pk, &m);
    let ct2 = paillier::add_plain(&pk, &ct, &k);
    assert_eq!(paillier::decrypt(&sk, &ct2), m.add(&k));
}

#[test]
fn paillier_encryption_with_fixed_randomness_is_deterministic() {
    // n = 7 · 11 = 77, m = 5, r = 2: ((1 + 77·5) · 2^77) mod 77²
    let pk = paillier::PublicKey { n: UBig::from_u64(77) };
    let ct = paillier::encrypt_with_randomness(&pk, &UBig::from_u64(5), &UBig::from_u64(2));
    let n_sq = 77u128 * 77;
    let mut r_to_n: u128 = 1;
    for _ in 0..77 {
        r_to_n = r_to_n * 2 % n_sq;
    }
    let expected = (1 + 77 * 5) * r_to_n % n_sq;
    assert_eq!(ct.c, UBig::from_u128(expected));
}

fn small_params() -> bfv::Params {
    bfv::Params {
        n: 64,
        q: IBig::from_i64(1099511627791),
        t: IBig::from_i64(16),
        eta: 4,
    }
}

#[test]
fn enc_dec_roundtrip_small() {
    let params = small_params();
    let (pk, sk) = bfv::keygen(&params);
    let plain: Vec<u64> = vec![1, 2, 3, 4, 5];
    let ct = bfv::encrypt(&pk, &plain);
    let out = bfv::decrypt(&sk, &ct);
    assert_eq!(&out[..plain.len()], &plain[..]);
}

#[test]
fn bfv_homomorphic_add() {
    let params = small_params();
    let (pk, sk) = bfv::keygen(&params);
    let a: Vec<u64> = vec![1, 2, 3];
    let b: Vec<u64> = vec![4, 5, 6];
    let ct_a = bfv::encrypt(&pk, &a);
    let ct_b = bfv::encrypt(&pk, &b);
    let sum = bfv::add(&ct_a, &ct_b);
    let out = bfv::decrypt(&sk, &sum);
    assert_eq!(&out[..3], &[5, 7, 9]);
}

#[test]
fn homomorphic_mul() {
    let params = small_params();
    let (pk, sk) = bfv::keygen(&params);
    let a: Vec<u64> = vec![2, 0, 0, 0];
    let b: Vec<u64> = vec![3, 0, 0, 0];
    let ct_a = bfv::encrypt(&pk, &a);
    let ct_b = bfv::encrypt(&pk, &b);
    let prod = bfv::mul(&ct_a, &ct_b);
    let out = bfv::decrypt(&sk, &prod);
    assert_eq!(out[0], 6);
}

#[test]
fn bfv_homomorphic_polynomial() {
    let params = bfv::Params::toy();
    let (pk, sk) = bfv::keygen(&params);
    // Compute (2 + 3) * 4 = 20 homomorphically
    let a = bfv::encrypt(&pk, &[2]);
    let b = bfv::encrypt(&pk, &[3]);
    let c = bfv::encrypt(&pk, &[4]);
    let s = bfv::add(&a, &b);
    let p = bfv::mul(&s, &c);
    let out = bfv::decrypt(&sk, &p);
    assert_eq!(out[0], 20, "got {out:?}");
}

#[test]
fn bfv_delta_is_q_over_t() {
    let params = bfv::Params::toy();
    assert_eq!(params.delta(), IBig::from_i64(1152921504606846883 / 256));
    let ct = bfv::encrypt(&bfv::keygen(&params).0, &[1]);
    assert_eq!(ct.size(), 2);
}

#[test]
fn bgn_additive_homomorphism() {
    let (pk, sk) = bgn::keygen(48, 1024).unwrap();
    let a = 17u64;
    let b = 25u64;
    let ct_a = bgn::encrypt(&pk, a);
    let ct_b = bgn::encrypt(&pk, b);
    let ct_sum = bgn::add_l1(&pk, &ct_a, &ct_b);
    assert_eq!(bgn::decrypt_l1(&sk, &ct_sum), Some(a + b));
}

#[test]
fn level1_roundtrip() {
    let (pk, sk) = bgn::keygen(48, 1024).unwrap();
    for m in [0u64, 1, 7, 42, 999] {
        let ct = bgn::encrypt(&pk, m);
        assert_eq!(bgn::decrypt_l1(&sk, &ct), Some(m));
    }
}

#[test]
fn bgn_addition_only() {
    let (pk, sk) = bgn::keygen(48, 4096).unwrap();
    let ct1 = bgn::encrypt(&pk, 100);
    let ct2 = bgn::encrypt(&pk, 250);
    let ct3 = bgn::encrypt(&pk, 7);
    let sum = bgn::add_l1(&pk, &bgn::add_l1(&pk, &ct1, &ct2), &ct3);
    assert_eq!(bgn::decrypt_l1(&sk, &sum), Some(357));
}

#[test]
fn bgn_level2_recovers_the_product() {
    let (pk, sk) = bgn::keygen(48, 1024).unwrap();
    let prod = bgn::mul(&pk, &bgn::encrypt(&pk, 6), &bgn::encrypt(&pk, 7));
    assert_eq!(bgn::decrypt_l2(&sk, &prod), Some(42));
    let prod = bgn::mul(&pk, &bgn::encrypt(&pk, 3), &bgn::encrypt(&pk, 4));
    assert_eq!(bgn::decrypt_l2(&sk, &prod), Some(12));
    // a factor outside the window is not found
    let prod = bgn::mul(&pk, &bgn::encrypt(&pk, 2000), &bgn::encrypt(&pk, 4));
    assert_eq!(bgn::decrypt_l2(&sk, &prod), None);
}

#[test]
fn bgn_plaintexts_out_of_bound_are_not_found() {
    let (pk, sk) = bgn::keygen(48, 16).unwrap();
    let ct = bgn::encrypt(&pk, 100);
    assert_eq!(bgn::decrypt_l1(&sk, &ct), None);
}

#[test]
fn scheme_names_round_trip() {
    for s in Scheme::all() {
        assert_eq!(Scheme::parse(s.short()), Ok(*s));
        assert_eq!(s.short().parse::<Scheme>(), Ok(*s));
    }
    assert_eq!(Scheme::parse("PaIlLiEr"), Ok(Scheme::Paillier));
    assert_eq!(Scheme::parse("RSA"), Err("unknown scheme: rsa".to_string()));
    assert_eq!(Scheme::Bgn.describe(), "one multiplication, unlimited additions");
}

fn ckks_scaled_poly(vals: &[i64], delta: i64) -> ckks::Poly {
    ckks::Poly { coeffs: vals.iter().map(|v| IBig::from_i64(v * delta)).collect() }
}

fn assert_within(out: &ckks::Poly, want: &[i64], bound: i128) {
    for (i, w) in want.iter().enumerate() {
        let diff = out.coeffs[i].sub(&IBig::from_i64(*w)).to_i128().unwrap();
        assert!(-bound <= diff && diff <= bound, "coefficient {i}: off by {diff}");
    }
}

#[test]
fn ckks_poly_roundtrip_within_noise_bound() {
    let params = ckks::Params::toy();
    let (pk, sk) = ckks::keygen(&params);
    let delta: i64 = 1 << 30;
    let vals = [3i64, -2, 0, 7, 1, -5, 4, 2];
    let m = ckks_scaled_poly(&vals, delta);
    let ct = ckks::encrypt_poly(&pk, &m);
    let out = ckks::decrypt_poly(&sk, &ct);
    let want: Vec<i64> = vals.iter().map(|v| v * delta).collect();
    // (2n + 1) * eta with n = 8, eta = 6
    assert_within(&out, &want, 102);
}

#[test]
fn ckks_poly_sum_within_doubled_noise_bound() {
    let params = ckks::Params::toy();
    let (pk, sk) = ckks::keygen(&params);
    let delta: i64 = 1 << 30;
    let a = [1i64, 2, 3, 4, -1, -2, -3, -4];
    let b = [10i64, -20, 30, -40, 5, 6, 7, 8];
    let ct_a = ckks::encrypt_poly(&pk, &ckks_scaled_poly(&a, delta));
    let ct_b = ckks::encrypt_poly(&pk, &ckks_scaled_poly(&b, delta));
    let out = ckks::decrypt_poly(&sk, &ckks::add(&ct_a, &ct_b));
    let want: Vec<i64> = a.iter().zip(b.iter()).map(|(x, y)| (x + y) * delta).collect();
    assert_within(&out, &want, 204);
}

#[test]
fn bfv_sum_wraps_modulo_t() {
    let params = small_params();
    let (pk, sk) = bfv::keygen(&params);
    let a: Vec<u64> = vec![15, 9, 8];
    let b: Vec<u64> = vec![3, 9, 8];
    let sum = bfv::add(&bfv::encrypt(&pk, &a), &bfv::encrypt(&pk, &b));
    let out = bfv::decrypt(&sk, &sum);
    assert_eq!(&out[..3], &[2, 2, 0]);
}

#[test]
fn bfv_mul_wraps_negacyclically() {
    let params = small_params();
    let (pk, sk) = bfv::keygen(&params);
    let mut a: Vec<u64> = vec![0; 64];
    a[63] = 1;
    let b: Vec<u64> = vec![0, 1];
    let prod = bfv::mul(&bfv::encrypt(&pk, &a), &bfv::encrypt(&pk, &b));
    let out = bfv::decrypt(&sk, &prod);
    // X^63 · X = X^64 = -1, which is 15 modulo 16
    assert_eq!(out[0], 15);
    assert!(out[1..].iter().all(|c| *c == 0));
}

#[test]
fn ckks_mod_switch_keeps_message_within_noise_bound() {
    let params = ckks::Params::toy();
    let (pk, sk) = ckks::keygen(&params);
    let delta: i64 = 1 << 30;
    let vals = [5i64, -1, 2, 0, 3, -4, 1, 6];
    let ct = ckks::encrypt_poly(&pk, &ckks_scaled_poly(&vals, delta));
    let switched = ckks::mod_switch(&ct);
    assert_eq!(switched.level, ct.level - 1);
    let out = ckks::decrypt_poly(&sk, &switched);
    let want: Vec<i64> = vals.iter().map(|v| v * delta).collect();
    assert_within(&out, &want, 102);
}

#[test]
fn ckks_mul_then_rescale_is_close_to_the_product() {
    let params = ckks::Params::toy();
    let (pk, sk) = ckks::keygen(&params);
    let delta: i64 = 1 << 30;
    let a = [3i64, 0, 0, 0, 0, 0, 0, 0];
    let b = [2i64, 1, 0, 0, 0, 0, 0, 0];
    let prod = ckks::mul(
        &ckks::encrypt_poly(&pk, &ckks_scaled_poly(&a, delta)),
        &ckks::encrypt_poly(&pk, &ckks_scaled_poly(&b, delta)),
    );
    let out = ckks::decrypt_poly(&sk, &ckks::rescale(&prod));
    // (3)·(2 + X) = 6 + 3X, at scale Δ after the rescale
    let want = [6 * delta, 3 * delta, 0, 0, 0, 0, 0, 0];
    assert_within(&out, &want, 10_000);
}

#[test]
fn paillier_sum_of_many_encryptions() {
    let (pk, sk) = small_keys();
    let mut acc = paillier::encrypt(&pk, &UBig::from_u64(0));
    for v in 1u64..=20 {
        acc = paillier::add(&pk, &acc, &paillier::encrypt(&pk, &UBig::from_u64(v)));
    }
    assert_eq!(paillier::decrypt(&sk, &acc), UBig::from_u64(210));
}

#[test]
fn paillier_key_from_small_primes() {
    let p = UBig::from_u64(11);
    let q = UBig::from_u64(13);
    let (pk, sk) = paillier::key_from_primes(&p, &q, 4).unwrap();
    assert_eq!(pk.n, UBig::from_u64(143));
    assert_eq!(sk.lambda, UBig::from_u64(60));
    assert_eq!(sk.mu, UBig::from_u64(31));
    for m in [0u64, 1, 77, 142] {
        let ct = paillier::encrypt(&pk, &UBig::from_u64(m));
        assert_eq!(paillier::decrypt(&sk, &ct), UBig::from_u64(m));
    }
}

#[test]
fn paillier_key_from_equal_primes_is_refused() {
    let p = UBig::from_u64(13);
    assert!(paillier::key_from_primes(&p, &p.copy(), 4).is_none());
}

#[test]
fn unknown_scheme_name_is_refused_by_from_str() {
    assert_eq!("RSA".parse::<Scheme>(), Err("unknown scheme: rsa".to_string()));
    assert_eq!("Ckks".parse::<Scheme>(), Ok(Scheme::Ckks));
}

fn ibigs(v: &[i128]) -> Vec<IBig> {
    v.iter().map(|&x| IBig::from_i128(x)).collect()
}

#[test]
fn negacyclic_product_of_small_coefficients() {
    // (1 + 2X)(3 + 4X) = 3 + 10X + 8X^2 and X^2 = -1
    let r = negacyclic_exact(&ibigs(&[1, 2]), &ibigs(&[3, 4]), 2);
    assert_eq!(r, ibigs(&[-5, 10]));
}

#[test]
fn negacyclic_product_beyond_machine_words() {
    // coefficients too large for the machine-word path
    let big = 1i128 << 100;
    let r = negacyclic_exact(&ibigs(&[big, 0]), &ibigs(&[3, 1]), 2);
    assert_eq!(r, ibigs(&[3 * big, big]));
    // coefficients that fit, but whose product does not
    let half = 1i128 << 95;
    let r = negacyclic_exact(&ibigs(&[0, half]), &ibigs(&[0, half]), 2);
    let sq = IBig::from_i128(half).mul(&IBig::from_i128(half));
    assert_eq!(r, vec![sq.neg(), IBig::zero()]);
}

#[test]
fn paillier_aggregation_reveals_only_the_sum() {
    let (pk, sk) = small_keys();
    let ms: Vec<UBig> = [10u64, 20, 30, 40].iter().map(|&m| UBig::from_u64(m)).collect();
    let (cts, total) = paillier::aggregate_paillier(&pk, &ms);
    assert_eq!(cts.len(), 4);
    assert_eq!(paillier::decrypt(&sk, &cts[2]), UBig::from_u64(30));
    assert_eq!(paillier::decrypt(&sk, &total), UBig::from_u64(100));
}

#[test]
fn bgn_aggregation_reveals_only_the_sum() {
    let (pk, sk) = bgn::keygen(48, 1 << 10).unwrap();
    let (cts, total) = bgn::aggregate_bgn(&pk, &[3, 4, 5]);
    assert_eq!(cts.len(), 3);
    assert_eq!(bgn::decrypt_l1(&sk, &cts[1]), Some(4));
    assert_eq!(bgn::decrypt_l1(&sk, &total), Some(12));
}

#[test]
fn trailing_zeros_are_trimmed_from_decrypted_coefficients() {
    assert_eq!(bfv::trim_plain(&[3, 0, 5, 0, 0]), vec![3, 0, 5]);
    assert_eq!(bfv::trim_plain(&[0, 0, 0]), vec![0]);
    assert_eq!(bfv::trim_plain(&[]), Vec::<u64>::new());
}

#[test]
fn bgn_key_from_a_small_group() {
    // q = 11, p = 23; g = 4 = 2², x = 3, h = 4³ mod 23 = 18
    let (pk, sk) = bgn::key_from_group(&UBig::from_u64(11), &UBig::from_u64(4), &UBig::from_u64(3), 10);
    assert_eq!(pk.p, UBig::from_u64(23));
    assert_eq!(pk.q, UBig::from_u64(11));
    assert_eq!(pk.h, UBig::from_u64(18));
    assert_eq!(sk.x, UBig::from_u64(3));
    for m in [0u64, 1, 5, 9] {
        assert_eq!(bgn::decrypt_l1(&sk, &bgn::encrypt(&pk, m)), Some(m));
    }
}
