use homo::attacks::{brute_force_paillier, factor_pollard_rho, factor_trial_division, recover_paillier_sk, rho_attempt};
use homo::bigint::UBig;
use homo::schemes::paillier;

#[test]
fn factor_small_modulus() {
    let n = UBig::from_u64(15);
    let f = factor_trial_division(&n, 100).expect("should factor");
    assert_eq!(f.p.mul(&f.q), n);
}

#[test]
fn pollard_rho_factors_modest_modulus() {
    // 15 = 3*5; tiny, but exercises the path
    let n = UBig::from_u64(35);
    let f = factor_pollard_rho(&n, 1000).expect("should factor");
    assert_eq!(f.p.mul(&f.q), n);
}

#[test]
fn recover_paillier_secret_after_factoring() {
    let (pk, _real_sk) = paillier::keygen(32).unwrap();
    // 32-bit n → trial division finishes fast
    let fact = factor_trial_division(&pk.n, 1_000_000)
        .or_else(|| factor_pollard_rho(&pk.n, 100_000))
        .expect("should factor a 32-bit n");
    let recovered = recover_paillier_sk(&pk, &fact);
    let m = UBig::from_u64(123);
    let ct = paillier::encrypt(&pk, &m);
    assert_eq!(paillier::decrypt(&recovered, &ct), m);
}

#[test]
fn trial_division_finds_smallest_odd_factor() {
    let f = factor_trial_division(&UBig::from_u64(3 * 5 * 7), 100).unwrap();
    assert_eq!(f.p, UBig::from_u64(3));
    assert_eq!(f.q, UBig::from_u64(35));
    assert_eq!(f.steps, 1);
    let g = factor_trial_division(&UBig::from_u64(11 * 13), 100).unwrap();
    assert_eq!(g.p, UBig::from_u64(11));
    assert_eq!(g.steps, 5);
}

#[test]
fn trial_division_splits_even_numbers_at_once() {
    let f = factor_trial_division(&UBig::from_u64(22), 0).unwrap();
    assert_eq!(f.p, UBig::from_u64(2));
    assert_eq!(f.q, UBig::from_u64(11));
    assert_eq!(f.steps, 1);
}

#[test]
fn trial_division_gives_up_on_primes_and_step_limits() {
    assert!(factor_trial_division(&UBig::from_u64(101), 100).is_none());
    assert!(factor_trial_division(&UBig::from_u64(11 * 13), 5).is_none());
}

#[test]
fn brute_force_recovers_small_plaintexts() {
    let (pk, _sk) = paillier::keygen(32).unwrap();
    let r = UBig::from_u64(17);
    let target = paillier::encrypt_with_randomness(&pk, &UBig::from_u64(42), &r);
    assert_eq!(brute_force_paillier(&pk, &target, &r, 100), Some(42));
    assert_eq!(brute_force_paillier(&pk, &target, &r, 42), None);
}

#[test]
fn rho_attempt_follows_floyds_walk() {
    let n = UBig::from_u64(8051);
    let f = rho_attempt(&n, &UBig::from_u64(2), &UBig::from_u64(1), 100).unwrap();
    assert_eq!(f.p, UBig::from_u64(97));
    assert_eq!(f.q, UBig::from_u64(83));
    assert_eq!(f.steps, 3);
    // from 0 with c = 0 the walk stays at 0, whose gcd with 25 is 25 itself
    assert!(rho_attempt(&UBig::from_u64(25), &UBig::from_u64(0), &UBig::from_u64(0), 10).is_none());
    // too few steps to meet
    assert!(rho_attempt(&n, &UBig::from_u64(2), &UBig::from_u64(1), 2).is_none());
}
