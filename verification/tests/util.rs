use homo::bigint::UBig;
use homo::util::{
    bit_length, centred, is_probable_prime, mod_inverse, mod_pow, rand_coprime, random_prime,
    mr_round, prime_candidate, random_u32, sample_small_noise, seeded_rng, to_uint_mod,
};
use homo::bigint::IBig;

#[test]
fn miller_rabin_known_primes() {
    for p in [2u64, 3, 5, 7, 11, 13, 17, 19, 23, 29, 7919, 65537] {
        assert!(is_probable_prime(&UBig::from_u64(p), 20), "{p} should be prime");
    }
}

#[test]
fn miller_rabin_known_composites() {
    for c in [4u64, 9, 15, 21, 25, 1000, 65536] {
        assert!(!is_probable_prime(&UBig::from_u64(c), 20), "{c} should be composite");
    }
}

#[test]
fn inverse_round_trips() {
    let m = UBig::from_u64(101);
    for a in 1u64..101 {
        let a_b = UBig::from_u64(a);
        let inv = mod_inverse(&a_b, &m).expect("coprime");
        assert_eq!(a_b.mul(&inv).rem(&m), UBig::from_u64(1));
    }
}

#[test]
fn random_prime_has_correct_bit_length() {
    let mut r = seeded_rng([7; 32]);
    let p = random_prime(&mut r, 64).unwrap();
    assert_eq!(p.bits(), 64);
    assert!(is_probable_prime(&p, 40));
}

#[test]
fn inverse_is_none_without_coprimality() {
    assert!(mod_inverse(&UBig::from_u64(6), &UBig::from_u64(9)).is_none());
    assert_eq!(mod_inverse(&UBig::from_u64(3), &UBig::from_u64(7)), Some(UBig::from_u64(5)));
}

#[test]
fn mod_pow_matches_repeated_multiplication() {
    let r = mod_pow(&UBig::from_u64(3), &UBig::from_u64(13), &UBig::from_u64(1000));
    assert_eq!(r, UBig::from_u64(1594323 % 1000));
}

#[test]
fn centred_and_back() {
    let q = UBig::from_u64(17);
    assert_eq!(centred(&UBig::from_u64(3), &q), IBig::from_i64(3));
    assert_eq!(centred(&UBig::from_u64(9), &q), IBig::from_i64(-8));
    assert_eq!(to_uint_mod(&IBig::from_i64(-8), &q), UBig::from_u64(9));
    assert_eq!(to_uint_mod(&IBig::from_i64(40), &q), UBig::from_u64(6));
}

#[test]
fn small_draws_stay_in_range() {
    let mut r = seeded_rng([1; 32]);
    for _ in 0..100 {
        let e = sample_small_noise(&mut r, 3);
        assert!((-3..=3).contains(&e));
        let c = rand_coprime(&mut r, &UBig::from_u64(10));
        let v = c.to_u64().unwrap();
        assert!(v % 2 == 1 && v % 5 != 0 && v < 10);
    }
    assert_eq!(bit_length(&UBig::from_u64(255)), 8);
}

#[test]
fn noise_is_the_sum_of_coin_differences_of_the_drawn_words() {
    let mut r1 = seeded_rng([7; 32]);
    let mut r2 = seeded_rng([7; 32]);
    let e = sample_small_noise(&mut r1, 5);
    let mut want: i64 = 0;
    for _ in 0..5 {
        let w = random_u32(&mut r2);
        want += (w & 1) as i64 - ((w >> 1) & 1) as i64;
    }
    assert_eq!(e, want);
    assert_eq!(sample_small_noise(&mut r1, 0), 0);
}

#[test]
fn miller_rabin_rounds_on_known_witnesses() {
    // 221 = 13 * 17, 220 = 55 * 2^2
    let n = UBig::from_u64(221);
    let d = UBig::from_u64(55);
    assert!(!mr_round(&n, &d, 2, &UBig::from_u64(137)));
    assert!(mr_round(&n, &d, 2, &UBig::from_u64(174)));
    // 97 is prime, 96 = 3 * 2^5: every witness passes
    let p = UBig::from_u64(97);
    let d = UBig::from_u64(3);
    for a in [2u64, 5, 50, 95] {
        assert!(mr_round(&p, &d, 5, &UBig::from_u64(a)));
    }
    // with no rounds an odd number is not tested
    assert!(is_probable_prime(&UBig::from_u64(9), 0));
}

#[test]
fn prime_candidates_set_the_top_and_bottom_bits() {
    assert_eq!(prime_candidate(&UBig::from_u64(0), 8), UBig::from_u64(129));
    assert_eq!(prime_candidate(&UBig::from_u64(0b0100_1010), 8), UBig::from_u64(0b1100_1011));
    assert_eq!(prime_candidate(&UBig::from_u64(255), 8), UBig::from_u64(255));
    assert_eq!(prime_candidate(&UBig::from_u64(0), 2), UBig::from_u64(3));
}
