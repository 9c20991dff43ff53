use accumulator_ads::group::{g1_eq, g1_mul};
use accumulator_ads::params::PublicParameters;
use accumulator_ads::scalar::{
    digest_to_scalar, fr_add, fr_from_u128, fr_inverse, fr_mul, fr_sub, Scalar,
};

#[test]
fn test_fr_add_exact() {
    let a = fr_from_u128(2);
    let b = fr_from_u128(3);
    let c = fr_add(&a, &b);
    assert_eq!((c.l0, c.l1, c.l2, c.l3), (5, 0, 0, 0));
}

#[test]
fn test_fr_mul_exact() {
    let a = fr_from_u128(6);
    let b = fr_from_u128(7);
    let c = fr_mul(&a, &b);
    assert_eq!((c.l0, c.l1, c.l2, c.l3), (42, 0, 0, 0));
}

#[test]
fn test_fr_sub_wraps_to_modulus() {
    // 3 - 5 lands on the field order minus two
    let a = fr_from_u128(3);
    let b = fr_from_u128(5);
    let c = fr_sub(&a, &b);
    assert_eq!(c.l0, 0xffff_fffe_ffff_ffff);
    assert_eq!(c.l1, 0x53bd_a402_fffe_5bfe);
    assert_eq!(c.l2, 0x3339_d808_09a1_d805);
    assert_eq!(c.l3, 0x73ed_a753_299d_7d48);
}

#[test]
fn test_fr_inverse() {
    let a = fr_from_u128(123456789);
    let inv = fr_inverse(&a).unwrap();
    let one = fr_mul(&a, &inv);
    assert_eq!((one.l0, one.l1, one.l2, one.l3), (1, 0, 0, 0));

    let zero = Scalar { l0: 0, l1: 0, l2: 0, l3: 0 };
    assert!(fr_inverse(&zero).is_none());
}

#[test]
fn test_digest_truncation() {
    // the reduced digest keeps no bit above position 247
    let digest: Vec<u8> = (0u8..32).map(|i| 0xee ^ i).collect();
    let s = digest_to_scalar(&digest);
    assert!(s.l3 <= 0x00ff_ffff_ffff_ffff);
}

#[test]
fn test_generated_powers_follow_trapdoor() {
    let secret = fr_from_u128(97);
    let pp = PublicParameters::generate_for_testing(&secret, 4);
    // index one holds the generator raised to the trapdoor itself
    let expect = g1_mul(&pp.g1, &secret);
    assert!(g1_eq(&pp.g1_s_vec[1], &expect));
    // index two holds the generator raised to the trapdoor squared
    let sq = fr_mul(&secret, &secret);
    let expect2 = g1_mul(&pp.g1, &sq);
    assert!(g1_eq(&pp.g1_s_vec[2], &expect2));
}
