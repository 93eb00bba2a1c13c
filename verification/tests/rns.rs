use vaea_ntt::ntt64::prime::is_prime;
use vaea_ntt::rns::{RnsContext, RnsPoly};

const TEST_N: usize = 256;
const TEST_Q1: u64 = 7681; // 15·512+1
const TEST_Q2: u64 = 12289; // 24·512+1

fn test_rns_ctx() -> RnsContext {
    RnsContext::new(TEST_N, vec![TEST_Q1, TEST_Q2])
}

#[test]
fn test_rns_encode_decode() {
    let ctx = test_rns_ctx();
    let coeffs = vec![5i64, -3, 0, 7];
    let mut rns_poly = RnsPoly::from_coefficients(&coeffs, &ctx);

    rns_poly.inverse_all(&ctx);

    assert_eq!(rns_poly.components[0].data[0], 5);
    assert_eq!(rns_poly.components[0].data[1], TEST_Q1 - 3);
    assert_eq!(rns_poly.components[0].data[2], 0);
    assert_eq!(rns_poly.components[0].data[3], 7);

    assert_eq!(rns_poly.components[1].data[0], 5);
    assert_eq!(rns_poly.components[1].data[1], TEST_Q2 - 3);
    assert_eq!(rns_poly.components[1].data[2], 0);
    assert_eq!(rns_poly.components[1].data[3], 7);
}

#[test]
fn test_rns_add_mul_distributivity() {
    let ctx = test_rns_ctx();

    let a_coeffs: Vec<i64> = (0..TEST_N as i64).map(|i| i % 100).collect();
    let b_coeffs: Vec<i64> = (0..TEST_N as i64).map(|i| (i * 3 + 7) % 100).collect();
    let c_coeffs: Vec<i64> = (0..TEST_N as i64).map(|i| (i * 2 + 1) % 50).collect();

    let a = RnsPoly::from_coefficients(&a_coeffs, &ctx);
    let b = RnsPoly::from_coefficients(&b_coeffs, &ctx);
    let c = RnsPoly::from_coefficients(&c_coeffs, &ctx);

    // (a + b) * c
    let ab = a.add(&b, &ctx);
    let mut lhs = ab.mul(&c, &ctx);

    // a*c + b*c
    let ac = a.mul(&c, &ctx);
    let bc = b.mul(&c, &ctx);
    let mut rhs = ac.add(&bc, &ctx);

    lhs.inverse_all(&ctx);
    rhs.inverse_all(&ctx);

    for i in 0..ctx.num_moduli() {
        for j in 0..TEST_N {
            assert_eq!(
                lhs.components[i].data[j], rhs.components[i].data[j],
                "(a+b)*c != a*c+b*c — modulus {}, coeff {}",
                ctx.moduli[i], j
            );
        }
    }
}

#[test]
fn test_rns_drop_last_modulus() {
    let ctx = test_rns_ctx();
    let coeffs = vec![1i64, 2, 3];
    let mut poly = RnsPoly::from_coefficients(&coeffs, &ctx);

    assert_eq!(poly.level, 2);
    assert_eq!(poly.components.len(), 2);

    poly.drop_last_modulus();

    assert_eq!(poly.level, 1);
    assert_eq!(poly.components.len(), 1);
}

#[test]
fn test_rns_sub() {
    let ctx = test_rns_ctx();
    let coeffs: Vec<i64> = (0..TEST_N as i64).map(|i| i % 1000 - 500).collect();
    let a = RnsPoly::from_coefficients(&coeffs, &ctx);

    let mut zero = a.sub(&a, &ctx);
    zero.inverse_all(&ctx);

    for i in 0..ctx.num_moduli() {
        for j in 0..TEST_N {
            assert_eq!(
                zero.components[i].data[j], 0,
                "a - a != 0 — modulus {}, coeff {}",
                ctx.moduli[i], j
            );
        }
    }
}

#[test]
fn test_ntt_friendly_primes_are_valid() {
    assert!(is_prime(TEST_Q1), "q1 = {TEST_Q1} should be prime");
    assert!(is_prime(TEST_Q2), "q2 = {TEST_Q2} should be prime");

    let two_n = 2 * TEST_N as u64;
    assert_eq!((TEST_Q1 - 1) % two_n, 0);
    assert_eq!((TEST_Q2 - 1) % two_n, 0);
}

#[test]
fn rns_forward_all_goes_to_coefficient_domain() {
    let ctx = RnsContext::new(TEST_N, vec![TEST_Q1, TEST_Q2]);
    let coeffs: Vec<i64> = (0..TEST_N as i64).map(|i| i * 3 - 100).collect();
    let encoded = RnsPoly::from_coefficients(&coeffs, &ctx);
    let mut a = encoded.clone();
    let mut b = encoded.clone();
    a.forward_all(&ctx);
    b.inverse_all(&ctx);
    for i in 0..ctx.num_moduli() {
        assert!(!a.components[i].is_ntt);
        assert_eq!(a.components[i].data, b.components[i].data);
        let q = ctx.moduli[i] as i64;
        for j in 0..TEST_N {
            assert_eq!(a.components[i].data[j] as i64, coeffs[j].rem_euclid(q));
        }
    }
    // already in coefficient domain: left as it is
    a.forward_all(&ctx);
    assert_eq!(a.components[0].data, b.components[0].data);
}
