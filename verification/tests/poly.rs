use vaea_ntt::ntt64::arith::Ntt64Arith;
use vaea_ntt::ntt64::context::Ntt64Context;
use vaea_ntt::poly::Poly64;

/// Naive polynomial multiplication in Z_q[X]/(X^N+1), O(N²).
fn naive_poly_mul(a: &[u64], b: &[u64], q: u64) -> Vec<u64> {
    let n = a.len();
    assert_eq!(n, b.len());
    let mut result = vec![0u64; n];

    for i in 0..n {
        for j in 0..n {
            let prod = (a[i] as u128) * (b[j] as u128);
            let idx = i + j;
            if idx < n {
                let val = (result[idx] as u128 + prod) % (q as u128);
                result[idx] = val as u64;
            } else {
                let wrapped_idx = idx - n;
                let val = (result[wrapped_idx] as u128 + (q as u128) - (prod % (q as u128)))
                    % (q as u128);
                result[wrapped_idx] = val as u64;
            }
        }
    }
    result
}

// Small NTT-friendly prime for N=256: q = 7681 = 15·512+1
const TEST_Q: u64 = 7681;
const TEST_N: usize = 256;

fn test_arith() -> Ntt64Arith {
    Ntt64Arith::new(TEST_Q)
}

fn test_ntt_ctx() -> Ntt64Context {
    Ntt64Context::new(TEST_N, test_arith())
}

#[test]
fn test_poly_add_sub() {
    let arith = test_arith();
    let a = Poly64::new_random(TEST_N, &arith);
    let b = Poly64::new_random(TEST_N, &arith);

    let mut c = a.clone();
    c.add_assign(&b, &arith);
    c.sub_assign(&b, &arith);

    for i in 0..TEST_N {
        assert_eq!(c.data[i], a.data[i], "add/sub roundtrip fails at index {i}");
    }
}

#[test]
fn test_poly_add_commutative() {
    let arith = test_arith();
    let a = Poly64::new_random(TEST_N, &arith);
    let b = Poly64::new_random(TEST_N, &arith);

    let mut ab = a.clone();
    ab.add_assign(&b, &arith);

    let mut ba = b.clone();
    ba.add_assign(&a, &arith);

    for i in 0..TEST_N {
        assert_eq!(ab.data[i], ba.data[i], "add not commutative at index {i}");
    }
}

#[test]
fn test_poly_negate() {
    let arith = test_arith();
    let a = Poly64::new_random(TEST_N, &arith);

    let mut neg_a = a.clone();
    neg_a.negate(&arith);

    let mut sum = a.clone();
    sum.add_assign(&neg_a, &arith);

    for i in 0..TEST_N {
        assert_eq!(sum.data[i], 0, "a + (-a) != 0 at index {i}");
    }
}

#[test]
fn test_poly_scalar_mul() {
    let arith = test_arith();
    let a = Poly64::new_random(TEST_N, &arith);

    let mut doubled = a.clone();
    doubled.scalar_mul(2, &arith);

    let mut sum = a.clone();
    sum.add_assign(&a, &arith);

    for i in 0..TEST_N {
        assert_eq!(doubled.data[i], sum.data[i], "2*a != a+a at index {i}");
    }
}

#[test]
fn test_poly_mul_ntt() {
    let arith = test_arith();
    let ntt_ctx = test_ntt_ctx();

    let mut a = Poly64::new_zero(TEST_N);
    a.data[0] = 1;
    a.data[1] = 1;

    let mut b = Poly64::new_zero(TEST_N);
    b.data[0] = 1;
    b.data[2] = 1;

    let expected = naive_poly_mul(&a.data, &b.data, TEST_Q);

    a.forward_ntt(&ntt_ctx);
    b.forward_ntt(&ntt_ctx);
    a.mul_assign(&b, &arith);
    a.inverse_ntt(&ntt_ctx);

    for i in 0..TEST_N {
        assert_eq!(a.data[i], expected[i], "NTT mul != naive at index {i}");
    }
}

#[test]
fn test_poly_mul_random_ntt() {
    let arith = test_arith();
    let ntt_ctx = test_ntt_ctx();

    let a_orig = Poly64::new_random(TEST_N, &arith);
    let b_orig = Poly64::new_random(TEST_N, &arith);

    let expected = naive_poly_mul(&a_orig.data, &b_orig.data, TEST_Q);

    let mut a = a_orig.clone();
    let mut b = b_orig.clone();
    a.forward_ntt(&ntt_ctx);
    b.forward_ntt(&ntt_ctx);
    a.mul_assign(&b, &arith);
    a.inverse_ntt(&ntt_ctx);

    for i in 0..TEST_N {
        assert_eq!(a.data[i], expected[i], "NTT mul != naive at index {i}");
    }
}

#[test]
fn test_ternary_distribution() {
    let arith = test_arith();
    let poly = Poly64::new_ternary(1024, &arith);

    for (i, &coeff) in poly.data.iter().enumerate() {
        assert!(
            coeff == 0 || coeff == 1 || coeff == TEST_Q - 1,
            "invalid ternary coefficient at index {i}: {coeff}"
        );
    }

    let count_zero = poly.data.iter().filter(|&&c| c == 0).count();
    let count_one = poly.data.iter().filter(|&&c| c == 1).count();
    let count_neg = poly.data.iter().filter(|&&c| c == TEST_Q - 1).count();

    assert!(count_zero > 0);
    assert!(count_one > 0);
    assert!(count_neg > 0);
}

#[test]
fn test_ntt_roundtrip() {
    let arith = test_arith();
    let ntt_ctx = test_ntt_ctx();
    let original = Poly64::new_random(TEST_N, &arith);

    let mut poly = original.clone();
    poly.forward_ntt(&ntt_ctx);
    assert!(poly.is_ntt);
    poly.inverse_ntt(&ntt_ctx);
    assert!(!poly.is_ntt);

    for i in 0..TEST_N {
        assert_eq!(
            poly.data[i], original.data[i],
            "NTT roundtrip fails at index {i}"
        );
    }
}

#[test]
fn test_new_zero() {
    let poly = Poly64::new_zero(64);
    assert_eq!(poly.len(), 64);
    assert!(!poly.is_ntt);
    for &c in &poly.data {
        assert_eq!(c, 0);
    }
}

