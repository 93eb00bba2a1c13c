use vaea_ntt::ntt64::arith::{mod_add, mod_pow, Ntt64Arith, PRIME_60_1, PRIME_SEAL};
use vaea_ntt::ntt64::context::{bit_reverse, ntt_forward, ntt_forward_tiled, ntt_inverse, Ntt64Context};
use vaea_ntt::ntt64::prime::find_primitive_root;

/// Naive polynomial multiplication in Z_q[X]/(X^N + 1), O(N²).
fn poly_mul_naive(a: &[u64], b: &[u64], q: u64) -> Vec<u64> {
    let n = a.len();
    assert_eq!(b.len(), n);
    let mut result = vec![0u64; n];

    for i in 0..n {
        for j in 0..n {
            let idx = i + j;
            let prod = (a[i] as u128 * b[j] as u128) % q as u128;
            if idx < n {
                result[idx] = ((result[idx] as u128 + prod) % q as u128) as u64;
            } else {
                let idx = idx - n;
                result[idx] = ((result[idx] as u128 + q as u128 - prod) % q as u128) as u64;
            }
        }
    }
    result
}

// --- Primitive root ---

#[test]
fn test_primitive_root_small() {
    let q: u64 = 17;
    let n = 8;
    let psi = find_primitive_root(n, q);

    let arith = Ntt64Arith::new(q);
    assert_eq!(mod_pow(psi, 2 * n as u64, &arith), 1);
    assert_eq!(mod_pow(psi, n as u64, &arith), 16);
}

#[test]
fn test_primitive_root_seal() {
    let arith = Ntt64Arith::new(PRIME_SEAL);
    for &n in &[16, 64, 1024, 4096] {
        let psi = find_primitive_root(n, PRIME_SEAL);
        assert_eq!(mod_pow(psi, 2 * n as u64, &arith), 1);
        assert_eq!(mod_pow(psi, n as u64, &arith), arith.modulus - 1);
    }
}

// --- NTT roundtrip ---

#[test]
fn test_ntt_roundtrip_small() {
    let arith = Ntt64Arith::new(PRIME_SEAL);
    let q = arith.modulus;

    for &n in &[16, 64] {
        let ctx = Ntt64Context::new(n, arith.clone());
        let original: Vec<u64> = (0..n).map(|i| (i as u64 * 7 + 3) % q).collect();
        let mut data = original.clone();

        ntt_forward(&mut data, &ctx);
        assert_ne!(data, original);
        ntt_inverse(&mut data, &ctx);
        assert_eq!(data, original, "NTT roundtrip fails for N={n}");
    }
}

#[test]
fn test_ntt_roundtrip_medium() {
    let arith = Ntt64Arith::new(PRIME_SEAL);
    let q = arith.modulus;

    for &n in &[1024, 4096] {
        let ctx = Ntt64Context::new(n, arith.clone());
        let original: Vec<u64> = (0..n)
            .map(|i| ((i as u128 * 123456789 + 987654321) % q as u128) as u64)
            .collect();
        let mut data = original.clone();

        ntt_forward(&mut data, &ctx);
        ntt_inverse(&mut data, &ctx);
        assert_eq!(data, original, "NTT roundtrip fails for N={n}");
    }
}

#[test]
fn test_ntt_roundtrip_zeros() {
    let arith = Ntt64Arith::new(PRIME_SEAL);
    let n = 64;
    let ctx = Ntt64Context::new(n, arith);
    let mut data = vec![0u64; n];
    ntt_forward(&mut data, &ctx);
    ntt_inverse(&mut data, &ctx);
    assert_eq!(data, vec![0u64; n]);
}

#[test]
fn test_ntt_roundtrip_one() {
    let arith = Ntt64Arith::new(PRIME_SEAL);
    let n = 64;
    let ctx = Ntt64Context::new(n, arith);
    let mut data = vec![0u64; n];
    data[0] = 1;
    let original = data.clone();
    ntt_forward(&mut data, &ctx);
    ntt_inverse(&mut data, &ctx);
    assert_eq!(data, original);
}

// --- Negacyclic convolution ---

#[test]
fn test_ntt_convolution_n16() {
    let arith = Ntt64Arith::new(PRIME_SEAL);
    let q = arith.modulus;
    let n = 16;
    let ctx = Ntt64Context::new(n, arith);

    let a: Vec<u64> = (0..n).map(|i| (i as u64 + 1) % q).collect();
    let b: Vec<u64> = (0..n).map(|_| 1u64).collect();

    let expected = poly_mul_naive(&a, &b, q);
    let result = ctx.negacyclic_mul(&a, &b);
    assert_eq!(result, expected, "NTT convolution != naive for N=16");
}

#[test]
fn test_ntt_convolution_n64() {
    let arith = Ntt64Arith::new(PRIME_SEAL);
    let q = arith.modulus;
    let n = 64;
    let ctx = Ntt64Context::new(n, arith);

    let a: Vec<u64> = (0..n).map(|i| ((i * i + 3 * i + 7) as u64) % q).collect();
    let b: Vec<u64> = (0..n).map(|i| ((2 * i + 1) as u64) % q).collect();

    let expected = poly_mul_naive(&a, &b, q);
    let result = ctx.negacyclic_mul(&a, &b);
    assert_eq!(result, expected, "NTT convolution != naive for N=64");
}

#[test]
fn test_ntt_convolution_identity() {
    let arith = Ntt64Arith::new(PRIME_SEAL);
    let q = arith.modulus;
    let n = 64;
    let ctx = Ntt64Context::new(n, arith);

    let a: Vec<u64> = (0..n).map(|i| ((i * 17 + 5) as u64) % q).collect();
    let mut one = vec![0u64; n];
    one[0] = 1;

    let result = ctx.negacyclic_mul(&a, &one);
    assert_eq!(result, a, "Multiplying by 1 should give identity");
}

// --- Tiled NTT ---

#[test]
fn test_ntt_tiled_matches_standard_small() {
    let arith = Ntt64Arith::new(PRIME_SEAL);
    let q = arith.modulus;

    for &n in &[16, 64] {
        let ctx = Ntt64Context::new(n, arith.clone());
        let original: Vec<u64> = (0..n).map(|i| (i as u64 * 13 + 7) % q).collect();

        let mut data_std = original.clone();
        let mut data_tiled = original.clone();

        ntt_forward(&mut data_std, &ctx);
        ntt_forward_tiled(&mut data_tiled, &ctx);

        assert_eq!(data_tiled, data_std, "tiled NTT != standard for N={n}");
    }
}

#[test]
fn test_ntt_tiled_roundtrip() {
    let arith = Ntt64Arith::new(PRIME_SEAL);
    let q = arith.modulus;
    let n = 256;
    let ctx = Ntt64Context::new(n, arith);

    let original: Vec<u64> = (0..n)
        .map(|i| ((i as u128 * 999999937 + 42) % q as u128) as u64)
        .collect();
    let mut data = original.clone();

    ntt_forward(&mut data, &ctx);
    ntt_inverse(&mut data, &ctx);
    assert_eq!(data, original, "standard roundtrip fails for N=256");
}

// --- With PRIME_60_1 ---

#[test]
fn test_ntt_with_prime_60_1() {
    let arith = Ntt64Arith::new(PRIME_60_1);
    let q = arith.modulus;

    for &n in &[16, 64] {
        assert_eq!((q - 1) % (2 * n as u64), 0);
        let ctx = Ntt64Context::new(n, arith.clone());
        let original: Vec<u64> = (0..n).map(|i| (i as u64 * 31 + 11) % q).collect();
        let mut data = original.clone();

        ntt_forward(&mut data, &ctx);
        ntt_inverse(&mut data, &ctx);
        assert_eq!(
            data, original,
            "NTT roundtrip fails for N={n} with PRIME_60_1"
        );
    }
}

// --- Bit-reverse ---

#[test]
fn test_bit_reverse() {
    assert_eq!(bit_reverse(0, 3), 0);
    assert_eq!(bit_reverse(1, 3), 4);
    assert_eq!(bit_reverse(2, 3), 2);
    assert_eq!(bit_reverse(3, 3), 6);
    assert_eq!(bit_reverse(4, 3), 1);
    assert_eq!(bit_reverse(5, 3), 5);
    assert_eq!(bit_reverse(6, 3), 3);
    assert_eq!(bit_reverse(7, 3), 7);
    assert_eq!(bit_reverse(0, 1), 0);
    assert_eq!(bit_reverse(1, 1), 1);
}

// --- Linearity ---

#[test]
fn test_ntt_linearity() {
    let arith = Ntt64Arith::new(PRIME_SEAL);
    let q = arith.modulus;
    let n = 64;
    let ctx = Ntt64Context::new(n, arith);

    let a: Vec<u64> = (0..n).map(|i| (i as u64 * 3 + 1) % q).collect();
    let b: Vec<u64> = (0..n).map(|i| (i as u64 * 7 + 2) % q).collect();

    let mut a_ntt = a.clone();
    let mut b_ntt = b.clone();
    ntt_forward(&mut a_ntt, &ctx);
    ntt_forward(&mut b_ntt, &ctx);

    let mut sum: Vec<u64> = (0..n).map(|i| mod_add(a[i], b[i], q)).collect();
    ntt_forward(&mut sum, &ctx);

    for i in 0..n {
        let expected = mod_add(a_ntt[i], b_ntt[i], q);
        assert_eq!(sum[i], expected, "linearity violated at index {i}");
    }
}

// --- Large N roundtrip ---

#[test]
fn test_ntt_roundtrip_large() {
    let arith = Ntt64Arith::new(PRIME_SEAL);
    let q = arith.modulus;
    let n = 32768;

    assert_eq!((q - 1) % (2 * n as u64), 0);
    let ctx = Ntt64Context::new(n, arith);

    let original: Vec<u64> = (0..n)
        .map(|i| ((i as u128 * 314159265 + 271828182) % q as u128) as u64)
        .collect();
    let mut data = original.clone();

    ntt_forward(&mut data, &ctx);
    ntt_inverse(&mut data, &ctx);
    assert_eq!(data, original, "NTT roundtrip fails for N=32768");
}
