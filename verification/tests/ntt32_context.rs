#![allow(clippy::needless_range_loop)]

use vaea_ntt::ntt32::context::Ntt32Context;
use vaea_ntt::ntt32::prime::generate_primes_28;
use vaea_ntt::ntt32::scalar::{ntt_forward_scalar, ntt_inverse_scalar};

fn test_prime(n: usize) -> u32 {
    generate_primes_28(n, 1)[0]
}

fn make_test_data(n: usize, q: u32) -> Vec<u32> {
    (0..n)
        .map(|i| ((i as u64 * 314_159_265 + 271_828_182) % q as u64) as u32)
        .collect()
}

#[test]
fn test_roundtrip_n2() {
    // N=2: edge case, must fall back to scalar on NEON
    let q = 5u32; // smallest NTT-friendly prime for N=2: q ≡ 1 (mod 4), q=5 works
    let ctx = Ntt32Context::new(2, q);
    let original = vec![1u32, 3];
    let mut data = original.clone();
    ctx.forward(&mut data);
    assert_ne!(data, original, "NTT forward did nothing for N=2");
    ctx.inverse(&mut data);
    assert_eq!(data, original, "NTT roundtrip failed for N=2");
}

#[test]
fn test_roundtrip_n4() {
    // N=4: edge case, must fall back to scalar on NEON
    let q = 17u32; // q ≡ 1 (mod 8): 17 works
    let ctx = Ntt32Context::new(4, q);
    let original = vec![1u32, 5, 9, 13];
    let mut data = original.clone();
    ctx.forward(&mut data);
    assert_ne!(data, original, "NTT forward did nothing for N=4");
    ctx.inverse(&mut data);
    assert_eq!(data, original, "NTT roundtrip failed for N=4");
}

#[test]
fn test_roundtrip_n16() {
    let n = 16;
    let q = test_prime(n);
    let ctx = Ntt32Context::new(n, q);
    let original = make_test_data(n, q);
    let mut data = original.clone();

    ctx.forward(&mut data);
    assert_ne!(data, original, "NTT forward did nothing for N={n}");
    ctx.inverse(&mut data);
    assert_eq!(data, original, "NTT roundtrip failed for N={n}");
}

#[test]
fn test_roundtrip_n64() {
    let n = 64;
    let q = test_prime(n);
    let ctx = Ntt32Context::new(n, q);
    let original = make_test_data(n, q);
    let mut data = original.clone();

    ctx.forward(&mut data);
    ctx.inverse(&mut data);
    assert_eq!(data, original, "NTT roundtrip failed for N={n}");
}

#[test]
fn test_roundtrip_n1024() {
    let n = 1024;
    let q = test_prime(n);
    let ctx = Ntt32Context::new(n, q);
    let original = make_test_data(n, q);
    let mut data = original.clone();

    ctx.forward(&mut data);
    ctx.inverse(&mut data);
    assert_eq!(data, original, "NTT roundtrip failed for N={n}");
}

#[test]
fn test_roundtrip_n32768() {
    let n = 32768;
    let q = test_prime(n);
    let ctx = Ntt32Context::new(n, q);
    let original = make_test_data(n, q);
    let mut data = original.clone();

    ctx.forward(&mut data);
    ctx.inverse(&mut data);
    assert_eq!(data, original, "NTT roundtrip failed for N=32768");
}

#[test]
fn test_roundtrip_zeros() {
    let n = 64;
    let q = test_prime(n);
    let ctx = Ntt32Context::new(n, q);
    let mut data = vec![0u32; n];
    ctx.forward(&mut data);
    ctx.inverse(&mut data);
    assert_eq!(data, vec![0u32; n]);
}

#[test]
fn test_constant_polynomial() {
    // NTT of [c, 0, 0, ...] should give [c, c, c, ...]
    let n = 64;
    let q = test_prime(n);
    let ctx = Ntt32Context::new(n, q);
    let c = 42u32;
    let mut data = vec![0u32; n];
    data[0] = c;

    ctx.forward(&mut data);
    for (i, &v) in data.iter().enumerate() {
        assert_eq!(v, c, "NTT of constant: data[{i}]={v}, expected {c}");
    }
}

#[test]
fn test_negacyclic_mul_identity() {
    // Multiply by [1, 0, 0, ...] should be identity
    let n = 64;
    let q = test_prime(n);
    let ctx = Ntt32Context::new(n, q);

    let a: Vec<u32> = (0..n)
        .map(|i| ((i as u64 * 17 + 5) % q as u64) as u32)
        .collect();
    let mut one = vec![0u32; n];
    one[0] = 1;

    let result = ctx.negacyclic_mul(&a, &one);
    assert_eq!(result, a, "Multiply by 1 is not identity");
}

#[test]
fn test_negacyclic_mul_n16() {
    let n = 16;
    let q = test_prime(n);
    let ctx = Ntt32Context::new(n, q);

    let a: Vec<u32> = (0..n).map(|i| (i as u32 + 1) % q).collect();
    let b: Vec<u32> = vec![1u32; n];

    // Naive reference
    let mut expected = vec![0u32; n];
    for i in 0..n {
        for j in 0..n {
            let prod = (a[i] as u64 * b[j] as u64) % q as u64;
            if i + j < n {
                expected[i + j] = ((expected[i + j] as u64 + prod) % q as u64) as u32;
            } else {
                let idx = i + j - n;
                expected[idx] = ((expected[idx] as u64 + q as u64 - prod) % q as u64) as u32;
            }
        }
    }

    let result = ctx.negacyclic_mul(&a, &b);
    assert_eq!(result, expected, "Negacyclic multiplication mismatch");
}

#[test]
fn test_inverse_lazy_no_normalization() {
    let n = 256;
    let q = test_prime(n);
    let ctx = Ntt32Context::new(n, q);
    let original = make_test_data(n, q);

    // inverse_lazy should NOT equal original (missing N^{-1})
    let mut data = original.clone();
    ctx.forward(&mut data);
    ctx.inverse_lazy(&mut data);
    assert_ne!(
        data, original,
        "inverse_lazy should not match original (no N^{{-1}})"
    );

    // But after manual N^{-1} normalization, it should match
    let n_inv = ctx.n_inv();
    for x in data.iter_mut() {
        *x = ((*x as u64 * n_inv as u64) % q as u64) as u32;
    }
    assert_eq!(
        data, original,
        "inverse_lazy + manual N^{{-1}} should match original"
    );
}

#[test]
fn test_inverse_lazy_matches_concrete_ntt_style() {
    // Verify that inverse_lazy() is exactly inverse() without N^{-1}
    let n = 1024;
    let q = test_prime(n);
    let ctx = Ntt32Context::new(n, q);
    let original = make_test_data(n, q);

    let mut data_full = original.clone();
    let mut data_lazy = original.clone();

    ctx.forward(&mut data_full);
    ctx.forward(&mut data_lazy);

    ctx.inverse(&mut data_full);
    ctx.inverse_lazy(&mut data_lazy);

    // data_lazy * N^{-1} should equal data_full
    let n_inv = ctx.n_inv();
    let data_lazy_normalized: Vec<u32> = data_lazy
        .iter()
        .map(|&x| ((x as u64 * n_inv as u64) % q as u64) as u32)
        .collect();
    assert_eq!(data_full, data_lazy_normalized);
}

#[test]
fn test_negacyclic_mul_into_matches_negacyclic_mul() {
    let n = 256;
    let q = test_prime(n);
    let ctx = Ntt32Context::new(n, q);

    let a: Vec<u32> = (0..n)
        .map(|i| ((i as u64 * 17 + 3) % q as u64) as u32)
        .collect();
    let b: Vec<u32> = (0..n)
        .map(|i| ((i as u64 * 31 + 7) % q as u64) as u32)
        .collect();

    // Allocating version
    let result_alloc = ctx.negacyclic_mul(&a, &b);

    // Zero-alloc version
    let mut a_buf = a.clone();
    let mut b_buf = b.clone();
    let mut result_inplace = vec![0u32; n];
    ctx.negacyclic_mul_into(&mut a_buf, &mut b_buf, &mut result_inplace);

    assert_eq!(
        result_alloc, result_inplace,
        "negacyclic_mul_into must match negacyclic_mul"
    );
}

#[test]
fn test_negacyclic_mul_into_reusable_buffers() {
    // Verify that buffers can be reused across calls
    let n = 64;
    let q = test_prime(n);
    let ctx = Ntt32Context::new(n, q);

    let mut a_buf = vec![0u32; n];
    let mut b_buf = vec![0u32; n];
    let mut result = vec![0u32; n];

    for round in 0..3u32 {
        // Fill buffers with different data each round
        for i in 0..n {
            a_buf[i] = ((i as u64 * (round as u64 + 17) + 3) % q as u64) as u32;
            b_buf[i] = ((i as u64 * (round as u64 + 31) + 7) % q as u64) as u32;
        }
        let expected = ctx.negacyclic_mul(&a_buf, &b_buf);

        ctx.negacyclic_mul_into(&mut a_buf, &mut b_buf, &mut result);
        assert_eq!(
            result, expected,
            "Reusable buffer mismatch at round {round}"
        );

        // Re-fill for next round (a_buf/b_buf were destroyed)
    }
}

// ===================================================================
// NIST Post-Quantum Standard Primes
// ===================================================================

#[test]
fn test_pq_mldsa_roundtrip() {
    // ML-DSA (FIPS 204): q = 8380417 = 2^23 - 2^13 + 1, N = 256
    let q: u32 = 8_380_417;
    let n = 256;
    assert_eq!((q - 1) % (2 * n as u32), 0, "q-1 must be divisible by 2N");

    let ctx = Ntt32Context::new(n, q);
    let original = make_test_data(n, q);
    let mut data = original.clone();

    ctx.forward(&mut data);
    assert_ne!(data, original, "Forward NTT should change data");
    ctx.inverse(&mut data);
    assert_eq!(data, original, "ML-DSA roundtrip failed");
}

#[test]
fn test_pq_mldsa_negacyclic_mul() {
    let q: u32 = 8_380_417;
    let n = 256;
    let ctx = Ntt32Context::new(n, q);

    // Multiply by [1, 0, 0, ...] should be identity
    let a: Vec<u32> = (0..n)
        .map(|i| ((i as u64 * 17 + 5) % q as u64) as u32)
        .collect();
    let mut one = vec![0u32; n];
    one[0] = 1;

    let result = ctx.negacyclic_mul(&a, &one);
    assert_eq!(result, a, "ML-DSA: multiply by 1 is not identity");
}

#[test]
fn test_pq_falcon512_roundtrip() {
    // Falcon-512: q = 12289, N = 512
    let q: u32 = 12_289;
    let n = 512;
    assert_eq!((q - 1) % (2 * n as u32), 0, "q-1 must be divisible by 2N");

    let ctx = Ntt32Context::new(n, q);
    let original = make_test_data(n, q);
    let mut data = original.clone();

    ctx.forward(&mut data);
    ctx.inverse(&mut data);
    assert_eq!(data, original, "Falcon-512 roundtrip failed");
}

#[test]
fn test_pq_falcon1024_roundtrip() {
    // Falcon-1024: q = 12289, N = 1024
    let q: u32 = 12_289;
    let n = 1024;
    assert_eq!((q - 1) % (2 * n as u32), 0, "q-1 must be divisible by 2N");

    let ctx = Ntt32Context::new(n, q);
    let original = make_test_data(n, q);
    let mut data = original.clone();

    ctx.forward(&mut data);
    ctx.inverse(&mut data);
    assert_eq!(data, original, "Falcon-1024 roundtrip failed");
}

#[test]
fn test_pq_falcon_negacyclic_mul() {
    let q: u32 = 12_289;
    let n = 512;
    let ctx = Ntt32Context::new(n, q);

    let a: Vec<u32> = (0..n)
        .map(|i| ((i as u64 * 17 + 5) % q as u64) as u32)
        .collect();
    let mut one = vec![0u32; n];
    one[0] = 1;

    let result = ctx.negacyclic_mul(&a, &one);
    assert_eq!(result, a, "Falcon: multiply by 1 is not identity");
}

#[test]
fn test_pq_mlkem_proxy_roundtrip() {
    // ML-KEM proxy: q = 3329, N = 128 (Kyber uses incomplete 128-point NTT)
    // 3329 - 1 = 3328 = 2^8 × 13, and 2×128 = 256 | 3328 ✓
    let q: u32 = 3_329;
    let n = 128;
    assert_eq!((q - 1) % (2 * n as u32), 0, "q-1 must be divisible by 2N");

    let ctx = Ntt32Context::new(n, q);
    let original = make_test_data(n, q);
    let mut data = original.clone();

    ctx.forward(&mut data);
    ctx.inverse(&mut data);
    assert_eq!(data, original, "ML-KEM proxy roundtrip failed");
}

#[test]
fn test_pq_mlkem_negacyclic_mul() {
    let q: u32 = 3_329;
    let n = 128;
    let ctx = Ntt32Context::new(n, q);

    // Verify against naive O(N²) multiplication
    let a: Vec<u32> = (0..n).map(|i| (i as u32 + 1) % q).collect();
    let b: Vec<u32> = vec![1u32; n];

    let mut expected = vec![0u32; n];
    for i in 0..n {
        for j in 0..n {
            let prod = (a[i] as u64 * b[j] as u64) % q as u64;
            if i + j < n {
                expected[i + j] = ((expected[i + j] as u64 + prod) % q as u64) as u32;
            } else {
                let idx = i + j - n;
                expected[idx] = ((expected[idx] as u64 + q as u64 - prod) % q as u64) as u32;
            }
        }
    }

    let result = ctx.negacyclic_mul(&a, &b);
    assert_eq!(
        result, expected,
        "ML-KEM negacyclic multiplication mismatch"
    );
}

/// Exhaustive NEON-vs-scalar regression test.
///
/// Validates that the NEON NTT path produces identical results to the
/// scalar path for all sizes and representative primes. This is the
/// permanent canary for the vqdmulhq_s32 overflow bug (N≥16384, q~2^28).
#[test]
fn test_neon_vs_scalar_exhaustive() {
    
    let sizes = [256, 1024, 4096, 8192, 16384, 32768];
    let num_primes = 10;

    for &n in &sizes {
        let primes = generate_primes_28(n, num_primes);
        for &q in &primes {
            let ctx = Ntt32Context::new(n, q);

            // Test data: deterministic pseudo-random values in [0, q)
            let data: Vec<u32> = (0..n)
                .map(|i| ((i as u64 * 7 + 13) % q as u64) as u32)
                .collect();

            // Forward NTT
            let mut neon_fwd = data.clone();
            let mut scalar_fwd = data.clone();
            ctx.forward(&mut neon_fwd);
            ntt_forward_scalar(&mut scalar_fwd, &ctx);
            assert_eq!(
                neon_fwd, scalar_fwd,
                "NEON vs scalar FORWARD mismatch: N={n}, q={q}"
            );

            // Inverse NTT
            let mut neon_inv = neon_fwd.clone();
            let mut scalar_inv = scalar_fwd.clone();
            ctx.inverse(&mut neon_inv);
            ntt_inverse_scalar(&mut scalar_inv, &ctx);
            assert_eq!(
                neon_inv, scalar_inv,
                "NEON vs scalar INVERSE mismatch: N={n}, q={q}"
            );

            // Roundtrip: should recover original data
            for i in 0..n {
                assert_eq!(
                    neon_inv[i] % q, data[i] % q,
                    "Roundtrip mismatch at index {i}: N={n}, q={q}"
                );
            }
        }
    }
}
