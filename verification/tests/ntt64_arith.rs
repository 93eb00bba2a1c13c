use vaea_ntt::ntt64::arith::{
    from_montgomery, mod_add, mod_inv, mod_mul_barrett, mod_mul_mont, mod_pow, mod_sub,
    to_montgomery, Ntt64Arith, PRIME_60_1, PRIME_60_2, PRIME_60_3, PRIME_62_1, PRIME_SEAL,
};

/// Naive reference multiplication via u128.
fn naive_mod_mul(a: u64, b: u64, m: u64) -> u64 {
    ((a as u128 * b as u128) % m as u128) as u64
}

/// Naive reference exponentiation via u128.
fn naive_mod_pow(base: u64, exp: u64, m: u64) -> u64 {
    let mut result = 1u128;
    let mut b = base as u128 % m as u128;
    let mut e = exp;
    while e > 0 {
        if e & 1 == 1 {
            result = result * b % m as u128;
        }
        e >>= 1;
        if e > 0 {
            b = b * b % m as u128;
        }
    }
    result as u64
}

// --- Context construction ---

#[test]
fn test_ctx_creation() {
    let ctx = Ntt64Arith::new(17);
    assert_eq!(ctx.modulus, 17);
    assert_eq!(ctx.mont_r as u128, (1u128 << 64) % 17u128);
    let r = ctx.mont_r as u128;
    assert_eq!(ctx.mont_r2, (r * r % 17) as u64);
    assert_eq!(
        ctx.modulus.wrapping_mul(ctx.mont_neg_inv).wrapping_add(1),
        0,
    );
}

#[test]
fn test_ctx_ntt_primes() {
    for &p in &[PRIME_60_1, PRIME_SEAL, PRIME_62_1, PRIME_60_2, PRIME_60_3] {
        assert!(p < (1u64 << 62));
        assert!(p & 1 == 1);
        let ctx = Ntt64Arith::new(p);
        assert_eq!(
            ctx.modulus.wrapping_mul(ctx.mont_neg_inv).wrapping_add(1),
            0,
        );
    }
}

// --- Modular add ---

#[test]
fn test_mod_add_basic() {
    let m = 17;
    assert_eq!(mod_add(3, 5, m), 8);
    assert_eq!(mod_add(10, 10, m), 3);
    assert_eq!(mod_add(0, 0, m), 0);
    assert_eq!(mod_add(16, 0, m), 16);
    assert_eq!(mod_add(0, 16, m), 16);
}

#[test]
fn test_mod_add_edge_cases() {
    let m = 17;
    assert_eq!(mod_add(10, 7, m), 0);
    assert_eq!(mod_add(16, 16, m), 15);
}

#[test]
fn test_mod_add_large_modulus() {
    let m = PRIME_60_1;
    let a = m - 1;
    let b = m - 1;
    let expected = ((a as u128 + b as u128) % m as u128) as u64;
    assert_eq!(mod_add(a, b, m), expected);
    assert_eq!(mod_add(0, a, m), a);
    assert_eq!(mod_add(a, 0, m), a);
}

// --- Modular sub ---

#[test]
fn test_mod_sub_basic() {
    let m = 17;
    assert_eq!(mod_sub(10, 3, m), 7);
    assert_eq!(mod_sub(3, 10, m), 10);
    assert_eq!(mod_sub(0, 0, m), 0);
    assert_eq!(mod_sub(5, 5, m), 0);
}

#[test]
fn test_mod_sub_edge_cases() {
    let m = 17;
    assert_eq!(mod_sub(0, 16, m), 1);
    assert_eq!(mod_sub(0, 1, m), 16);
    assert_eq!(mod_sub(16, 0, m), 16);
}

#[test]
fn test_mod_sub_large_modulus() {
    let m = PRIME_60_1;
    assert_eq!(mod_sub(0, 0, m), 0);
    assert_eq!(mod_sub(1, 0, m), 1);
    assert_eq!(mod_sub(0, 1, m), m - 1);
    assert_eq!(mod_sub(m - 1, m - 1, m), 0);
}

// --- Barrett multiplication ---

#[test]
fn test_mod_mul_barrett_basic() {
    let ctx = Ntt64Arith::new(17);
    assert_eq!(mod_mul_barrett(3, 5, &ctx), 15);
    assert_eq!(mod_mul_barrett(4, 5, &ctx), 3);
    assert_eq!(mod_mul_barrett(0, 12, &ctx), 0);
    assert_eq!(mod_mul_barrett(1, 12, &ctx), 12);
}

#[test]
fn test_mod_mul_barrett_vs_naive() {
    let ctx = Ntt64Arith::new(PRIME_60_1);
    let m = ctx.modulus;
    let test_values: Vec<u64> = vec![
        0,
        1,
        2,
        m - 1,
        m - 2,
        m / 2,
        m / 3,
        123456789,
        987654321,
        (1u64 << 30) + 7,
        (1u64 << 40) - 3,
    ];
    for &a in &test_values {
        for &b in &test_values {
            let a = a % m;
            let b = b % m;
            let expected = naive_mod_mul(a, b, m);
            let got = mod_mul_barrett(a, b, &ctx);
            assert_eq!(got, expected, "Barrett fails for a={a}, b={b}, m={m}");
        }
    }
}

#[test]
fn test_mod_mul_barrett_all_primes() {
    for &p in &[PRIME_60_1, PRIME_SEAL, PRIME_62_1, PRIME_60_2, PRIME_60_3] {
        let ctx = Ntt64Arith::new(p);
        let a = p - 1;
        let b = p - 1;
        let expected = naive_mod_mul(a, b, p);
        let got = mod_mul_barrett(a, b, &ctx);
        assert_eq!(got, expected, "Barrett fails for p={p}");
    }
}

// --- Montgomery ---

#[test]
fn test_montgomery_roundtrip() {
    let ctx = Ntt64Arith::new(17);
    for a in 0..17u64 {
        let a_mont = to_montgomery(a, &ctx);
        let a_back = from_montgomery(a_mont, &ctx);
        assert_eq!(a_back, a, "Roundtrip fails for a={a}, a_mont={a_mont}");
    }
}

#[test]
fn test_montgomery_roundtrip_large() {
    let ctx = Ntt64Arith::new(PRIME_60_1);
    let m = ctx.modulus;
    let values: Vec<u64> = vec![0, 1, 2, m - 1, m - 2, m / 2, 123456789, m / 3];
    for &a in &values {
        let a_mont = to_montgomery(a, &ctx);
        let a_back = from_montgomery(a_mont, &ctx);
        assert_eq!(a_back, a, "Roundtrip fails for a={a}");
    }
}

#[test]
fn test_montgomery_mul() {
    let ctx = Ntt64Arith::new(17);
    for a in 0..17u64 {
        for b in 0..17u64 {
            let expected = naive_mod_mul(a, b, 17);
            let a_m = to_montgomery(a, &ctx);
            let b_m = to_montgomery(b, &ctx);
            let c_m = mod_mul_mont(a_m, b_m, &ctx);
            let c = from_montgomery(c_m, &ctx);
            assert_eq!(c, expected, "Montgomery mul fails for a={a}, b={b}");
        }
    }
}

#[test]
fn test_montgomery_mul_large() {
    let ctx = Ntt64Arith::new(PRIME_SEAL);
    let m = ctx.modulus;
    let values: Vec<u64> = vec![1, 2, m - 1, m / 2, 999999937, 1000000007 % m];
    for &a in &values {
        for &b in &values {
            let expected = naive_mod_mul(a, b, m);
            let a_m = to_montgomery(a, &ctx);
            let b_m = to_montgomery(b, &ctx);
            let c_m = mod_mul_mont(a_m, b_m, &ctx);
            let c = from_montgomery(c_m, &ctx);
            assert_eq!(c, expected, "Montgomery mul fails for a={a}, b={b}, q={m}");
        }
    }
}

// --- Modular exponentiation ---

#[test]
fn test_mod_pow_known() {
    let ctx = Ntt64Arith::new(1000003);
    assert_eq!(mod_pow(2, 10, &ctx), 1024);

    let ctx2 = Ntt64Arith::new(1009);
    assert_eq!(mod_pow(2, 10, &ctx2), 15);

    assert_eq!(mod_pow(12345, 0, &ctx), 1);
    assert_eq!(mod_pow(42, 1, &ctx), 42);
    assert_eq!(mod_pow(0, 100, &ctx), 0);
}

#[test]
fn test_mod_pow_fermat() {
    let ctx = Ntt64Arith::new(PRIME_60_1);
    let p = ctx.modulus;
    assert_eq!(mod_pow(2, p - 1, &ctx), 1);
    assert_eq!(mod_pow(3, p - 1, &ctx), 1);
    assert_eq!(mod_pow(p - 1, p - 1, &ctx), 1);
    assert_eq!(mod_pow(123456789, p - 1, &ctx), 1);
}

#[test]
fn test_mod_pow_vs_naive() {
    let ctx = Ntt64Arith::new(PRIME_60_1);
    let m = ctx.modulus;
    for base in [2u64, 3, 7, 11, 13, m - 1] {
        for exp in [0u64, 1, 2, 3, 10, 100, 1000] {
            let expected = naive_mod_pow(base, exp, m);
            let got = mod_pow(base, exp, &ctx);
            assert_eq!(got, expected, "mod_pow fails for base={base}, exp={exp}");
        }
    }
}

// --- Modular inverse ---

#[test]
fn test_mod_inv_basic() {
    let ctx = Ntt64Arith::new(17);
    for a in 1..17u64 {
        let inv = mod_inv(a, &ctx);
        let product = mod_mul_barrett(a, inv, &ctx);
        assert_eq!(product, 1, "a={a}, inv={inv}, a*inv mod 17 = {product}");
    }
}

#[test]
fn test_mod_inv_large_prime() {
    let ctx = Ntt64Arith::new(PRIME_SEAL);
    let m = ctx.modulus;
    let values = [1u64, 2, 3, m - 1, m - 2, m / 2, 999999937 % m];
    for &a in &values {
        let inv = mod_inv(a, &ctx);
        let product = mod_mul_barrett(a, inv, &ctx);
        assert_eq!(product, 1, "Inverse fails for a={a}, q={m}");
    }
}

// --- SEAL prime properties ---

#[test]
fn test_seal_prime_properties() {
    let q = PRIME_SEAL;
    let ctx = Ntt64Arith::new(q);
    assert_eq!(q % (1 << 21), 1, "SEAL prime is not ≡ 1 mod 2^21");
    for &base in &[2u64, 3, 5, 7, 11, 13] {
        assert_eq!(mod_pow(base, q - 1, &ctx), 1);
    }
}

// --- Barrett vs Montgomery consistency ---

#[test]
fn test_consistency_barrett_vs_montgomery() {
    let ctx = Ntt64Arith::new(PRIME_60_1);
    let m = ctx.modulus;
    let values = [1u64, 2, 3, m - 1, m / 2, 777777777, 42];
    for &a in &values {
        let a = a % m;
        for &b in &values {
            let b = b % m;
            let barrett_result = mod_mul_barrett(a, b, &ctx);
            let a_m = to_montgomery(a, &ctx);
            let b_m = to_montgomery(b, &ctx);
            let mont_result = from_montgomery(mod_mul_mont(a_m, b_m, &ctx), &ctx);
            assert_eq!(barrett_result, mont_result);
        }
    }
}
