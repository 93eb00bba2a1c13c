use vaea_ntt::bits::{bit_reverse, power_of_two_exponent};
use vaea_ntt::ntt32::context::Ntt32Context;
use vaea_ntt::ntt32::neon::{ntt_fwd_neon, ntt_inv_neon, ntt_inv_neon_lazy};
use vaea_ntt::ntt32::prime::generate_primes_28;
use vaea_ntt::ntt32::scalar::{ntt_forward_scalar, ntt_inverse_scalar, ntt_inverse_scalar_lazy};
use vaea_ntt::ntt64::arith::{
    from_montgomery, mod_add, mod_mul_barrett, mod_mul_mont, mod_sub, to_montgomery, Ntt64Arith,
    PRIME_60_1, PRIME_SEAL,
};
use vaea_ntt::ntt64::context::{ntt_forward, ntt_forward_tiled, Ntt64Context};
use vaea_ntt::ntt64::prime::{find_primitive_root, is_prime, mod_pow_raw};
use vaea_ntt::poly::{signed_residue, Poly64};
use vaea_ntt::NttError;

#[test]
fn ntt32_try_new_reports_each_error() {
    assert_eq!(Ntt32Context::try_new(255, 8380417).unwrap_err(), NttError::InvalidSize(255));
    assert_eq!(Ntt32Context::try_new(1, 3).unwrap_err(), NttError::InvalidSize(1));
    assert_eq!(Ntt32Context::try_new(0, 3).unwrap_err(), NttError::InvalidSize(0));
    assert_eq!(
        Ntt32Context::try_new(256, 268435457).unwrap_err(),
        NttError::PrimeTooLarge(268435457)
    );
    assert_eq!(Ntt32Context::try_new(256, 100).unwrap_err(), NttError::NotPrime(100));
    assert_eq!(
        Ntt32Context::try_new(256, 17).unwrap_err(),
        NttError::NotNttFriendly { q: 17, n: 256 }
    );
    assert!(Ntt32Context::try_new(256, 8380417).is_ok());
}

#[test]
fn ntt64_try_new_reports_each_error() {
    let arith = Ntt64Arith::new(PRIME_SEAL);
    assert_eq!(Ntt64Context::try_new(12, arith.clone()).unwrap_err(), NttError::InvalidSize(12));
    assert_eq!(
        Ntt64Context::try_new(16, Ntt64Arith::new(15)).unwrap_err(),
        NttError::NotPrime(15)
    );
    assert_eq!(
        Ntt64Context::try_new(16, Ntt64Arith::new(19)).unwrap_err(),
        NttError::NotNttFriendly { q: 19, n: 16 }
    );
    assert!(Ntt64Context::try_new(16, arith).is_ok());
}

#[test]
fn ntt32_context_fields() {
    let ctx = Ntt32Context::new(4, 17);
    assert_eq!(ctx.n, 4);
    assert_eq!(ctx.log_n, 2);
    assert_eq!(ctx.q, 17);
    assert_eq!(ctx.two_q, 34);
    // ψ = 9 (from the least generator 3), twiddles ψ^bitrev(i)
    assert_eq!(ctx.root_powers, vec![1, 13, 9, 15]);
    // N⁻¹ = 4⁻¹ mod 17 = 13
    assert_eq!(ctx.n_inv(), 13);
    assert_eq!(ctx.n_inv_shoup(), ((13u64 << 32) / 17) as u32);
}

#[test]
fn forward_evaluates_at_roots() {
    // output j of the forward transform is the input evaluated at ψ^(2·bitrev(j)+1)
    let q = 17u32;
    let ctx = Ntt32Context::new(4, q);
    let a = vec![3u32, 1, 4, 1];
    let mut f = a.clone();
    ctx.forward(&mut f);
    let psi = 9u64;
    for j in 0..4u32 {
        let e = 2 * bit_reverse(j, 2) as u64 + 1;
        let z = mod_pow_raw(psi, e, q as u64);
        let mut acc = 0u64;
        for k in (0..4).rev() {
            acc = (acc * z + a[k] as u64) % q as u64;
        }
        assert_eq!(f[j as usize] as u64, acc);
    }
}

#[test]
fn montgomery_exact_values() {
    let arith = Ntt64Arith::new(17);
    // R = 2^64 ≡ 1 (mod 17), so Montgomery form is the value itself
    assert_eq!(arith.mont_r, 1);
    assert_eq!(to_montgomery(5, &arith), 5);
    let arith = Ntt64Arith::new(PRIME_60_1);
    let r = ((1u128 << 64) % PRIME_60_1 as u128) as u64;
    assert_eq!(to_montgomery(1, &arith), r);
    assert_eq!(from_montgomery(r, &arith), 1);
    let a = 123456789u64;
    let b = 987654321u64;
    let c = from_montgomery(
        mod_mul_mont(to_montgomery(a, &arith), to_montgomery(b, &arith), &arith),
        &arith,
    );
    assert_eq!(c, ((a as u128 * b as u128) % PRIME_60_1 as u128) as u64);
    assert_eq!(mod_mul_barrett(a, b, &arith), c);
    assert_eq!(arith.barrett_mu, u128::MAX / PRIME_60_1 as u128);
}

#[test]
fn mod_add_with_carry() {
    // moduli above 2^63: a + b carries out of 64 bits
    let m = u64::MAX - 58; // 2^64 − 59, a prime
    assert_eq!(mod_add(m - 1, m - 1, m), m - 2);
    assert_eq!(mod_add(m - 1, 1, m), 0);
    let a = 1u64 << 63;
    let b = (1u64 << 63) + 5;
    assert_eq!(mod_add(a, b, m), ((a as u128 + b as u128) % m as u128) as u64);
}

#[test]
fn mod_add_sub_undo() {
    let m = PRIME_SEAL;
    for &(a, b) in &[(0u64, 0u64), (m - 1, m - 1), (5, m - 3), (m / 2, m / 3)] {
        assert_eq!(mod_sub(mod_add(a, b, m), b, m), a);
    }
}

#[test]
fn powers_of_two() {
    assert_eq!(power_of_two_exponent(1), Some(0));
    assert_eq!(power_of_two_exponent(256), Some(8));
    assert_eq!(power_of_two_exponent(0), None);
    assert_eq!(power_of_two_exponent(255), None);
    assert_eq!(power_of_two_exponent(1 << 40), Some(40));
    assert_eq!(bit_reverse(1, 32), 1 << 31);
    assert_eq!(bit_reverse(0b1011, 4), 0b1101);
    assert_eq!(bit_reverse(0xffff_fff6, 4), 0b0110);
}

#[test]
fn miller_rabin_small_and_strong_pseudoprimes() {
    // 2047 = 23 · 89 is a strong pseudoprime to base 2; the other bases reject it
    assert!(!is_prime(2047));
    // 3215031751 is a strong pseudoprime to bases 2, 3, 5 and 7
    assert!(!is_prime(3_215_031_751));
    assert!(is_prime(PRIME_SEAL));
    assert!(is_prime(PRIME_60_1));
    assert!(!is_prime(PRIME_SEAL - 2));
    for n in 0u64..1681 {
        let trial = n >= 2 && (2..n).all(|d| n % d != 0);
        assert_eq!(is_prime(n), trial, "n = {n}");
    }
}

#[test]
fn primitive_root_64_exact() {
    // q = 17, N = 8: least generator 3, ψ = 3^(16/16) = 3
    assert_eq!(find_primitive_root(8, 17), 3);
    // q = 7681, N = 256: ψ^256 ≡ −1
    let psi = find_primitive_root(256, 7681);
    assert_eq!(mod_pow_raw(psi, 256, 7681), 7680);
}

#[test]
fn signed_residues() {
    assert_eq!(signed_residue(5, 7), 5);
    assert_eq!(signed_residue(-3, 7), 4);
    assert_eq!(signed_residue(-7, 7), 0);
    assert_eq!(signed_residue(-14, 7), 0);
    assert_eq!(signed_residue(i64::MIN, 7), (i64::MIN as i128).rem_euclid(7) as u64);
    assert_eq!(signed_residue(i64::MAX, 1000003), (i64::MAX % 1000003) as u64);
}

#[test]
fn random_polynomials_are_reduced() {
    let arith = Ntt64Arith::new(7681);
    let p = Poly64::new_random(4096, &arith);
    assert_eq!(p.len(), 4096);
    assert!(!p.is_ntt);
    assert!(p.data.iter().all(|&c| c < 7681));
    // a fixed value coming back every time would mean the draw is not taken from the range
    assert!(p.data.iter().any(|&c| c != p.data[0]));
    let t = Poly64::new_ternary(4096, &arith);
    assert!(t.data.iter().all(|&c| c == 0 || c == 1 || c == 7680));
    assert!(t.data.contains(&0) && t.data.contains(&1) && t.data.contains(&7680));
    assert!(Poly64::new_zero(0).is_empty());
}

#[test]
fn poly_negate_and_scalar() {
    let arith = Ntt64Arith::new(17);
    let mut p = Poly64::new_zero(4);
    p.data = vec![0, 1, 16, 5];
    p.negate(&arith);
    assert_eq!(p.data, vec![0, 16, 1, 12]);
    p.scalar_mul(3, &arith);
    assert_eq!(p.data, vec![0, 14, 3, 2]);
}

#[test]
fn tiled_forward_matches_standard_for_large_n() {
    let q = PRIME_SEAL;
    for &n in &[64usize, 128, 256, 1024] {
        let ctx = Ntt64Context::new(n, Ntt64Arith::new(q));
        let data: Vec<u64> = (0..n as u64).map(|i| (i * 999_999_937 + 42) % q).collect();
        let mut tiled = data.clone();
        let mut standard = data.clone();
        ntt_forward_tiled(&mut tiled, &ctx);
        ntt_forward(&mut standard, &ctx);
        assert_eq!(tiled, standard, "N = {n}");
    }
}

#[test]
fn every_small_friendly_prime_is_accepted() {
    // every prime q ≡ 1 (mod 4) below 5000 gets a context of size 2, and one of size N for the
    // largest N with 2N | q − 1 (N ≤ 1024)
    for q in 3u32..5000 {
        let prime = (2..q).all(|d| q % d != 0);
        if !prime || (q - 1) % 4 != 0 {
            continue;
        }
        assert!(Ntt32Context::try_new(2, q).is_ok(), "q = {q}");
        let mut n = 2usize;
        while (q as usize - 1) % (4 * n) == 0 && n < 1024 {
            n *= 2;
        }
        let ctx = Ntt32Context::try_new(n, q).unwrap();
        let data: Vec<u32> = (0..n as u32).map(|i| (i * 7 + 1) % q).collect();
        let mut buf = data.clone();
        ctx.forward(&mut buf);
        ctx.inverse(&mut buf);
        assert_eq!(buf, data, "q = {q}, N = {n}");
    }
}

#[test]
fn vector_lanes_match_scalar_network() {
    // small primes (long Barrett interval) and the largest 28-bit ones (interval 3)
    for &n in &[8usize, 16, 256, 2048, 16384] {
        let mut primes = generate_primes_28(n, 3);
        primes.push(*generate_primes_28(n, 40).last().unwrap());
        if n <= 256 {
            primes.push(7681);
        }
        for &q in &primes {
            if (q - 1) % (2 * n as u32) != 0 {
                continue;
            }
            let ctx = Ntt32Context::new(n, q);
            let data: Vec<u32> = (0..n as u64).map(|i| ((i * 314_159 + 27) % q as u64) as u32).collect();
            let mut a = data.clone();
            let mut b = data.clone();
            ntt_fwd_neon(&mut a, &ctx);
            ntt_forward_scalar(&mut b, &ctx);
            assert_eq!(a, b, "forward N={n} q={q}");
            let mut c = a.clone();
            let mut d = a.clone();
            ntt_inv_neon(&mut c, &ctx);
            ntt_inverse_scalar(&mut d, &ctx);
            assert_eq!(c, d, "inverse N={n} q={q}");
            assert_eq!(c, data);
            let mut e = a.clone();
            let mut f = a.clone();
            ntt_inv_neon_lazy(&mut e, &ctx);
            ntt_inverse_scalar_lazy(&mut f, &ctx);
            assert_eq!(e, f, "lazy inverse N={n} q={q}");
        }
    }
}
