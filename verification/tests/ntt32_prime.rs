use vaea_ntt::ntt32::arith::mod_pow_32;
use vaea_ntt::ntt32::prime::{find_primitive_root, generate_primes_28, is_prime_32};

#[test]
fn test_is_prime_32() {
    assert!(!is_prime_32(0));
    assert!(!is_prime_32(1));
    assert!(is_prime_32(2));
    assert!(is_prime_32(3));
    assert!(!is_prime_32(4));
    assert!(is_prime_32(5));
    assert!(is_prime_32(7));
    assert!(!is_prime_32(9));
    assert!(is_prime_32(13));
    assert!(is_prime_32(268_435_399));
}

#[test]
fn test_generate_primes_28() {
    for &n in &[16, 64, 1024, 4096] {
        let primes = generate_primes_28(n, 5);
        assert_eq!(primes.len(), 5);

        for &p in &primes {
            assert!(p < (1u32 << 28), "Prime {p} >= 2^28");
            assert!(is_prime_32(p), "{p} is not prime");
            assert_eq!(
                (p - 1) % (2 * n as u32),
                0,
                "Prime {p} is not NTT-friendly for N={n}"
            );
        }

        // Check uniqueness
        for i in 0..primes.len() {
            for j in (i + 1)..primes.len() {
                assert_ne!(primes[i], primes[j], "Duplicate primes");
            }
        }
    }
}

#[test]
fn test_find_primitive_root() {
    for &n in &[16, 64, 1024] {
        let q = generate_primes_28(n, 1)[0];
        let psi = find_primitive_root(n, q);

        assert_eq!(
            mod_pow_32(psi, 2 * n as u32, q),
            1,
            "ψ^(2N) ≠ 1 for N={n}, q={q}"
        );
        assert_eq!(
            mod_pow_32(psi, n as u32, q),
            q - 1,
            "ψ^N ≠ -1 for N={n}, q={q}"
        );
    }
}

#[test]
fn generated_primes_28_are_largest_first() {
    let primes = generate_primes_28(1024, 4);
    assert_eq!(primes.len(), 4);
    for w in primes.windows(2) {
        assert!(w[0] > w[1]);
    }
    // the largest 28-bit prime of the form k·2048 + 1
    let k_max = ((1u32 << 28) - 1) / 2048;
    let mut largest = 0u32;
    for k in (1..=k_max).rev() {
        if is_prime_32(k * 2048 + 1) {
            largest = k * 2048 + 1;
            break;
        }
    }
    assert_eq!(primes[0], largest);
}

#[test]
fn primitive_root_of_small_prime() {
    // q = 17, N = 4: the least generator of Z_17* is 3, and ψ = 3^(16/8) = 9
    let psi = find_primitive_root(4, 17);
    assert_eq!(psi, 9);
    assert_eq!(mod_pow_32(psi, 4, 17), 16);
    assert_eq!(mod_pow_32(psi, 8, 17), 1);
}

#[test]
fn generate_primes_28_count_zero_is_empty() {
    assert!(generate_primes_28(256, 0).is_empty());
    assert!(generate_primes_28(1 << 28, 0).is_empty());
}
