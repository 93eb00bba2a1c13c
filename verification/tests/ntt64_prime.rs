use vaea_ntt::ntt64::arith::PRIME_SEAL;
use vaea_ntt::ntt64::prime::{find_primitive_root, generate_primes_60, is_prime, mod_pow_raw};

#[test]
fn test_miller_rabin_primes() {
    let known_primes: Vec<u64> = vec![
        2,
        3,
        5,
        7,
        11,
        13,
        17,
        19,
        23,
        29,
        31,
        37,
        41,
        43,
        97,
        101,
        7681,
        12289,
        65537,
        786433,
        104857601,
        (1u64 << 61) - 1, // Mersenne prime 2^61 - 1
    ];
    for &p in &known_primes {
        assert!(is_prime(p), "{p} should be prime");
    }
}

#[test]
fn test_miller_rabin_composites() {
    let composites: Vec<u64> = vec![
        0, 1, 4, 6, 8, 9, 10, 12, 15, 21, 25, 49, 100, 1000,
        561,  // Carmichael pseudoprime (3·11·17)
        1105, // Carmichael pseudoprime (5·13·17)
        1729, // Hardy-Ramanujan number (7·13·19)
        7680, 12288,
    ];
    for &c in &composites {
        assert!(!is_prime(c), "{c} should not be prime");
    }
}

#[test]
fn test_prime_generation() {
    let primes = generate_primes_60(256, 14, 3);
    assert_eq!(primes.len(), 3);

    for &q in &primes {
        assert!(is_prime(q), "{q} is not prime");
        let two_n: u64 = 2 * 256;
        assert_eq!((q - 1) % two_n, 0);
        let bits = 64 - q.leading_zeros();
        assert_eq!(bits, 14, "{q} has {bits} bits, expected 14");
    }

    // Uniqueness
    let mut sorted = primes.clone();
    sorted.sort();
    sorted.dedup();
    assert_eq!(sorted.len(), primes.len(), "primes must be distinct");
}

#[test]
fn prime_test_find_primitive_root() {
    let q = 7681u64; // q−1 = 7680 = 15·512, supports N=256
    let n = 256;
    let psi = find_primitive_root(n, q);
    assert_eq!(mod_pow_raw(psi, 2 * n as u64, q), 1);
    assert_eq!(mod_pow_raw(psi, n as u64, q), q - 1);
}

#[test]
fn test_find_primitive_root_seal() {
    let q = PRIME_SEAL;
    for &n in &[16, 64, 1024, 4096] {
        let psi = find_primitive_root(n, q);
        assert_eq!(mod_pow_raw(psi, 2 * n as u64, q), 1);
        assert_eq!(mod_pow_raw(psi, n as u64, q), q - 1);
    }
}
