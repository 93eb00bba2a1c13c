use vaea_ntt::pq::{PqNtt, PqScheme};

#[test]
fn test_mldsa_44_roundtrip() {
    let ntt = PqNtt::new(PqScheme::MlDsa44);
    assert_eq!(ntt.q(), 8380417);
    assert_eq!(ntt.n(), 256);
    assert_eq!(ntt.security_level(), 2);

    let mut data: Vec<u32> = (0..256).map(|i| i * 1000 % 8380417).collect();
    let original = data.clone();
    ntt.forward(&mut data);
    assert_ne!(data, original, "NTT forward did nothing");
    ntt.inverse(&mut data);
    assert_eq!(data, original);
}

#[test]
fn test_mldsa_65_roundtrip() {
    let ntt = PqNtt::new(PqScheme::MlDsa65);
    assert_eq!(ntt.security_level(), 3);

    let mut data = vec![8380416u32; 256]; // q-1
    let original = data.clone();
    ntt.forward(&mut data);
    ntt.inverse(&mut data);
    assert_eq!(data, original);
}

#[test]
fn test_mldsa_87_roundtrip() {
    let ntt = PqNtt::new(PqScheme::MlDsa87);
    assert_eq!(ntt.security_level(), 5);

    let mut data = vec![0u32; 256];
    data[0] = 1;
    let original = data.clone();
    ntt.forward(&mut data);
    ntt.inverse(&mut data);
    assert_eq!(data, original);
}

#[test]
fn test_multiply() {
    let ntt = PqNtt::new(PqScheme::MlDsa44);
    let q = ntt.q();

    // Multiply (1 + x) × (1 + x) mod (x^256 + 1, q)
    // = 1 + 2x + x^2
    let mut a = vec![0u32; 256];
    a[0] = 1;
    a[1] = 1;
    let result = ntt.multiply(&a, &a);
    assert_eq!(result[0], 1);
    assert_eq!(result[1], 2);
    assert_eq!(result[2], 1);
    for i in 3..256 {
        assert_eq!(result[i], 0, "unexpected non-zero at index {i}");
    }
}

#[test]
fn test_scheme_metadata() {
    assert_eq!(PqScheme::MlDsa44.name(), "ML-DSA-44");
    assert_eq!(PqScheme::MlDsa44.fips(), "FIPS 204");
    assert_eq!(PqScheme::MlDsa44.k(), 4);

    assert_eq!(PqScheme::MlDsa65.name(), "ML-DSA-65");
    assert_eq!(PqScheme::MlDsa65.k(), 6);

    assert_eq!(PqScheme::MlDsa87.name(), "ML-DSA-87");
    assert_eq!(PqScheme::MlDsa87.k(), 8);
}

#[test]
fn test_output_fully_reduced() {
    let ntt = PqNtt::new(PqScheme::MlDsa65);
    let mut data: Vec<u32> =
        (0..ntt.n()).map(|i| (i as u32 * 7 + 13) % ntt.q()).collect();
    ntt.forward(&mut data);
    assert!(
        data.iter().all(|&x| x < ntt.q()),
        "Output not fully reduced for ML-DSA-65"
    );
}

#[test]
fn test_debug_display() {
    let ntt = PqNtt::new(PqScheme::MlDsa65);
    let debug = ntt.debug_string();
    assert!(debug.contains("ML-DSA-65"));
    assert!(debug.contains("FIPS 204"));
}

#[test]
fn debug_string_lists_every_field() {
    let ntt = PqNtt::new(PqScheme::MlDsa87);
    assert_eq!(
        ntt.debug_string(),
        "PqNtt { scheme: \"ML-DSA-87\", n: 256, q: 8380417, security_level: 5, fips: \"FIPS 204\" }"
    );
}
