use vaea_ntt::ntt32::arith::{mod_add_28, mod_inv_32, mod_mul_28, mod_pow_32, mod_sub_28};

#[test]
fn test_mod_mul_28_basic() {
    let q = 268_435_399u32;
    assert_eq!(mod_mul_28(0, 123, q), 0);
    assert_eq!(mod_mul_28(1, 42, q), 42);
    assert_eq!(mod_mul_28(42, 1, q), 42);

    let a = q - 1;
    let b = q - 1;
    let expected = ((a as u64 * b as u64) % q as u64) as u32;
    assert_eq!(mod_mul_28(a, b, q), expected);
}

#[test]
fn test_mod_add_sub_28() {
    let q = 100_000_007u32;
    assert_eq!(mod_add_28(3, 5, q), 8);
    assert_eq!(mod_add_28(q - 1, 1, q), 0);
    assert_eq!(mod_add_28(q - 1, q - 1, q), q - 2);

    assert_eq!(mod_sub_28(5, 3, q), 2);
    assert_eq!(mod_sub_28(3, 5, q), q - 2);
    assert_eq!(mod_sub_28(0, 0, q), 0);
    assert_eq!(mod_sub_28(0, 1, q), q - 1);
}

#[test]
fn test_mod_pow_32_basic() {
    let q = 1009u32;
    assert_eq!(mod_pow_32(2, 10, q), 15);
    assert_eq!(mod_pow_32(42, 0, q), 1);
    assert_eq!(mod_pow_32(42, 1, q), 42);
    assert_eq!(mod_pow_32(0, 100, q), 0);
    assert_eq!(mod_pow_32(7, q - 1, q), 1);
}

#[test]
fn test_mod_inv_32_basic() {
    let q = 17u32;
    for a in 1..q {
        let inv = mod_inv_32(a, q);
        let prod = mod_mul_28(a, inv, q);
        assert_eq!(prod, 1, "Inverse failed for a={a}, q={q}, inv={inv}");
    }
}
