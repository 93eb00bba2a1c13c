//! Primality testing (deterministic Miller-Rabin), NTT-friendly primes of the form k·2N + 1,
//! and primitive 2N-th roots of unity, for 64-bit moduli.

use vstd::prelude::*;
use vstd::arithmetic::div_mod::*;
use vstd::arithmetic::mul::*;
use vstd::arithmetic::power::*;
use vstd::arithmetic::power2::*;
use crate::algebra::modpow::lemma_square_multiply_step;
use vstd::bits::*;
use crate::algebra::primes::{
    is_prime as is_prime_spec,
    is_prime_factor_list,
    lemma_divides_transitive,
    lemma_euclid,
    lemma_fermat,
    lemma_other_prime_survives,
    lemma_prime_divisor,
    lemma_small_divisor,
};
use crate::algebra::twiddles::{
    has_generator,
    is_generator,
    is_least_generator,
    least_generator,
    lemma_least_generator_unique,
    lemma_negacyclic_root,
    negacyclic_root,
};
use crate::bits::is_power_of_two;

verus! {

/// Raw modular multiplication via u128 to avoid overflow.
pub(crate) fn mod_mul_raw(a: u64, b: u64, modulus: u64) -> (r: u64)
    requires
        modulus > 0,
    ensures
        r == (a * b) % (modulus as int),
{
    proof {
        lemma_mul_upper_bound(a as int, u64::MAX as int, b as int, u64::MAX as int);
        assert(u64::MAX * u64::MAX <= u128::MAX) by (nonlinear_arith);
        lemma_mod_bound(a * b, modulus as int);
    }
    ((a as u128 * b as u128) % modulus as u128) as u64
}

/// Raw modular exponentiation: `base^exp mod modulus`.
///
/// Uses square-and-multiply with u128 intermediates; needs no `Ntt64Arith` context.
pub fn mod_pow_raw(base: u64, exp: u64, modulus: u64) -> (r: u64)
    requires
        modulus > 0,
    ensures
        r == pow(base as int, exp as nat) % (modulus as int),
{
    let ghost m = modulus as int;
    if modulus == 1 {
        proof {
            lemma_mod_bound(pow(base as int, exp as nat), 1);
        }
        return 0;
    }
    let mut result: u64 = 1;
    let mut b = base % modulus;
    let mut e = exp;
    proof {
        lemma_pow_mod_noop(base as int, exp as nat, m);
        lemma_mul_basics(pow((base % modulus) as int, exp as nat));
    }
    while e > 0
        invariant
            m == modulus,
            modulus >= 2,
            b < modulus,
            result < modulus,
            (result * pow(b as int, e as nat)) % m == pow(base as int, exp as nat) % m,
        decreases e,
    {
        proof {
            lemma_square_multiply_step(result as int, b as int, e as nat, m);
            assert(e >> 1 == e / 2) by (bit_vector);
        }
        if e % 2 == 1 {
            result = mod_mul_raw(result, b, modulus);
        }
        e >>= 1;
        b = mod_mul_raw(b, b, modulus);
    }
    proof {
        lemma_pow0(b as int);
        lemma_mul_basics(result as int);
        lemma_small_mod(result as nat, modulus as nat);
    }
    result
}

/// The witness bases {2, 3, 5, …, 37}: together they decide primality for every n < 2^64
/// (Sorenson and Webster, "Strong Pseudoprimes to Twelve Prime Bases", 2015).
pub open spec fn witness_bases() -> Seq<int> {
    seq![2, 3, 5, 7, 11, 13, 17, 19, 23, 29, 31, 37]
}

/// The number of factors 2 in m > 0.
pub open spec fn two_adicity(m: nat) -> nat
    decreases m,
{
    if m > 0 && m % 2 == 0 {
        1 + two_adicity(m / 2)
    } else {
        0
    }
}

/// m with every factor 2 taken out.
pub open spec fn odd_part(m: nat) -> nat
    decreases m,
{
    if m > 0 && m % 2 == 0 {
        odd_part(m / 2)
    } else {
        m
    }
}

/// a^(d·2^i) mod n: the i-th term of the squaring chain of the Miller-Rabin round.
pub open spec fn chain_term(n: int, a: int, d: nat, i: nat) -> int {
    pow(a, d * pow2(i)) % n
}

/// n is a strong probable prime to base a: with n − 1 = d·2^s and d odd,
/// a^d ≡ 1 or a^(d·2^i) ≡ −1 (mod n) for some i < s.
pub open spec fn strong_probable_prime(n: int, a: int) -> bool {
    let d = odd_part((n - 1) as nat);
    let s = two_adicity((n - 1) as nat);
    ||| chain_term(n, a, d, 0) == 1
    ||| exists|i: nat| i < s && #[trigger] chain_term(n, a, d, i) == n - 1
}

/// What the deterministic Miller-Rabin test answers for n: small cases by trial division by
/// 2, 3, 5, 7, 11 and 13, the others by a strong probable prime test to each witness base
/// below n.
pub open spec fn passes_miller_rabin(n: int) -> bool {
    if n < 2 {
        false
    } else if n == 2 || n == 3 {
        true
    } else if n % 2 == 0 || n % 3 == 0 {
        false
    } else if witness_bases().contains(n) {
        true
    } else if n % 5 == 0 || n % 7 == 0 || n % 11 == 0 || n % 13 == 0 {
        n <= 13
    } else {
        forall|j: int|
            0 <= j < 12 && #[trigger] witness_bases()[j] < n ==> strong_probable_prime(
                n,
                witness_bases()[j],
            )
    }
}

/// The only square roots of 1 modulo a prime are 1 and −1.
proof fn lemma_square_roots_of_one(x: int, p: int)
    requires
        is_prime_spec(p),
        0 <= x < p,
        (x * x) % p == 1,
    ensures
        x == 1 || x == p - 1,
{
    if x == 0 {
        lemma_small_mod(0, p as nat);
    } else {
        assert((x - 1) * (x + 1) == x * x - 1) by (nonlinear_arith);
        lemma_fundamental_div_mod(x * x, p);
        assert(((x - 1) * (x + 1)) % p == 0) by {
            lemma_mul_is_commutative(p, (x * x) / p);
            lemma_fundamental_div_mod_converse(x * x - 1, p, (x * x) / p, 0);
        }
        lemma_euclid(x - 1, x + 1, p);
        if (x - 1) % p == 0 && x != 1 {
            lemma_small_mod((x - 1) as nat, p as nat);
        }
        if (x + 1) % p == 0 && x + 1 != p {
            lemma_small_mod((x + 1) as nat, p as nat);
        }
    }
}

/// Squaring a term of the chain gives the next one.
proof fn lemma_chain_square(n: int, a: int, d: nat, i: nat)
    requires
        n > 0,
    ensures
        chain_term(n, a, d, i + 1) == (chain_term(n, a, d, i) * chain_term(n, a, d, i)) % n,
{
    let e = d * pow2(i);
    lemma_pow2_unfold(i + 1);
    assert(d * pow2(i + 1) == e * 2) by {
        lemma_mul_is_associative(d as int, 2, pow2(i) as int);
        lemma_mul_is_commutative(2, pow2(i) as int);
        lemma_mul_is_associative(d as int, pow2(i) as int, 2);
    }
    lemma_pow_multiplies(a, e, 2);
    assert(pow(pow(a, e), 2) == pow(a, e) * pow(a, e)) by {
        reveal_with_fuel(pow, 3);
    }
    lemma_mul_mod_noop(pow(a, e), pow(a, e), n);
}

/// Walking the chain down from a term equal to 1: either the first term is 1, or some earlier
/// term is −1.
proof fn lemma_chain_descends(n: int, a: int, d: nat, k: nat)
    requires
        is_prime_spec(n),
        chain_term(n, a, d, k) == 1,
    ensures
        chain_term(n, a, d, 0) == 1 || exists|i: nat| i < k && #[trigger] chain_term(n, a, d, i)
            == n - 1,
    decreases k,
{
    if k > 0 {
        let x = chain_term(n, a, d, (k - 1) as nat);
        lemma_chain_square(n, a, d, (k - 1) as nat);
        lemma_mod_bound(pow(a, d * pow2((k - 1) as nat)), n);
        lemma_square_roots_of_one(x, n);
        if x == 1 {
            lemma_chain_descends(n, a, d, (k - 1) as nat);
        } else {
            assert(chain_term(n, a, d, (k - 1) as nat) == n - 1);
        }
    }
}

/// n − 1 = odd_part · 2^two_adicity.
proof fn lemma_odd_decomposition(m: nat)
    ensures
        odd_part(m) * pow2(two_adicity(m)) == m,
        m > 0 ==> odd_part(m) % 2 == 1,
    decreases m,
{
    if m > 0 && m % 2 == 0 {
        lemma_odd_decomposition(m / 2);
        lemma_pow2_unfold(two_adicity(m));
        lemma_mul_is_associative(odd_part(m) as int, 2, pow2(two_adicity(m / 2)) as int);
        lemma_mul_is_commutative(odd_part(m) as int, 2);
        lemma_mul_is_associative(2, odd_part(m) as int, pow2(two_adicity(m / 2)) as int);
    } else {
        lemma2_to64();
        lemma_mul_basics(m as int);
    }
}

/// Every odd prime is a strong probable prime to every base it does not divide.
pub proof fn lemma_prime_is_strong_probable_prime(n: int, a: int)
    requires
        is_prime_spec(n),
        n % 2 == 1,
        0 < a < n,
    ensures
        strong_probable_prime(n, a),
{
    let m = (n - 1) as nat;
    let d = odd_part(m);
    let s = two_adicity(m);
    lemma_odd_decomposition(m);
    lemma_small_mod(a as nat, n as nat);
    lemma_fermat(a, n);
    assert(chain_term(n, a, d, s) == 1);
    lemma_chain_descends(n, a, d, s);
}

/// Once a term of the squaring chain is 1, every later term is 1.
proof fn lemma_chain_stays_one(n: int, a: int, d: nat, i: nat, j: nat)
    requires
        n > 1,
        i <= j,
        chain_term(n, a, d, i) == 1,
    ensures
        chain_term(n, a, d, j) == 1,
    decreases j - i,
{
    if i < j {
        lemma_chain_square(n, a, d, i);
        lemma_small_mod(1, n as nat);
        lemma_chain_stays_one(n, a, d, i + 1, j);
    }
}

/// A strong probable prime n to base a satisfies Fermat's congruence a^(n−1) ≡ 1 (mod n).
proof fn lemma_strong_probable_prime_fermat(n: int, a: int)
    requires
        n >= 3,
        strong_probable_prime(n, a),
    ensures
        pow(a, (n - 1) as nat) % n == 1,
{
    let m = (n - 1) as nat;
    let d = odd_part(m);
    let s = two_adicity(m);
    lemma_odd_decomposition(m);
    assert(chain_term(n, a, d, s) == pow(a, (n - 1) as nat) % n);
    if chain_term(n, a, d, 0) == 1 {
        lemma_chain_stays_one(n, a, d, 0, s);
    } else {
        let i = choose|i: nat| i < s && #[trigger] chain_term(n, a, d, i) == n - 1;
        lemma_chain_square(n, a, d, i);
        assert((n - 1) * (n - 1) == (n - 2) * n + 1) by (nonlinear_arith);
        lemma_fundamental_div_mod_converse((n - 1) * (n - 1), n, n - 2, 1);
        lemma_chain_stays_one(n, a, d, i + 1, s);
    }
}

/// Every q ≡ 1 (mod 4) that the Miller-Rabin test accepts satisfies 2^(q−1) ≡ 1 (mod q).
pub proof fn lemma_miller_rabin_fermat_base_two(q: int)
    requires
        passes_miller_rabin(q),
        q >= 5,
        (q - 1) % 4 == 0,
    ensures
        pow(2, (q - 1) as nat) % q == 1,
{
    if witness_bases().contains(q) {
        let j = choose|j: int| 0 <= j < witness_bases().len() && witness_bases()[j] == q;
        assert(q == 5 || q == 13 || q == 17 || q == 29 || q == 37);
        lemma2_to64();
        lemma2_to64_rest();
        lemma_pow2((q - 1) as nat);
        let e = (q - 1) as nat;
        assert(pow(2, e) == pow2(e));
        if q == 5 {
            assert(e == 4 && pow2(4) == 16);
        } else if q == 13 {
            assert(e == 12 && pow2(12) == 4096);
        } else if q == 17 {
            assert(e == 16 && pow2(16) == 65536);
        } else if q == 29 {
            assert(e == 28 && pow2(28) == 268435456);
        } else {
            assert(e == 36 && pow2(36) == 68719476736);
        }
        assert(pow(2, (q - 1) as nat) % q == 1);
    } else {
        assert(witness_bases()[0] == 2);
        assert(strong_probable_prime(q, 2));
        lemma_strong_probable_prime_fermat(q, 2);
        assert(pow(2, (q - 1) as nat) % q == 1);
    }
}

/// No term of the squaring chain is 1 or −1 modulo n when a witness a < n divides n.
proof fn lemma_chain_term_divisible(n: int, a: int, d: nat, i: nat)
    requires
        2 <= a < n,
        n % a == 0,
        d >= 1,
    ensures
        chain_term(n, a, d, i) % a == 0,
        chain_term(n, a, d, i) != 1,
        chain_term(n, a, d, i) != n - 1,
{
    let e = d * pow2(i);
    lemma_pow2_pos(i);
    assert(e >= 1) by (nonlinear_arith)
        requires
            e == d * pow2(i),
            d >= 1,
            pow2(i) >= 1,
    ;
    // a | a^e
    lemma_pow_adds(a, 1, (e - 1) as nat);
    lemma_pow1(a);
    lemma_pow_positive(a, (e - 1) as nat);
    lemma_mod_multiples_basic(pow(a, (e - 1) as nat), a);
    lemma_mul_is_commutative(pow(a, (e - 1) as nat), a);
    // and a | n, so a | (a^e mod n)
    lemma_fundamental_div_mod(n, a);
    lemma_mod_mod(pow(a, e), a, n / a);
    lemma_mul_is_commutative(a, n / a);
    assert(chain_term(n, a, d, i) % a == 0);
    lemma_small_mod(1, a as nat);
    // n − 1 ≡ −1 (mod a)
    let c = n / a;
    assert((c - 1) * a == c * a - a) by (nonlinear_arith);
    lemma_mul_is_commutative(c, a);
    lemma_fundamental_div_mod_converse(n - 1, a, c - 1, a - 1);
}

/// A composite n below 49 has a factor 2, 3 or 5 smaller than itself.
proof fn lemma_small_composite(n: int)
    requires
        2 <= n < 49,
        !is_prime_spec(n),
    ensures
        (n % 2 == 0 && 2 < n) || (n % 3 == 0 && 3 < n) || (n % 5 == 0 && 5 < n),
{
    let e = choose|e: int| 1 < e < n && #[trigger] (n % e) == 0;
    lemma_small_divisor(n, e);
    let k = choose|k: int| 2 <= k < n && #[trigger] (n % k) == 0 && k * k <= n;
    assert(k < 7) by (nonlinear_arith)
        requires
            k * k <= n,
            n < 49,
            k >= 2,
    ;
    if k == 4 {
        lemma_divides_transitive(n, 4, 2);
    } else if k == 6 {
        lemma_divides_transitive(n, 6, 2);
    }
}

/// Every number the Miller-Rabin test accepts is a prime, or has no prime factor up to 37.
pub proof fn lemma_miller_rabin_rejects_small_factors(n: int, p: int)
    requires
        passes_miller_rabin(n),
        is_prime_spec(p),
        n % p == 0,
        p <= 37,
    ensures
        is_prime_spec(n),
{
    if !is_prime_spec(n) {
        assert(n > 3) by {
            if n == 2 || n == 3 {
                assert forall|d: int| 1 < d < n implies #[trigger] (n % d) != 0 by {}
            }
        }
        if witness_bases().contains(n) {
            let j = choose|j: int| 0 <= j < witness_bases().len() && witness_bases()[j] == n;
            assert(n <= 37);
            lemma_small_composite(n);
            assert(n % 2 != 0 && n % 3 != 0);
            assert(n % 5 == 0 && 5 < n);
            assert(false);
        } else {
            assert(n % 5 != 0 && n % 7 != 0 && n % 11 != 0 && n % 13 != 0) by {
                if n % 5 == 0 || n % 7 == 0 || n % 11 == 0 || n % 13 == 0 {
                    assert(n <= 13);
                    assert(!witness_bases().contains(5)) by {
                        assert(witness_bases()[2] == 5);
                    }
                    assert(witness_bases()[2] == 5 && witness_bases()[3] == 7);
                    assert(witness_bases()[4] == 11 && witness_bases()[5] == 13);
                }
            }
            // p is one of 17, 19, 23, 29, 31, 37: a witness base below n
            assert(p > 1);
            assert(p % 2 != 0 || p == 2);
            assert(p % 3 != 0 || p == 3);
            assert(p % 5 != 0 || p == 5);
            assert(p != 2 && p != 3 && p != 5 && p != 7 && p != 11 && p != 13) by {
                if p == 2 || p == 3 || p == 5 || p == 7 || p == 11 || p == 13 {
                    assert(n % p == 0);
                }
            }
            let j = if p == 17 {
                6int
            } else if p == 19 {
                7int
            } else if p == 23 {
                8int
            } else if p == 29 {
                9int
            } else if p == 31 {
                10int
            } else {
                11int
            };
            assert(witness_bases()[j] == p);
            assert(p < n) by {
                lemma_mod_bound(n, p);
                if p > n {
                    lemma_small_mod(n as nat, p as nat);
                }
                if p == n {
                    assert(witness_bases().contains(n));
                }
            }
            assert(strong_probable_prime(n, witness_bases()[j]));
            let m = (n - 1) as nat;
            lemma_odd_decomposition(m);
            let d = odd_part(m);
            assert(d >= 1) by {
                if d == 0 {
                    lemma_mul_basics(pow2(two_adicity(m)) as int);
                }
            }
            lemma_chain_term_divisible(n, p, d, 0);
            assert forall|i: nat| i < two_adicity(m) implies #[trigger] chain_term(n, p, d, i) != n
                - 1 by {
                lemma_chain_term_divisible(n, p, d, i);
            }
        }
    }
}

/// Below 41² = 1681 the Miller-Rabin test accepts exactly the primes: a composite number there
/// has a prime factor up to 37.
pub proof fn lemma_miller_rabin_exact_below_1681(n: int)
    requires
        n < 1681,
    ensures
        passes_miller_rabin(n) <==> is_prime_spec(n),
{
    if is_prime_spec(n) {
        lemma_miller_rabin_accepts_primes(n);
    }
    if passes_miller_rabin(n) && !is_prime_spec(n) {
        assert(n >= 2);
        let e = choose|e: int| 1 < e < n && #[trigger] (n % e) == 0;
        lemma_small_divisor(n, e);
        let k = choose|k: int| 2 <= k < n && #[trigger] (n % k) == 0 && k * k <= n;
        assert(k <= 40) by (nonlinear_arith)
            requires
                k * k <= n,
                n < 1681,
                k >= 2,
        ;
        lemma_prime_divisor(k);
        let p = choose|p: int| #[trigger] is_prime_spec(p) && k % p == 0 && p <= k;
        lemma_divides_transitive(n, k, p);
        assert(p <= 37) by {
            if p == 38 || p == 40 {
                assert(p % 2 == 0 && 1 < 2 < p);
            } else if p == 39 {
                assert(p % 3 == 0 && 1 < 3 < p);
            }
        }
        lemma_miller_rabin_rejects_small_factors(n, p);
    }
}

/// The Miller-Rabin test accepts every prime.
pub proof fn lemma_miller_rabin_accepts_primes(n: int)
    requires
        is_prime_spec(n),
    ensures
        passes_miller_rabin(n),
{
    if n > 3 && !witness_bases().contains(n) {
        if n % 2 == 0 {
            assert(1 < 2 < n);
        }
        if n % 3 == 0 {
            assert(1 < 3 < n);
        }
        if n % 5 == 0 || n % 7 == 0 || n % 11 == 0 || n % 13 == 0 {
            if n % 5 == 0 {
                assert(n != 5 && 1 < 5 < n) by {
                    assert(witness_bases()[2] == 5);
                }
            } else if n % 7 == 0 {
                assert(n != 7 && 1 < 7 < n) by {
                    assert(witness_bases()[3] == 7);
                }
            } else if n % 11 == 0 {
                assert(n != 11 && 1 < 11 < n) by {
                    assert(witness_bases()[4] == 11);
                }
            } else {
                assert(n != 13 && 1 < 13 < n) by {
                    assert(witness_bases()[5] == 13);
                }
            }
        }
        assert forall|j: int| 0 <= j < 12 && #[trigger] witness_bases()[j] < n implies strong_probable_prime(
            n,
            witness_bases()[j],
        ) by {
            lemma_prime_is_strong_probable_prime(n, witness_bases()[j]);
        }
    }
}

/// A prime up to 37 is one of the witness bases.
proof fn lemma_small_prime_is_witness_base(a: int) -> (j: int)
    requires
        is_prime_spec(a),
        a <= 37,
    ensures
        0 <= j < 12,
        witness_bases()[j] == a,
{
    assert(a % 2 != 0 || a == 2);
    assert(a % 3 != 0 || a == 3);
    assert(a % 5 != 0 || a == 5);
    if a == 2 {
        0
    } else if a == 3 {
        1
    } else if a == 5 {
        2
    } else if a == 7 {
        3
    } else if a == 11 {
        4
    } else if a == 13 {
        5
    } else if a == 17 {
        6
    } else if a == 19 {
        7
    } else if a == 23 {
        8
    } else if a == 29 {
        9
    } else if a == 31 {
        10
    } else {
        11
    }
}

/// Law: every number that the Miller-Rabin test accepts is a strong probable prime to each
/// prime base a ≤ 37 below it, and so satisfies Fermat's congruence a^(n−1) ≡ 1 (mod n) for
/// each such base.
pub proof fn lemma_accepted_is_strong_probable_prime(n: int, a: int)
    requires
        passes_miller_rabin(n),
        is_prime_spec(a),
        a <= 37,
        a < n,
    ensures
        strong_probable_prime(n, a),
        pow(a, (n - 1) as nat) % n == 1,
{
    if is_prime_spec(n) {
        assert(n % 2 == 1) by {
            if n % 2 == 0 {
                assert(1 < 2 < n);
            }
        }
        lemma_prime_is_strong_probable_prime(n, a);
    } else {
        if n < 1681 {
            lemma_miller_rabin_exact_below_1681(n);
        }
        let j = lemma_small_prime_is_witness_base(a);
        assert(!witness_bases().contains(n)) by {
            if witness_bases().contains(n) {
                let k = choose|k: int| 0 <= k < witness_bases().len() && witness_bases()[k] == n;
                assert(witness_bases()[k] <= 37);
            }
        }
        assert(strong_probable_prime(n, witness_bases()[j]));
    }
    lemma_strong_probable_prime_fermat(n, a);
}

/// One Miller-Rabin round: is n a strong probable prime to base a, given n − 1 = d·2^s?
fn witness_passes(n: u64, a: u64, d: u64, s: u32) -> (r: bool)
    requires
        n >= 3,
        s >= 1,
        d == odd_part((n - 1) as nat),
        s == two_adicity((n - 1) as nat),
    ensures
        r == strong_probable_prime(n as int, a as int),
{
    let ghost ni = n as int;
    // x = a^d mod n
    let mut x = mod_pow_raw(a, d, n);
    proof {
        lemma2_to64();
        lemma_mul_basics(d as int);
        assert(chain_term(ni, a as int, d as nat, 0) == x);
    }
    if x == 1 || x == n - 1 {
        return true;
    }
    let mut i: u32 = 1;
    while i < s
        invariant
            ni == n,
            n >= 3,
            1 <= i <= s,
            s == two_adicity((n - 1) as nat),
            d == odd_part((n - 1) as nat),
            x == chain_term(ni, a as int, d as nat, (i - 1) as nat),
            chain_term(ni, a as int, d as nat, 0) != 1,
            forall|k: nat| k < i ==> #[trigger] chain_term(ni, a as int, d as nat, k) != n - 1,
        decreases s - i,
    {
        proof {
            lemma_chain_square(ni, a as int, d as nat, (i - 1) as nat);
            lemma_mod_bound(pow(a as int, (d as nat) * pow2((i - 1) as nat)), ni);
        }
        x = mod_mul_raw(x, x, n);
        if x == n - 1 {
            proof {
                assert(chain_term(ni, a as int, d as nat, i as nat) == n - 1);
            }
            return true;
        }
        i += 1;
    }
    false
}

/// The witness bases as machine integers.
fn witness_base(j: usize) -> (a: u64)
    requires
        j < 12,
    ensures
        a == witness_bases()[j as int],
{
    let bases: [u64; 12] = [2, 3, 5, 7, 11, 13, 17, 19, 23, 29, 31, 37];
    proof {
        assert(bases@ =~= seq![2u64, 3, 5, 7, 11, 13, 17, 19, 23, 29, 31, 37]);
    }
    bases[j]
}

/// What acceptance by the test is proved to imply: n is prime or has no prime factor up to 37,
/// and below 1681 acceptance is primality.
pub open spec fn what_acceptance_implies(n: int) -> bool {
    &&& passes_miller_rabin(n) ==> is_prime_spec(n) || forall|p: int|
        #[trigger] is_prime_spec(p) && n % p == 0 ==> p > 37
    &&& n < 1681 ==> (passes_miller_rabin(n) <==> is_prime_spec(n))
    &&& passes_miller_rabin(n) ==> forall|a: int|
        2 <= a <= 37 && #[trigger] is_prime_spec(a) && a < n ==> strong_probable_prime(n, a)
            && pow(a, (n - 1) as nat) % n == 1
}

/// Deterministic Miller-Rabin primality test for any n < 2^64.
///
/// Uses the 12 witness bases {2, 3, 5, 7, 11, 13, 17, 19, 23, 29, 31, 37}
/// which guarantee correctness for all n < 3.317×10²⁴ > 2^64.
///
/// That guarantee is the computer search of Sorenson and Webster ("Strong Pseudoprimes to
/// Twelve Prime Bases", 2015); it is not proved here. What the contract proves: the answer is
/// the test as specified, every prime is accepted, the answer is exact below 1681, and an
/// accepted composite has no prime factor up to 37.
pub fn is_prime(n: u64) -> (r: bool)
    ensures
        r == passes_miller_rabin(n as int),
        is_prime_spec(n as int) ==> r,
        r ==> is_prime_spec(n as int) || forall|p: int|
            #[trigger] is_prime_spec(p) && (n as int) % p == 0 ==> p > 37,
        n < 1681 ==> (r <==> is_prime_spec(n as int)),
        r ==> forall|a: int|
            2 <= a <= 37 && #[trigger] is_prime_spec(a) && a < n ==> strong_probable_prime(n as int, a),
        r ==> forall|a: int|
            2 <= a <= 37 && #[trigger] is_prime_spec(a) && a < n ==> pow(a, (n - 1) as nat) % (n as int)
                == 1,
{
    proof {
        if is_prime_spec(n as int) {
            lemma_miller_rabin_accepts_primes(n as int);
        }
        if n < 1681 {
            lemma_miller_rabin_exact_below_1681(n as int);
        }
        if passes_miller_rabin(n as int) && !is_prime_spec(n as int) {
            assert forall|p: int| #[trigger] is_prime_spec(p) && (n as int) % p == 0 implies p > 37 by {
                if p <= 37 {
                    lemma_miller_rabin_rejects_small_factors(n as int, p);
                }
            }
        }
        if passes_miller_rabin(n as int) {
            assert forall|a: int|
                2 <= a <= 37 && #[trigger] is_prime_spec(a) && a < n implies strong_probable_prime(n as int, a)
                    && pow(a, (n - 1) as nat) % (n as int) == 1 by {
                lemma_accepted_is_strong_probable_prime(n as int, a);
            }
        }
        assert(what_acceptance_implies(n as int));
    }
    if n < 2 {
        return false;
    }
    if n == 2 || n == 3 {
        return true;
    }
    if n.is_multiple_of(2) || n.is_multiple_of(3) {
        return false;
    }
    let mut j: usize = 0;
    while j < 12
        invariant
            j <= 12,
            forall|k: int| 0 <= k < j ==> #[trigger] witness_bases()[k] != n,
            what_acceptance_implies(n as int),
        decreases 12 - j,
    {
        if witness_base(j) == n {
            proof {
                assert(witness_bases().contains(n as int));
            }
            return true;
        }
        j += 1;
    }
    proof {
        assert(!witness_bases().contains(n as int));
    }
    if n.is_multiple_of(5) || n.is_multiple_of(7) || n.is_multiple_of(11) || n.is_multiple_of(13) {
        return n <= 13;
    }
    // Decompose n-1 = 2^s * d with d odd
    let mut d = n - 1;
    let mut s: u32 = 0;
    proof {
        lemma2_to64();
    }
    while d.is_multiple_of(2)
        invariant
            d >= 1,
            s < 64,
            what_acceptance_implies(n as int),
            odd_part(d as nat) == odd_part((n - 1) as nat),
            two_adicity((n - 1) as nat) == s + two_adicity(d as nat),
            d * pow2(s as nat) == n - 1,
        decreases d,
    {
        proof {
            lemma_pow2_unfold((s + 1) as nat);
            lemma_fundamental_div_mod(d as int, 2);
            lemma_mul_is_associative((d / 2) as int, 2, pow2(s as nat) as int);
            lemma_pow2_pos(s as nat);
            if s >= 63 {
                lemma_pow2_strictly_increases(63, (s + 1) as nat);
                lemma2_to64_rest();
                assert((d / 2) * pow2((s + 1) as nat) >= pow2((s + 1) as nat)) by (nonlinear_arith)
                    requires
                        d / 2 >= 1,
                        pow2((s + 1) as nat) > 0,
                ;
            }
        }
        d /= 2;
        s += 1;
    }
    proof {
        assert(s >= 1) by {
            if s == 0 {
                lemma2_to64();
            }
        }
    }
    // Miller-Rabin test with each witness base
    let mut j: usize = 0;
    while j < 12
        invariant
            j <= 12,
            n >= 3,
            what_acceptance_implies(n as int),
            s >= 1,
            n % 2 != 0 && n % 3 != 0 && n % 5 != 0 && n % 7 != 0 && n % 11 != 0 && n % 13 != 0,
            !witness_bases().contains(n as int),
            is_prime_spec(n as int) ==> passes_miller_rabin(n as int),
            d == odd_part((n - 1) as nat),
            s == two_adicity((n - 1) as nat),
            forall|k: int|
                0 <= k < j && #[trigger] witness_bases()[k] < n ==> strong_probable_prime(
                    n as int,
                    witness_bases()[k],
                ),
        decreases 12 - j,
    {
        let a = witness_base(j);
        if a < n && !witness_passes(n, a, d, s) {
            proof {
                assert(!strong_probable_prime(n as int, witness_bases()[j as int]));
            }
            return false;
        }
        j += 1;
    }
    true
}

/// The candidates k·2N + 1 for k from `k` up to `upper` that have exactly `bits` bits and
/// pass the primality test, in increasing order.
pub open spec fn friendly_primes_asc(two_n: int, bits: nat, k: int, upper: int) -> Seq<int>
    decreases upper + 1 - k,
{
    if k > upper {
        Seq::empty()
    } else {
        let c = k * two_n + 1;
        let rest = friendly_primes_asc(two_n, bits, k + 1, upper);
        if pow2((bits - 1) as nat) <= c < pow2(bits) && passes_miller_rabin(c) {
            seq![c] + rest
        } else {
            rest
        }
    }
}

/// The NTT-friendly primes of exactly `bits` bits for polynomial size N, smallest first:
/// k·2N + 1 for k from ⌊2^(bits−1) / 2N⌋ + 1 to ⌊2^bits / 2N⌋.
pub open spec fn friendly_primes_60(poly_degree: int, bits: nat) -> Seq<int> {
    let two_n = 2 * poly_degree;
    friendly_primes_asc(
        two_n,
        bits,
        pow2((bits - 1) as nat) as int / two_n + 1,
        pow2(bits) as int / two_n,
    )
}

/// The candidates found from k up are accepted by the primality test, ≡ 1 (mod 2N), of
/// exactly `bits` bits, at least k · 2N + 1, in strictly increasing order.
proof fn lemma_friendly_primes_asc(two_n: int, bits: nat, k: int, upper: int)
    requires
        two_n >= 1,
    ensures
        forall|i: int|
            0 <= i < friendly_primes_asc(two_n, bits, k, upper).len() ==> {
                let p = #[trigger] friendly_primes_asc(two_n, bits, k, upper)[i];
                &&& passes_miller_rabin(p)
                &&& (p - 1) % two_n == 0
                &&& pow2((bits - 1) as nat) <= p < pow2(bits)
                &&& p >= k * two_n + 1
            },
        forall|i: int, j: int|
            0 <= i < j < friendly_primes_asc(two_n, bits, k, upper).len() ==> friendly_primes_asc(
                two_n,
                bits,
                k,
                upper,
            )[i] < friendly_primes_asc(two_n, bits, k, upper)[j],
    decreases upper + 1 - k,
{
    if k <= upper {
        lemma_friendly_primes_asc(two_n, bits, k + 1, upper);
        let c = k * two_n + 1;
        let rest = friendly_primes_asc(two_n, bits, k + 1, upper);
        let s = friendly_primes_asc(two_n, bits, k, upper);
        assert((k + 1) * two_n + 1 > c) by (nonlinear_arith)
            requires
                two_n >= 1,
                c == k * two_n + 1,
        ;
        assert(c - 1 == k * two_n);
        assert((c - 1) % two_n == 0) by {
            lemma_mod_multiples_basic(k, two_n);
        }
        let keep = pow2((bits - 1) as nat) <= c < pow2(bits) && passes_miller_rabin(c);
        assert forall|i: int| 0 <= i < s.len() implies {
            let p = #[trigger] s[i];
            &&& passes_miller_rabin(p)
            &&& (p - 1) % two_n == 0
            &&& pow2((bits - 1) as nat) <= p < pow2(bits)
            &&& p >= k * two_n + 1
        } by {
            if keep && i > 0 {
                assert(s[i] == rest[i - 1]);
            }
        }
        assert forall|i: int, j: int| 0 <= i < j < s.len() implies s[i] < s[j] by {
            if keep {
                assert(s[j] == rest[j - 1]);
                if i > 0 {
                    assert(s[i] == rest[i - 1]);
                }
            }
        }
    }
}

/// Law: `generate_primes_60` gives distinct numbers of exactly `bits` bits, each ≡ 1 (mod 2N)
/// and accepted by the primality test, smallest first.
pub proof fn lemma_generated_primes_60(poly_degree: int, bits: nat, count: int)
    requires
        poly_degree >= 1,
        0 <= count <= friendly_primes_60(poly_degree, bits).len(),
    ensures
        forall|i: int|
            0 <= i < count ==> {
                let p = #[trigger] friendly_primes_60(poly_degree, bits)[i];
                &&& passes_miller_rabin(p)
                &&& (p - 1) % (2 * poly_degree) == 0
                &&& pow2((bits - 1) as nat) <= p < pow2(bits)
            },
        forall|i: int, j: int|
            0 <= i < j < count ==> friendly_primes_60(poly_degree, bits)[i] < friendly_primes_60(
                poly_degree,
                bits,
            )[j],
{
    let two_n = 2 * poly_degree;
    lemma_friendly_primes_asc(
        two_n,
        bits,
        pow2((bits - 1) as nat) as int / two_n + 1,
        pow2(bits) as int / two_n,
    );
}

/// Generates NTT-friendly primes of the form `k·2N + 1`.
///
/// An NTT-friendly prime q for polynomial degree N satisfies `2N | (q−1)`,
/// guaranteeing the existence of 2N-th roots of unity in Z_q*.
///
/// # Arguments
/// * `poly_degree` — N, the cyclotomic polynomial degree (must be a power of 2)
/// * `bit_size` — desired bit-length for each prime (in [2, 62])
/// * `count` — number of primes to generate
///
/// # Returns
/// The first `count` such primes with exactly `bit_size` bits, smallest first.
pub fn generate_primes_60(poly_degree: usize, bit_size: usize, count: usize) -> (primes: Vec<u64>)
    requires
        is_power_of_two(poly_degree as int),
        2 * poly_degree <= usize::MAX,
        2 <= bit_size <= 62,
        count <= friendly_primes_60(poly_degree as int, bit_size as nat).len(),
    ensures
        primes@.map_values(|p: u64| p as int) == friendly_primes_60(
            poly_degree as int,
            bit_size as nat,
        ).take(count as int),
{
    let ghost all = friendly_primes_60(poly_degree as int, bit_size as nat);
    proof {
        lemma_pow2_pos(0);
        if poly_degree == 0 {
            let k = choose|k: nat| #[trigger] pow2(k) == poly_degree as int;
            lemma_pow2_pos(k);
        }
    }
    let two_n = (2 * poly_degree) as u64;
    let b = bit_size as u64;
    proof {
        lemma_pow2_strictly_increases(b as nat, 63);
        lemma_pow2_strictly_increases((b - 1) as nat, b as nat);
        lemma2_to64();
        lemma2_to64_rest();
        lemma_u64_shl_is_mul(1, (b - 1) as u64);
        lemma_u64_shl_is_mul(1, b);
    }
    // lo_bound = 2^(bit_size − 1), hi_bound = 2^bit_size
    let lo_bound = 1u64 << (b - 1);
    let hi_bound = 1u64 << b;
    let lower = lo_bound / two_n + 1;
    let upper = hi_bound / two_n;
    let mut primes: Vec<u64> = Vec::with_capacity(count);
    let mut k = lower;
    proof {
        lemma_div_is_ordered_by_denominator(hi_bound as int, 1, two_n as int);
    }
    while k <= upper
        invariant
            two_n == 2 * poly_degree,
            two_n >= 2,
            lo_bound == pow2((b - 1) as nat),
            hi_bound == pow2(b as nat),
            b == bit_size,
            hi_bound < 0x8000_0000_0000_0000,
            upper == hi_bound / two_n,
            upper <= hi_bound,
            lower <= k,
            all == friendly_primes_60(poly_degree as int, bit_size as nat),
            all == primes@.map_values(|p: u64| p as int) + friendly_primes_asc(
                two_n as int,
                bit_size as nat,
                k as int,
                upper as int,
            ),
            primes@.len() <= count,
            count <= all.len(),
        decreases upper + 1 - k,
    {
        if primes.len() == count {
            proof {
                assert(all.take(count as int) =~= primes@.map_values(|p: u64| p as int));
            }
            return primes;
        }
        proof {
            assert(k * two_n <= upper * two_n) by (nonlinear_arith)
                requires
                    k <= upper,
                    two_n >= 0,
            ;
            lemma_fundamental_div_mod(hi_bound as int, two_n as int);
            lemma_mul_is_commutative(upper as int, two_n as int);
        }
        let q = k * two_n + 1;
        let ghost before = primes@.map_values(|p: u64| p as int);
        proof {
            assert(friendly_primes_asc(two_n as int, bit_size as nat, k as int, upper as int)
                == (if pow2((b - 1) as nat) <= q < pow2(b as nat) && passes_miller_rabin(q as int) {
                seq![q as int] + friendly_primes_asc(two_n as int, bit_size as nat, k + 1, upper as int)
            } else {
                friendly_primes_asc(two_n as int, bit_size as nat, k + 1, upper as int)
            }));
        }
        // q must have exactly bit_size bits
        if q >= lo_bound && q < hi_bound && is_prime(q) {
            primes.push(q);
            proof {
                assert(primes@.map_values(|p: u64| p as int) =~= before + seq![q as int]);
            }
        }
        proof {
            assert(all =~= primes@.map_values(|p: u64| p as int) + friendly_primes_asc(
                two_n as int,
                bit_size as nat,
                k + 1,
                upper as int,
            ));
        }
        k += 1;
    }
    proof {
        assert(friendly_primes_asc(two_n as int, bit_size as nat, k as int, upper as int)
            =~= Seq::<int>::empty());
        assert(all =~= primes@.map_values(|p: u64| p as int));
        assert(all.take(count as int) =~= primes@.map_values(|p: u64| p as int));
    }
    primes
}

/// What remains after trial division up to d (with d² > n) is 1 or one last prime, and
/// completes the list of prime divisors.
proof fn lemma_last_factor(fb: Seq<u64>, n: u64, n0: int, d: int)
    requires
        n >= 1,
        n0 >= 1,
        n0 % (n as int) == 0,
        d >= 3,
        d * d > n,
        forall|i: int|
            0 <= i < fb.len() ==> #[trigger] is_prime_spec(fb[i] as int) && n0 % (fb[i] as int) == 0
                && fb[i] < d,
        forall|i: int, j: int| 0 <= i < j < fb.len() ==> fb[i] < fb[j],
        forall|p: int|
            #[trigger] is_prime_spec(p) && p < d && n0 % p == 0 ==> exists|i: int|
                0 <= i < fb.len() && #[trigger] fb[i] as int == p,
        forall|p: int| #[trigger] is_prime_spec(p) && p < d ==> (n as int) % p != 0,
        forall|p: int| #[trigger] is_prime_spec(p) && p >= d && n0 % p == 0 ==> (n as int) % p == 0,
    ensures
        is_prime_factor_list(
            (if n > 1 {
                fb.push(n)
            } else {
                fb
            }).map_values(|x: u64| x as int),
            n0,
        ),
{
    let out = if n > 1 {
        fb.push(n)
    } else {
        fb
    };
    let f = out.map_values(|x: u64| x as int);
    if n > 1 {
        // n has no prime factor below d and d^2 > n, so n is prime
        assert(is_prime_spec(n as int)) by {
            if !is_prime_spec(n as int) {
                let e = choose|e: int| 1 < e < n && #[trigger] ((n as int) % e) == 0;
                lemma_small_divisor(n as int, e);
                let k = choose|k: int| 2 <= k < n && #[trigger] ((n as int) % k) == 0 && k * k <= n;
                lemma_prime_divisor(k);
                let p = choose|p: int| #[trigger] is_prime_spec(p) && k % p == 0 && p <= k;
                lemma_divides_transitive(n as int, k, p);
                assert(k < d) by (nonlinear_arith)
                    requires
                        k * k <= n,
                        d * d > n,
                        k >= 2,
                        d >= 3,
                ;
            }
        }
        assert(n >= d);
    }
    assert forall|p: int| #[trigger] is_prime_spec(p) && n0 % p == 0 implies f.contains(p) by {
        if p >= d {
            assert((n as int) % p == 0);
            assert(n > 1) by {
                if n == 1 {
                    lemma_small_mod(1, p as nat);
                }
            }
            // n is prime and p | n, so p == n
            assert(p <= n) by {
                if p > n {
                    lemma_small_mod(n as nat, p as nat);
                }
            }
            if p < n {
                assert(1 < p < n);
            }
            assert(f[f.len() - 1] == p);
        } else {
            let i = choose|i: int| 0 <= i < fb.len() && #[trigger] fb[i] as int == p;
            assert(out[i] == fb[i]);
            assert(f[i] == p);
        }
    }
    assert forall|i: int| 0 <= i < f.len() implies #[trigger] is_prime_spec(f[i]) && n0 % f[i] == 0 by {
        assert(f[i] == out[i] as int);
        if i < fb.len() {
            assert(out[i] == fb[i]);
            assert(is_prime_spec(fb[i] as int));
        } else {
            lemma_mod_self_0(n as int);
            lemma_divides_transitive(n0, n as int, n as int);
        }
    }
    assert forall|i: int, j: int| 0 <= i < j < f.len() implies f[i] < f[j] by {
        assert(out[i] == fb[i]);
        assert(is_prime_spec(fb[i] as int));
        if j < fb.len() {
            assert(out[j] == fb[j]);
        }
    }
}

/// Trial-division factorization: the distinct prime factors of `n`.
#[verifier::spinoff_prover]
fn small_factor(n: u64) -> (factors: Vec<u64>)
    requires
        n >= 1,
    ensures
        is_prime_factor_list(factors@.map_values(|x: u64| x as int), n as int),
{
    let ghost n0 = n as int;
    let mut n = n;
    assert(n0 >= 1);
    let mut factors: Vec<u64> = Vec::new();
    if n.is_multiple_of(2) {
        factors.push(2);
        while n.is_multiple_of(2)
            invariant
                n >= 1,
                n0 >= 1,
                n0 % 2 == 0,
                n0 % (n as int) == 0,
                factors@ == seq![2u64],
                forall|p: int| #[trigger] is_prime_spec(p) && p != 2 && n0 % p == 0 ==> (n as int) % p == 0,
            decreases n,
        {
            proof {
                lemma_fundamental_div_mod(n as int, 2);
                let ghost m = n as int / 2;
                assert forall|p: int| #[trigger] is_prime_spec(p) && p != 2 && n0 % p == 0 implies m % p
                    == 0 by {
                    assert(is_prime_spec(2)) by {
                        assert forall|d: int| 1 < d < 2 implies #[trigger] (2int % d) != 0 by {}
                    }
                    lemma_other_prime_survives(n as int, 2, p);
                }
                assert(n as int == 2 * m);
                assert(m >= 1);
                assert(n0 % m == 0) by {
                    lemma_mod_multiples_basic(2, m);
                    lemma_divides_transitive(n0, n as int, m);
                }
            }
            n /= 2;
        }
    }
    proof {
        assert(is_prime_spec(2)) by {
            assert forall|d: int| 1 < d < 2 implies #[trigger] (2int % d) != 0 by {}
        }
        if n0 % 2 == 0 {
            assert(factors@[0] as int == 2);
        }
    }
    let mut d = 3u64;
    while (d as u128) * (d as u128) <= n as u128
        invariant
            3 <= d <= 0x1_0000_0001,
            d * d <= 0x1_0000_0001 * 0x1_0000_0001,
            d % 2 == 1,
            n >= 1,
            n0 >= 1,
            n0 % (n as int) == 0,
            is_prime_spec(2),
            forall|i: int|
                0 <= i < factors@.len() ==> #[trigger] is_prime_spec(factors@[i] as int) && n0
                    % (factors@[i] as int) == 0 && factors@[i] < d,
            forall|i: int, j: int| 0 <= i < j < factors@.len() ==> factors@[i] < factors@[j],
            forall|p: int|
                #[trigger] is_prime_spec(p) && p < d && n0 % p == 0 ==> exists|i: int|
                    0 <= i < factors@.len() && #[trigger] factors@[i] as int == p,
            forall|p: int| #[trigger] is_prime_spec(p) && p < d ==> (n as int) % p != 0,
            forall|p: int| #[trigger] is_prime_spec(p) && p >= d && n0 % p == 0 ==> (n as int) % p == 0,
        decreases 0x1_0000_0001 - d,
    {
        proof {
            assert(d < 0x1_0000_0000) by (nonlinear_arith)
                requires
                    d * d <= n,
                    n <= 0xffff_ffff_ffff_ffff,
                    d >= 3,
            ;
        }
        let ghost fl = factors@;
        if n.is_multiple_of(d) {
            proof {
                // d is prime: a smaller prime divisor would divide n
                assert(is_prime_spec(d as int)) by {
                    if !is_prime_spec(d as int) {
                        let e = choose|e: int| 1 < e < d && #[trigger] ((d as int) % e) == 0;
                        lemma_prime_divisor(e);
                        let p = choose|p: int| #[trigger] is_prime_spec(p) && e % p == 0 && p <= e;
                        lemma_divides_transitive(d as int, e, p);
                        lemma_divides_transitive(n as int, d as int, p);
                    }
                }
            }
            factors.push(d);
            let ghost fs = factors@;
            proof {
                assert forall|i: int, j: int| 0 <= i < j < factors@.len() implies factors@[i]
                    < factors@[j] by {
                    assert(factors@[i] == fl[i]);
                    assert(is_prime_spec(fl[i] as int) && fl[i] < d);
                    if j < fl.len() {
                        assert(factors@[j] == fl[j]);
                    }
                }
                assert forall|i: int| 0 <= i < factors@.len() implies #[trigger] is_prime_spec(
                    factors@[i] as int,
                ) && n0 % (factors@[i] as int) == 0 && factors@[i] < d + 2 by {
                    if i < fl.len() {
                        assert(factors@[i] == fl[i]);
                        assert(is_prime_spec(fl[i] as int) && n0 % (fl[i] as int) == 0 && fl[i] < d);
                    } else {
                        assert(factors@[i] == d);
                        lemma_divides_transitive(n0, n as int, d as int);
                    }
                }
                assert(n0 % (d as int) == 0) by {
                    lemma_divides_transitive(n0, n as int, d as int);
                }
                assert forall|p: int| #[trigger] is_prime_spec(p) && p < d + 2 && n0 % p == 0 implies exists|i: int|
                    0 <= i < factors@.len() && #[trigger] factors@[i] as int == p by {
                    if p < d {
                        let i = choose|i: int| 0 <= i < fl.len() && #[trigger] fl[i] as int == p;
                        assert(factors@[i] as int == p);
                    } else if p == d {
                        assert(factors@[fl.len() as int] as int == p);
                    } else {
                        assert(p == d + 1);
                        assert(p % 2 == 0);
                        assert(1 < 2 < p);
                    }
                }
            }
            while n.is_multiple_of(d)
                invariant
                    n >= 1,
                    n0 >= 1,
                    3 <= d,
                    factors@ == fs,
                    is_prime_spec(d as int),
                    n0 % (n as int) == 0,
                    forall|p: int| #[trigger] is_prime_spec(p) && p < d ==> (n as int) % p != 0,
                    forall|p: int|
                        #[trigger] is_prime_spec(p) && p > d && n0 % p == 0 ==> (n as int) % p == 0,
                decreases n,
            {
                proof {
                    lemma_fundamental_div_mod(n as int, d as int);
                    let ghost m = n as int / d as int;
                    if n < d {
                        lemma_small_mod(n as nat, d as nat);
                    }
                    lemma_div_pos_is_pos(n as int, d as int);
                    assert(n as int == d * m);
                    assert(m >= 1) by (nonlinear_arith)
                        requires
                            n == d * m,
                            n >= 1,
                            m >= 0,
                    ;
                    assert(m < n) by (nonlinear_arith)
                        requires
                            n == d * m,
                            d >= 3,
                            n >= 1,
                    ;
                    assert forall|p: int| #[trigger] is_prime_spec(p) && p > d && n0 % p == 0 implies m
                        % p == 0 by {
                        lemma_other_prime_survives(n as int, d as int, p);
                    }
                    assert forall|p: int| #[trigger] is_prime_spec(p) && p < d implies m % p != 0 by {
                        lemma_mod_multiples_basic(d as int, m);
                        if m % p == 0 {
                            lemma_divides_transitive(n as int, m, p);
                        }
                    }
                    assert(n0 % m == 0) by {
                        lemma_mod_multiples_basic(d as int, m);
                        lemma_divides_transitive(n0, n as int, m);
                    }
                }
                n /= d;
            }
        } else {
            proof {
                assert forall|p: int| #[trigger] is_prime_spec(p) && p < d + 2 && n0 % p == 0 implies exists|i: int|
                    0 <= i < factors@.len() && #[trigger] factors@[i] as int == p by {
                    if p == d {
                        lemma_divides_transitive(n0, n as int, p);
                        assert(false) by {
                            // p >= d and p | n0 give p | n, but n % d != 0
                        }
                    } else if p == d + 1 {
                        assert(p % 2 == 0);
                        assert(1 < 2 < p);
                    }
                }
            }
        }
        proof {
            assert forall|p: int| #[trigger] is_prime_spec(p) && p < d + 2 implies (n as int) % p != 0 by {
                if p == d + 1 {
                    assert(p % 2 == 0);
                    assert(1 < 2 < p);
                }
            }
        }
        d += 2;
        proof {
            assert(d * d <= 0x1_0000_0001 * 0x1_0000_0001) by (nonlinear_arith)
                requires
                    3 <= d <= 0x1_0000_0001,
            ;
        }
    }
    let ghost fb = factors@;
    proof {
        assert forall|i: int| 0 <= i < fb.len() implies #[trigger] is_prime_spec(fb[i] as int) && n0 % (
        fb[i] as int) == 0 && fb[i] < d by {
            assert(is_prime_spec(factors@[i] as int));
        }
        lemma_last_factor(fb, n, n0, d as int);
    }
    if n > 1 {
        factors.push(n);
    }
    factors
}

/// Whether g passes the generator test for every prime in `prime_factors`.
fn passes_generator_test(g: u64, q: u64, prime_factors: &[u64]) -> (ok: bool)
    requires
        2 <= g < q,
        is_prime_factor_list(prime_factors@.map_values(|x: u64| x as int), q - 1),
    ensures
        ok == is_generator(g as int, q as int),
{
    let q_minus_1 = q - 1;
    let ghost f = prime_factors@.map_values(|x: u64| x as int);
    let mut j: usize = 0;
    while j < prime_factors.len()
        invariant
            2 <= g < q,
            q_minus_1 == q - 1,
            f == prime_factors@.map_values(|x: u64| x as int),
            is_prime_factor_list(f, q - 1),
            0 <= j <= prime_factors@.len(),
            forall|k: int|
                0 <= k < j ==> pow(g as int, ((q - 1) / (#[trigger] prime_factors@[k] as int)) as nat)
                    % (q as int) != 1,
        decreases prime_factors@.len() - j,
    {
        let p = prime_factors[j];
        proof {
            assert(f[j as int] == p as int);
            assert(0 <= j < f.len());
            assert(is_prime_spec(f[j as int]));
            assert((q - 1) % f[j as int] == 0);
            assert(p <= q - 1) by {
                if p > q - 1 {
                    lemma_small_mod((q - 1) as nat, p as nat);
                }
            }
            lemma_div_pos_is_pos((q - 1) as int, p as int);
            lemma_div_is_ordered(p as int, (q - 1) as int, p as int);
            lemma_div_by_self(p as int);
        }
        let exp = q_minus_1 / p;
        if mod_pow_raw(g, exp, q) == 1 {
            return false;
        }
        j += 1;
    }
    proof {
        assert forall|p: int| #[trigger] is_prime_spec(p) && (q - 1) % p == 0 implies pow(
            g as int,
            ((q - 1) / p) as nat,
        ) % (q as int) != 1 by {
            assert(f.contains(p));
            let k = choose|k: int| 0 <= k < f.len() && f[k] == p;
            assert(prime_factors@[k] as int == p);
        }
    }
    true
}

/// Finds the least generator of Z_q* by trial: the first g in [2, q) with
/// `g^((q-1)/p) ≠ 1` for every prime factor p of q-1, or `None` when there is none.
fn find_generator(q: u64, prime_factors: &[u64]) -> (g: Option<u64>)
    requires
        q >= 2,
        is_prime_factor_list(prime_factors@.map_values(|x: u64| x as int), q - 1),
    ensures
        match g {
            Some(g) => is_least_generator(g as int, q as int),
            None => !has_generator(q as int),
        },
{
    let mut g: u64 = 2;
    while g < q
        invariant
            2 <= g,
            q >= 2,
            g <= q || q == 2,
            is_prime_factor_list(prime_factors@.map_values(|x: u64| x as int), q - 1),
            forall|h: int| 2 <= h < g ==> !#[trigger] is_generator(h, q as int),
        decreases q - g,
    {
        if passes_generator_test(g, q, prime_factors) {
            return Some(g);
        }
        g += 1;
    }
    proof {
        assert forall|h: int| !#[trigger] is_generator(h, q as int) by {
            if 2 <= h < q {
                assert(h < g);
            }
        }
    }
    None
}

/// The root search, reporting `None` when Z_q* has no generator.
pub(crate) fn try_primitive_root(n: usize, q: u64) -> (psi: Option<u64>)
    requires
        n >= 1,
        2 * n <= u64::MAX,
        q >= 2,
        (q - 1) % (2 * n as int) == 0,
    ensures
        match psi {
            Some(psi) => has_generator(q as int) && psi == negacyclic_root(n as int, q as int),
            None => !has_generator(q as int),
        },
{
    let two_n = 2 * n as u64;
    let q_minus_1 = q - 1;
    let prime_factors = small_factor(q_minus_1);
    match find_generator(q, &prime_factors) {
        None => None,
        Some(g) => {
            let exp = q_minus_1 / two_n;
            let psi = mod_pow_raw(g, exp, q);
            proof {
                lemma_least_generator_unique(g as int, q as int);
                if exp == 0 {
                    lemma_pow0(g as int);
                    lemma_small_mod(1, q as nat);
                }
            }
            Some(psi)
        },
    }
}

/// Finds a primitive 2N-th root of unity modulo q.
///
/// Returns ψ such that:
/// - `ψ^(2N) ≡ 1 (mod q)`
/// - `ψ^N ≡ -1 (mod q)`, i.e. `ψ^N ≡ q - 1`
///
/// # Algorithm
/// 1. Factorize q - 1
/// 2. Find a generator g of Z_q* by trial
/// 3. Compute ψ = g^((q-1)/(2N))
pub fn find_primitive_root(n: usize, q: u64) -> (psi: u64)
    requires
        n >= 1,
        2 * n <= u64::MAX,
        q >= 2,
        (q - 1) % (2 * n as int) == 0,
        has_generator(q as int),
    ensures
        psi == negacyclic_root(n as int, q as int),
        psi < q,
        is_prime_spec(q as int) ==> psi > 0 && pow(psi as int, n as nat) % (q as int) == q - 1 && pow(
            psi as int,
            2 * n as nat,
        ) % (q as int) == 1,
{
    match try_primitive_root(n, q) {
        Some(psi) => {
            proof {
                let g = least_generator(q as int);
                lemma_mod_bound(pow(g, ((q - 1) / (2 * n as int)) as nat), q as int);
                if is_prime_spec(q as int) {
                    lemma_negacyclic_root(n as nat, q as int);
                }
            }
            psi
        },
        None => {
            proof {
                assert(false);
            }
            0
        },
    }
}

} // verus!
