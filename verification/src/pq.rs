//! Ready-made NTT engines for NIST post-quantum standards.
//!
//! ML-DSA (FIPS 204) uses N = 256 and q = 8380417 at every security level.
//!
//! ML-KEM uses q = 3329 with N = 256, but its NTT is an incomplete NTT (size 128 over
//! coefficient pairs): q − 1 = 3328 = 2⁸·13 has a 256th root of unity but no 512th, so it is
//! not offered here.

use vstd::prelude::*;
use crate::algebra::negacyclic::negacyclic_mod;
use vstd::arithmetic::div_mod::*;
use vstd::arithmetic::power::*;
use vstd::arithmetic::power2::*;
use crate::algebra::cyclic::lemma_pocklington_power_of_two;
use crate::algebra::primes::is_prime;
use crate::algebra::transform::{forward_spec, inverse_spec};
use crate::ntt32::context::{all_below32, ints32, Ntt32Context};

verus! {

/// NIST post-quantum cryptographic scheme.
///
/// Each variant fully specifies the NTT parameters (N, q) for a given
/// standard, eliminating the risk of misconfiguration.
#[derive(Debug, Clone, Copy, PartialEq, Eq, Hash, Structural)]
pub enum PqScheme {
    /// ML-DSA-44 — NIST Level 2 (128-bit classical security)
    ///
    /// (k,l) = (4,4), N=256, q=8380417.
    MlDsa44,
    /// ML-DSA-65 — NIST Level 3 (192-bit classical security)
    ///
    /// (k,l) = (6,5), N=256, q=8380417.
    MlDsa65,
    /// ML-DSA-87 — NIST Level 5 (256-bit classical security)
    ///
    /// (k,l) = (8,7), N=256, q=8380417.
    MlDsa87,
}

/// The name of a scheme.
pub open spec fn scheme_name(s: PqScheme) -> Seq<char> {
    match s {
        PqScheme::MlDsa44 => "ML-DSA-44"@,
        PqScheme::MlDsa65 => "ML-DSA-65"@,
        PqScheme::MlDsa87 => "ML-DSA-87"@,
    }
}

/// The NIST security level of a scheme.
pub open spec fn scheme_level(s: PqScheme) -> u8 {
    match s {
        PqScheme::MlDsa44 => 2,
        PqScheme::MlDsa65 => 3,
        PqScheme::MlDsa87 => 5,
    }
}

impl PqScheme {
    /// Returns the polynomial degree N for this scheme.
    pub fn n(self) -> (r: usize)
        ensures
            r == 256,
    {
        match self {
            PqScheme::MlDsa44 | PqScheme::MlDsa65 | PqScheme::MlDsa87 => 256,
        }
    }

    /// Returns the prime modulus q for this scheme.
    pub fn q(self) -> (r: u32)
        ensures
            r == 8380417,
    {
        match self {
            PqScheme::MlDsa44 | PqScheme::MlDsa65 | PqScheme::MlDsa87 => 8380417,
        }
    }

    /// Returns the module rank k (number of polynomials).
    pub fn k(self) -> (r: usize)
        ensures
            self == PqScheme::MlDsa44 ==> r == 4,
            self == PqScheme::MlDsa65 ==> r == 6,
            self == PqScheme::MlDsa87 ==> r == 8,
    {
        match self {
            PqScheme::MlDsa44 => 4,
            PqScheme::MlDsa65 => 6,
            PqScheme::MlDsa87 => 8,
        }
    }

    /// Returns the NIST security level (1–5).
    pub fn security_level(self) -> (r: u8)
        ensures
            r == scheme_level(self),
    {
        match self {
            PqScheme::MlDsa44 => 2,
            PqScheme::MlDsa65 => 3,
            PqScheme::MlDsa87 => 5,
        }
    }

    /// Returns a human-readable name for this scheme.
    pub fn name(self) -> (r: &'static str)
        ensures
            r@ == scheme_name(self),
    {
        match self {
            PqScheme::MlDsa44 => "ML-DSA-44",
            PqScheme::MlDsa65 => "ML-DSA-65",
            PqScheme::MlDsa87 => "ML-DSA-87",
        }
    }

    /// Returns the NIST FIPS standard number.
    pub fn fips(self) -> (r: &'static str)
        ensures
            r@ == "FIPS 204"@,
    {
        match self {
            PqScheme::MlDsa44 | PqScheme::MlDsa65 | PqScheme::MlDsa87 => "FIPS 204",
        }
    }
}

/// a^e ≡ v gives a^(2e) ≡ v² (mod 8380417).
proof fn lemma_pow_step_square(a: int, e: nat, v: int)
    requires
        pow(a, e) % 8380417 == v,
    ensures
        pow(a, 2 * e) % 8380417 == (v * v) % 8380417,
{
    lemma_pow_adds(a, e, e);
    assert(e + e == 2 * e);
    lemma_mul_mod_noop(pow(a, e), pow(a, e), 8380417);
}

/// a^e ≡ v gives a^(e+1) ≡ v · a (mod 8380417).
proof fn lemma_pow_step_times_base(a: int, e: nat, v: int)
    requires
        pow(a, e) % 8380417 == v,
    ensures
        pow(a, e + 1) % 8380417 == (v * a) % 8380417,
{
    lemma_pow_adds(a, e, 1);
    lemma_pow1(a);
    lemma_mul_mod_noop_left(pow(a, e), a, 8380417);
}

/// 8380417 = 2^13 · 1023 + 1 is prime: 5^((q−1)/2) ≡ −1 (mod q), computed by repeated squaring,
/// and 4^13 > q, so Pocklington's criterion applies.
pub proof fn lemma_ml_dsa_modulus_is_prime()
    ensures
        is_prime(8380417),
{
    lemma_pow1(5);
    lemma_small_mod(5, 8380417);
        lemma_pow_step_square(5, 1, 5);
        lemma_pow_step_times_base(5, 2, 25);
        lemma_pow_step_square(5, 3, 125);
        lemma_pow_step_times_base(5, 6, 15625);
        lemma_pow_step_square(5, 7, 78125);
        lemma_pow_step_times_base(5, 14, 2572049);
        lemma_pow_step_square(5, 15, 4479828);
        lemma_pow_step_times_base(5, 30, 6146340);
        lemma_pow_step_square(5, 31, 5590449);
        lemma_pow_step_times_base(5, 62, 5762250);
        lemma_pow_step_square(5, 63, 3669999);
        lemma_pow_step_times_base(5, 126, 3783439);
        lemma_pow_step_square(5, 127, 2156361);
        lemma_pow_step_times_base(5, 254, 1629037);
        lemma_pow_step_square(5, 255, 8145185);
        lemma_pow_step_times_base(5, 510, 6580790);
        lemma_pow_step_square(5, 511, 7762699);
        lemma_pow_step_times_base(5, 1022, 6761097);
        lemma_pow_step_square(5, 1023, 283817);
        lemma_pow_step_square(5, 2046, 7901702);
        lemma_pow_step_square(5, 4092, 5548360);
        lemma_pow_step_square(5, 8184, 1718063);
        lemma_pow_step_square(5, 16368, 6757063);
        lemma_pow_step_square(5, 32736, 5801164);
        lemma_pow_step_square(5, 65472, 3415069);
        lemma_pow_step_square(5, 130944, 5152541);
        lemma_pow_step_square(5, 261888, 3764867);
        lemma_pow_step_square(5, 523776, 5234739);
        lemma_pow_step_square(5, 1047552, 3761513);
        lemma_pow_step_square(5, 2095104, 3572223);
    assert(pow(5, 4190208) % 8380417 == 8380416);
    lemma2_to64();
    lemma_pow2(13);
    lemma_pocklington_power_of_two(8380417, 13, 1023, 5);
}


/// The text `t` occurs in `s`.
pub open spec fn contains_text(s: Seq<char>, t: Seq<char>) -> bool {
    exists|i: int| 0 <= i && i + t.len() <= s.len() && #[trigger] s.subrange(i, i + t.len()) == t
}

/// The text that std's `format!` writes for a `PqNtt` with these fields: the name and the FIPS
/// number with `Debug` for `str` (quoted and escaped), the numbers in decimal.
pub uninterp spec fn debug_text_of(name: Seq<char>, n: usize, q: u32, security_level: u8, fips: Seq<char>) -> Seq<char>;

/// A character that `Debug` for `str` writes as itself: an ASCII letter or digit, a space or a
/// hyphen.
pub open spec fn plain_char(c: char) -> bool {
    let u = c as u32;
    (0x61 <= u && u <= 0x7a) || (0x41 <= u && u <= 0x5a) || (0x30 <= u && u <= 0x39) || u == 0x20
        || u == 0x2d
}

/// Every character of the text is plain.
pub open spec fn plain_text(s: Seq<char>) -> bool {
    forall|i: int| 0 <= i < s.len() ==> plain_char(#[trigger] s[i])
}

/// Debug text of a `PqNtt`, by `format!` from std.
///
/// The result is `debug_text_of` the arguments. `Debug` for `str` writes a text between quotes
/// and escapes quotes, backslashes and control characters, so a name made of plain characters
/// appears in the result as it is; that is all that is claimed of the text beyond its name.
#[verifier::external_body]
fn debug_text(name: &str, n: usize, q: u32, security_level: u8, fips: &str) -> (r: String)
    ensures
        r@ == debug_text_of(name@, n, q, security_level, fips@),
        plain_text(name@) ==> contains_text(r@, name@),
        plain_text(fips@) ==> contains_text(r@, fips@),
{
    format!(
        "PqNtt {{ scheme: {:?}, n: {:?}, q: {:?}, security_level: {:?}, fips: {:?} }}",
        name,
        n,
        q,
        security_level,
        fips,
    )
}

/// A ready-to-use NTT engine configured for a specific post-quantum scheme.
///
/// Wraps [`Ntt32Context`] with scheme metadata for safety and convenience.
pub struct PqNtt {
    /// The underlying NTT context.
    ctx: Ntt32Context,
    /// The scheme this context was created for.
    scheme: PqScheme,
}

impl PqNtt {
    /// The engine holds the context built for the scheme's (N, q).
    pub closed spec fn wf(&self) -> bool {
        self.ctx.built_for(256, 8380417)
    }

    /// The scheme, in specifications.
    pub closed spec fn spec_scheme(&self) -> PqScheme {
        self.scheme
    }

    /// The underlying context, in specifications.
    pub closed spec fn spec_context(&self) -> Ntt32Context {
        self.ctx
    }

    /// Creates a new PQ-NTT engine for the given scheme.
    ///
    /// This precomputes all twiddle factors and modular arithmetic
    /// constants. The context can be reused for multiple NTT calls.
    pub fn new(scheme: PqScheme) -> (e: Self)
        ensures
            e.wf(),
            e.spec_scheme() == scheme,
    {
        proof {
            crate::bits::lemma_power_of_two_256();
            assert((8380417int - 1) % (2 * 256int) == 0);
            lemma_ml_dsa_modulus_is_prime();
        }
        let ctx = Ntt32Context::new(scheme.n(), scheme.q());
        PqNtt { ctx, scheme }
    }

    /// Returns the scheme this engine was configured for.
    pub fn scheme(&self) -> (r: PqScheme)
        ensures
            r == self.spec_scheme(),
    {
        self.scheme
    }

    /// Returns the polynomial degree N.
    pub fn n(&self) -> (r: usize)
        ensures
            r == self.spec_context().n,
            self.wf() ==> r == 256,
    {
        self.ctx.n
    }

    /// Returns the prime modulus q.
    pub fn q(&self) -> (r: u32)
        ensures
            r == self.spec_context().q,
            self.wf() ==> r == 8380417,
    {
        self.ctx.q
    }

    /// Returns the NIST security level.
    pub fn security_level(&self) -> (r: u8)
        ensures
            r == scheme_level(self.spec_scheme()),
    {
        self.scheme.security_level()
    }

    /// Returns a reference to the underlying [`Ntt32Context`].
    pub fn context(&self) -> (r: &Ntt32Context)
        ensures
            *r == self.spec_context(),
            self.wf() ==> r.built_for(256, 8380417),
    {
        &self.ctx
    }

    /// Applies forward NTT in-place: coefficient domain to evaluation (NTT) domain.
    pub fn forward(&self, data: &mut [u32])
        requires
            self.wf(),
            old(data)@.len() == 256,
            all_below32(old(data)@, 8380417),
        ensures
            final(data)@.len() == 256,
            all_below32(final(data)@, 8380417),
            ints32(final(data)@) == forward_spec(
                ints32(old(data)@),
                self.spec_context().tw(),
                8380417,
                self.spec_context().log_n as nat,
            ),
    {
        self.ctx.forward(data);
    }

    /// Applies inverse NTT in-place, including the N⁻¹ normalization.
    pub fn inverse(&self, data: &mut [u32])
        requires
            self.wf(),
            old(data)@.len() == 256,
            all_below32(old(data)@, 8380417),
        ensures
            final(data)@.len() == 256,
            all_below32(final(data)@, 8380417),
            ints32(final(data)@) == inverse_spec(
                ints32(old(data)@),
                self.spec_context().tw_inv(),
                self.spec_context().n_inv as int,
                8380417,
                self.spec_context().log_n as nat,
            ),
    {
        self.ctx.inverse(data);
    }

    /// Negacyclic polynomial multiplication: `result = a × b mod (X^N + 1, q)`.
    ///
    /// Both inputs are in coefficient domain, and so is the result.
    pub fn multiply(&self, a: &[u32], b: &[u32]) -> (r: Vec<u32>)
        requires
            self.wf(),
            a@.len() == 256,
            b@.len() == 256,
            all_below32(a@, 8380417),
            all_below32(b@, 8380417),
        ensures
            ints32(r@) == negacyclic_mod(ints32(a@), ints32(b@), 8380417),
    {
        self.ctx.negacyclic_mul(a, b)
    }

    /// Negacyclic polynomial multiplication into `result`; `a` and `b` are left holding their
    /// forward transforms.
    pub fn multiply_into(&self, a: &mut [u32], b: &mut [u32], result: &mut [u32])
        requires
            self.wf(),
            old(a)@.len() == 256,
            old(b)@.len() == 256,
            old(result)@.len() == 256,
            all_below32(old(a)@, 8380417),
            all_below32(old(b)@, 8380417),
        ensures
            final(result)@.len() == 256,
            ints32(final(result)@) == negacyclic_mod(ints32(old(a)@), ints32(old(b)@), 8380417),
            ints32(final(a)@) == forward_spec(
                ints32(old(a)@),
                self.spec_context().tw(),
                8380417,
                self.spec_context().log_n as nat,
            ),
            ints32(final(b)@) == forward_spec(
                ints32(old(b)@),
                self.spec_context().tw(),
                8380417,
                self.spec_context().log_n as nat,
            ),
    {
        self.ctx.negacyclic_mul_into(a, b, result);
    }

    /// The engine described as text: its scheme's name, N, q, security level and FIPS number.
    pub fn debug_string(&self) -> (r: String)
        ensures
            r@ == debug_text_of(
                scheme_name(self.spec_scheme()),
                self.spec_context().n,
                self.spec_context().q,
                scheme_level(self.spec_scheme()),
                "FIPS 204"@,
            ),
            contains_text(r@, scheme_name(self.spec_scheme())),
            contains_text(r@, "FIPS 204"@),
    {
        proof {
            reveal_strlit("ML-DSA-44");
            reveal_strlit("ML-DSA-65");
            reveal_strlit("ML-DSA-87");
            reveal_strlit("FIPS 204");
            assert(plain_text(scheme_name(self.spec_scheme())));
            assert(plain_text("FIPS 204"@));
        }
        debug_text(
            self.scheme.name(),
            self.ctx.n,
            self.ctx.q,
            self.scheme.security_level(),
            self.scheme.fips(),
        )
    }
}

} // verus!
