//! Square-and-multiply exponentiation, as a loop invariant.

use vstd::prelude::*;
use vstd::arithmetic::div_mod::*;
use vstd::arithmetic::mul::*;
use vstd::arithmetic::power::*;

verus! {

/// One step of right-to-left square-and-multiply keeps `result · b^e ≡ target (mod q)`.
pub proof fn lemma_square_multiply_step(result: int, b: int, e: nat, q: int)
    requires
        q > 0,
    ensures
        e % 2 == 1 ==> (((result * b) % q) * pow((b * b) % q, e / 2)) % q == (result * pow(b, e))
            % q,
        e % 2 == 0 ==> (result * pow((b * b) % q, e / 2)) % q == (result * pow(b, e)) % q,
{
    let h = e / 2;
    lemma_pow_multiplies(b, 2, h);
    assert(pow(b, 2) == b * b) by {
        reveal_with_fuel(pow, 3);
    }
    assert(2 * h == h * 2);
    // pow((b*b)%q, h) ≡ pow(b*b, h) = pow(b, 2h)
    lemma_pow_mod_noop(b * b, h, q);
    lemma_mod_twice(b * b, q);
    let bb = pow((b * b) % q, h);
    let big = pow(b, 2 * h);
    assert(bb % q == big % q) by {
        lemma_pow_mod_noop((b * b) % q, h, q);
        lemma_pow_mod_noop(b * b, h, q);
    }
    if e % 2 == 1 {
        assert(e == 2 * h + 1);
        lemma_pow_adds(b, 1, 2 * h);
        lemma_pow1(b);
        // ((r b) % q) * bb ≡ r b big
        lemma_mul_mod_noop((result * b) % q, bb, q);
        lemma_mul_mod_noop(result * b, big, q);
        lemma_mod_twice(result * b, q);
        assert((result * b) * big == result * (b * big)) by (nonlinear_arith);
        assert(b * big == pow(b, e));
    } else {
        assert(e == 2 * h);
        lemma_mul_mod_noop(result, bb, q);
        lemma_mul_mod_noop(result, big, q);
    }
}

} // verus!
