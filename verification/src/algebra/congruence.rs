//! Congruences modulo q, as rewriting steps for proofs.

use vstd::prelude::*;
use vstd::arithmetic::div_mod::*;
use vstd::arithmetic::mul::*;

verus! {

/// Sums of congruent terms are congruent.
pub proof fn lemma_cong_add(x1: int, y1: int, x2: int, y2: int, q: int)
    requires
        q > 0,
        x1 % q == y1 % q,
        x2 % q == y2 % q,
    ensures
        (x1 + x2) % q == (y1 + y2) % q,
{
    lemma_add_mod_noop(x1, x2, q);
    lemma_add_mod_noop(y1, y2, q);
}

/// Differences of congruent terms are congruent.
pub proof fn lemma_cong_sub(x1: int, y1: int, x2: int, y2: int, q: int)
    requires
        q > 0,
        x1 % q == y1 % q,
        x2 % q == y2 % q,
    ensures
        (x1 - x2) % q == (y1 - y2) % q,
{
    lemma_sub_mod_noop(x1, x2, q);
    lemma_sub_mod_noop(y1, y2, q);
}

/// Products of congruent terms are congruent.
pub proof fn lemma_cong_mul(x1: int, y1: int, x2: int, y2: int, q: int)
    requires
        q > 0,
        x1 % q == y1 % q,
        x2 % q == y2 % q,
    ensures
        (x1 * x2) % q == (y1 * y2) % q,
{
    lemma_mul_mod_noop(x1, x2, q);
    lemma_mul_mod_noop(y1, y2, q);
}

/// A term is congruent to its reduction.
pub proof fn lemma_cong_mod(x: int, q: int)
    requires
        q > 0,
    ensures
        (x % q) % q == x % q,
{
    lemma_mod_twice(x, q);
}

} // verus!
