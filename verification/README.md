# vaea_ntt

Number Theoretic Transforms over prime fields for lattice cryptography, specified and proved in
Verus. Four items are trusted rather than proved, each with its contract in a doc comment: the
`rand` generator type, `rand::thread_rng`, `Rng::gen_range` (in `src/poly.rs`), and std's
`format!` for the debug text of `PqNtt` (in `src/pq.rs`).

- `src/algebra/` — the mathematics the contracts are stated in: polynomial evaluation, the
  Cooley-Tukey and Gentleman-Sande layers as sequence functions, negacyclic products, twiddle
  tables in bit-reversed order, Fermat's little theorem and the primitive root theorem, and the
  laws that the transforms obey (the inverse undoes the forward transform, the forward
  transform evaluates at the roots of X^N + 1, and it turns negacyclic products into pointwise
  products).
- `src/ntt32/` — primes below 2^28: Shoup multiplication, Harvey lazy butterflies, the vector
  pipeline written lane by lane (deferred reduction, multiply-high quotients, Barrett), prime
  generation, primitive roots and `Ntt32Context`.
- `src/ntt64/` — primes below 2^62: Barrett and Montgomery arithmetic, deterministic
  Miller-Rabin and `Ntt64Context`.
- `src/poly.rs`, `src/rns.rs`, `src/pq.rs` — polynomials over Z_q[X]/(X^N + 1), residue number
  systems over several moduli, and ready-made ML-DSA engines.
- `app/` — what stays in ordinary Rust: the `Display` impl of the error type and Gaussian
  sampling, which works on floating point.
- `tests/` — unit and integration tests.

Random sampling (`Poly64::new_random`, `Poly64::new_ternary`) calls the `rand` crate; its
contract states only that every draw lies in the requested range.
