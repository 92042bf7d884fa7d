# ectools

Finite-field arithmetic in Montgomery form, quadratic extensions, and elliptic curves
in short Weierstrass and Montgomery form, written in Verus. Each function carries a
contract that states its result exactly, in terms of its arguments and, for the curve
traits, of the curve's coefficients (`spec_a`, `spec_b`). The exceptions are the operator
impls with a reference on the left and a value on the right (`&a + b`), where Verus
refuses a contract, and the `Hash` impls. The algebraic laws of the operations are
proved over the same specifications.

## Layout

- `src/limbs.rs` — multi-limb integers (`[u64; N]`), carry/borrow primitives and the
  value `limbs_nat` of a limb sequence.
- `src/modular.rs` — modular arithmetic facts: Montgomery reduction, congruences,
  powers.
- `src/field.rs` — `Field`, `MontgomeryParams`, `mont_mul` and `FieldElement` (add, sub,
  mul, pow, inv, sqrt, bytes), with the view of an element as its residue in `0..p`.
- `src/fields.rs` — the secp256k1 base field and group order and the CSIDH-512 base
  field, with proofs that their constants are consistent.
- `src/bytes.rs` — little-endian bytes to limbs and back.
- `src/extension.rs` — quadratic extensions `F_p[i]`, `ExtensionFieldElement`, and the
  CSIDH-512 extension with `i^2 = -1`.
- `src/curve.rs` — Jacobian points, scalars, the `Curve` trait and secp256k1.
- `src/curve/montgomery.rs` — x-only Montgomery arithmetic and the Montgomery ladder,
  over a prime field and over a quadratic extension.
- `src/primes.rs` — Euclid's lemma, binomial coefficients, Fermat's little theorem,
  square roots modulo `p = 3 (mod 4)`.
- `src/laws.rs` — the laws: ring laws of the field and the extension, inverses and
  square roots in prime fields, laws of point addition, the Montgomery ladder as the
  differential addition chain (`[2m] P = 2 [m] P`, `[2m + 1] P = [m + 1] P + [m] P`),
  the agreement of point equality with the affine representation (which `Hash` feeds),
  `lift` and `is_on_curve` as tests for squares, and the agreement of the extension with
  the base field on its points.
