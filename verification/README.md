# r1cs_stark

The verified core of a STARK verifier for rank-1 constraint systems (R1CS), written in
Verus. Every executable function in `src/` carries a contract that Verus proves.

## Layout

- `src/field.rs`: a prime field `Z/pZ` with a 64-bit modulus and a multiplicative
  generator. Elements are `u64` values in `[0, p)`; every operation is specified over the
  integers modulo `p`. Inversion uses the extended Euclidean algorithm and reports when no
  inverse exists.
- `src/poly.rs`: polynomials over power-of-two domains, in coefficient or evaluation form;
  the forward and inverse transforms are specified by the evaluations they produce.
- `src/interp.rs`: Lagrange interpolation.
- `src/constraints.rs`: the computational trace and the constraint, quotient, boundary and
  accumulator polynomials of the proof system.
- `src/encoding.rs`: the byte encodings of field elements and the decimal parsing of seeds.
- `src/utils.rs`: bit lengths, precision, roots of unity, and the byte handling behind seeds,
  Merkle leaves and randomness.
- `src/stark_verify.rs`: the verifier's parameters and its spot checks on the opened
  values of a proof.
- `src/laws.rs`, `src/transform_laws.rs`: properties that relate several functions, stated
  and proved as public proof functions (encoding round trips, interpolation, the vanishing
  polynomial, the quotient check, the accumulator recurrence, and the two transforms
  inverting each other).
- `app/`: the proof type with its serialization, hashing, Merkle trees and the low-degree
  check, which call crates outside this one and are not verified.
- `tests/`: tests of the library on concrete values.
