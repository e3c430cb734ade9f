# rust_fri

Prime-field and univariate-polynomial arithmetic over the Baby Bear field
(`p = 15 * 2^27 + 1`), written in Verus and verified against its contracts.

Layout of `src/`:

- `number_theory.rs`: Rust's truncating `/` and `%` as spec functions, the
  extended Euclidean algorithm as a spec, gcd and primality.
- `field_operations.rs`: `Field` and `FieldElement`, their arithmetic with the
  exact results of Rust's `%`, the verified `xgcd`, inversion, sampling from
  bytes, the generator and roots of unity, a proof that the Baby Bear modulus
  is prime, and the field laws.
- `convolution.rs`: coefficient lists over the integers, finite sums,
  convolution (polynomial product) with its ring laws, evaluation, and
  synthetic division.
- `roots.rs`: a polynomial that vanishes on more distinct points than its
  degree is zero modulo the prime.
- `polynomials.rs`: `Polynomial` with degree, negation, sum, difference,
  product, comparison, long division, evaluation, scaling, zerofiers,
  Lagrange interpolation, the collinearity test and powers, and the laws that
  relate them (uniqueness of division and of interpolation among them).

The tests under `tests/` run the library on concrete values.
