# neco

Exact arithmetic, verified with Verus.

- `src/limbs.rs`, `natural.rs`, `integer.rs`, `rational.rs`, `dyadic.rs`: arbitrary-precision
  naturals, integers, reduced rationals and dyadic numbers, each with a mathematical view
  (`nat`, `int`, numerator and denominator, mantissa and exponent) that every operation is
  stated against.
- `polynomial.rs`, `division.rs`, `resultant.rs`, `interpolation.rs`, `substitution.rs`:
  integer and rational polynomials, long division, gcd and square-free parts, resultants and
  determinants, Lagrange interpolation.
- `factor.rs`, `factorization.rs`: Kronecker factorization of square-free polynomials.
- `sturm.rs`, `isolation.rs`: Sturm sequences, root counting by sign variations, real root
  isolation, certification and refinement.
- `algebraic.rs`, `algebraic_order.rs`, `algebraic_arith.rs`, `isolation_cache.rs`: real
  algebraic numbers as a root index of a minimal polynomial, arithmetic modulo the minimal
  polynomial, certification of a root in an interval, enclosures, comparison with dyadics and
  between numbers, sign, sums and differences (a root of a resultant selected by enclosures),
  and a cache of isolating intervals per expression and precision. Products, quotients,
  powers and roots of algebraic numbers, and the sorted, separated isolation of all roots of
  a square-free polynomial, are not part of the library yet.
- `complex.rs`: complex numbers over any component type.
- `id.rs`, `storage.rs`, `graph.rs`, `evaluation.rs`, `product.rs`, `projection.rs`: identifiers,
  keyed stores and expression graphs.

`tests/` exercises the library; `app/` holds what cannot be verified: conversions between
floats and dyadics, the float helpers of complex numbers, and `Display` for the error types.
The floating-point eigensolvers are not included.
