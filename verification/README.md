# weighted-math-core

A fixed-point weighted-pool math kernel (Balancer-style `calc_out_given_in`,
`calc_in_given_out`, `spot_price` and the underlying `pow(base, exponent)`),
written in Verus: every function carries a contract, and Verus proves the
code against it, including the absence of overflow in every intermediate.

Layout:

- `src/arith.rs`: powers of two, shifts, floor and ceiling division facts.
- `src/wide.rs`: the `128 x 128 -> 256` multiply and the shifted products
  floored or ceiled back to 128 bits.
- `src/fixed.rs`: the `Fixed` Q52 scalar and its directed-rounding wrappers.
- `src/series.rs`: the integer definitions of the 62-bit `ln`/`exp`
  pipeline and the interval tables that bound every series intermediate.
- `src/pow.rs`: `ln`, `exp`, `expm1`, `pow`, `pow_up`, `pow_down` and the
  62-bit swap-path powers.
- `src/weighted.rs`: the pool-favouring ratio helpers and the swap math.
- `src/harness.rs`: fixture schema, the decimal quantizer, the band grader,
  the exact big-integer curve referee and double-width helpers.
- `src/curve.rs`: the curve invariant of both swap paths, reduced to the
  side on which the fixed-point power errs.
- `src/shaping.rs`: clamping arbitrary trades into the envelope and
  refereeing them against the curve.
- `src/zkvm.rs`: the guest word protocol, the operation dispatch, the
  host's batch encoding, journal decoding and parity count, and cycle
  statistics.
- `app/`: reading the JSON fixtures from disk.

The public proof functions named `law_*` state the properties that hold
across inputs (rounding brackets, round trips, linearity of the final
multiplies, monotonicity of the spot price and its band above the true
price, the payout floor on large
deposits, the curve invariant given a pool-safe power, the wire and decimal
round trips).
