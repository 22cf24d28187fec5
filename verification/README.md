# pinocchio_demo

The Pinocchio and GGPR13 zk-SNARK flows (setup, prove, verify) over the BN254
curve, with the QAP machinery they rest on, written in Verus. Field, polynomial
and group arithmetic come from the arkworks crates; everything built on top of
them is verified against its contract.

## Layout

- `src/field.rs`: scalar-field elements and the `ark_ff` operations on them.
- `src/poly_spec.rs`: the model of dense polynomials (coefficient sequences)
  and the laws that tie evaluation to sum, difference, scaling and product.
- `src/poly.rs`: the executable polynomial type, the `ark_poly` operations,
  FFT-domain interpolation and vanishing polynomials.
- `src/interpolation.rs`: Lagrange and CRT interpolation, and their laws:
  uniqueness, the round trip, linearity and independence of the points' order.
- `src/qap.rs`: witness-weighted combinations, the divisibility condition.
- `src/r1cs.rs`: constraint systems, the chain circuit of the benchmark, the
  regular QAP of a constraint system, and the laws that it vanishes on its
  domain for a satisfying witness and is then divisible by the product of
  `x - p` over the domain's points (given that their Lagrange factors are
  invertible).
- `src/strong_qap.rs`: the GGPR13 strong-QAP transformation and its laws.
- `src/group.rs`: G1, G2 and target-group elements as encodings, with the
  `ark_ec` operations and the pairing.
- `src/pinocchio.rs`, `src/ggpr13.rs`: the two protocols. Pinocchio accepts
  exactly the witnesses whose `v * w - y` the target divides. GGPR13 accepts
  such a witness whose first entry is 1 whenever the prover's product fits
  an FFT domain, over the strong QAP of the points drawn from `test_rng`
  (`strong_qap.rs` proves that the strong target then divides the strong
  `v * w - y`). `test_rng` has a fixed seed, so the draws are named by their
  count; the GGPR13 verdict is determined by its arguments and does not
  depend on the split into input/output entries, on the number of gates or
  on entries past `num_vars`.
- `app/main.rs`: the benchmark program (reads `circuit.json`, or writes it with
  the argument `generate`) and the JSON shapes of the circuit file.
- `tests/`: scenario tests of the library.
