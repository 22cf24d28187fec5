//! Verified QAP-based zk-SNARK building blocks over the BN254 scalar field:
//! field elements, dense polynomials, Lagrange and CRT interpolation, the
//! strong-QAP transformation, and the Pinocchio and GGPR13 protocol flows.
pub mod field;
pub mod poly_spec;
pub mod poly;
pub mod interpolation;
pub mod strong_qap;
pub mod group;
pub mod timing;
pub mod qap;
pub mod division;
pub mod poly_ring;
pub mod pinocchio;
pub mod ggpr13;
pub mod r1cs;
