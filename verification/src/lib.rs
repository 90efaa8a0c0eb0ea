//! Verified core of an R1CS STARK verifier: prime-field arithmetic, polynomial
//! evaluation forms, the constraint polynomials and the verifier's spot checks.
pub mod field;
pub mod poly;
pub mod utils;
pub mod constraints;
pub mod encoding;
pub mod interp;
pub mod stark_verify;
pub mod laws;
pub mod transform_laws;
pub mod constraint_laws;
