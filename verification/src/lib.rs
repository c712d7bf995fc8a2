//! Symbolic multivectors of the four-dimensional Euclidean geometric algebra.
//!
//! A multivector is a list of terms. Each term is a sum of signed monomials
//! attached to a blade, a product of basis vectors. The library multiplies
//! multivectors, brings them to a canonical form and renders them as text.
//! Every executable function carries a contract over the mathematical views
//! of its arguments, and the algebraic laws of the canonical form are proved
//! as public lemmas.

pub mod basis;
pub mod sorting;
pub mod pairing;
pub mod blade;
pub mod monomial;
pub mod term;
pub mod notation;
pub mod multivector;
pub mod laws;
pub mod coefficients;
