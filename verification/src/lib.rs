//! A one-dimensional Galerkin finite-element solver over exact rational
//! arithmetic: hat basis functions on a uniform mesh, a fixed-order
//! quadrature rule, weak-form assembly of a dense linear system, an exact
//! direct solve, and pointwise evaluation of the computed approximation.

pub mod rational;
pub mod base_function;
pub mod integration;
pub mod fem;
