//! Numerical primitives over exact rational arithmetic: derivative
//! estimation by finite differences, explicit Euler stepping, composite
//! Simpson quadrature, and a tableau simplex maximizer that works in
//! place on caller-owned buffers.
//!
//! Every scalar is a [`rational::Rat`], an `i64` fraction with a positive
//! denominator; the contracts speak of its mathematical value, the ghost
//! fraction [`rational::Q`].  The simplex solver lives in [`engine`], with
//! its pivot selection in [`pivot`], its addressing convention in
//! [`tableau`], and the buffer helpers in [`vector_ops`]; the fixed-
//! iteration stencils live in [`stencils`].

pub mod engine;
pub mod pivot;
pub mod rational;
pub mod stencils;
pub mod tableau;
pub mod vector_ops;
