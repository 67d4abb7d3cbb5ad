//! Exact linear algebra for affine geometry and implicit quadratic surfaces.
//!
//! The crate is built in layers, leaves first: [`gcd`] holds the
//! divisibility facts behind the canonical form of a fraction; [`frac`] is
//! the mathematical model of a scalar with its field laws; [`rat`] is the
//! executable scalar, an exact rational in canonical form with checked
//! arithmetic; [`matrix`] holds dense matrices over it, with their
//! elementary row operations recorded as replayable logs ([`rowops`]);
//! [`elim`] builds Gaussian elimination with partial pivoting, linear
//! solving and inversion on top, each a proved refinement of its
//! mathematical mirror; [`laws`] states the algebraic laws relating all of
//! them; [`affine`] and [`forms`] give homogeneous-coordinate geometry and
//! the quadratic-form capability with the ellipsoid shape.

pub mod affine;
pub mod elim;
pub mod forms;
pub mod frac;
pub mod gcd;
pub mod laws;
pub mod matrix;
pub mod rat;
pub mod rowops;
