//! Turns a textual single-variable expression into an abstract syntax tree and
//! evaluates elementary-function tags into truncated power series (Taylor
//! polynomials) with exact rational coefficients, combined through ring
//! operations on a fixed 30-slot coefficient window.

pub mod func;
pub mod laws;
pub mod node;
pub mod postfix;
pub mod tokenize;
pub mod tree;
pub mod poly;
pub mod rat;
pub mod split;
