//! Code generation for prime fields in Montgomery form over 64-bit limbs.
//!
//! For a number of limbs (and a few choices) the generator writes out the
//! arithmetic of a field element as straight-line code. The code is kept as
//! plain data (see `ir`); its meaning, and the laws that it meets, are stated
//! and proved here.
pub mod ir;
pub mod gen;
pub mod arith;
pub mod range_check;
pub mod reduce_law;
pub mod modular;
pub mod field_ops;
pub mod semantics;
pub mod mul_law;
pub mod mont_law;
pub mod sqr_law;
pub mod cios_law;
pub mod no_carry_law;
pub mod field_law;
pub mod product_law;
pub mod inverse_law;
pub mod binding;
