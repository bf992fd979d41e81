//! Trace generation and constraint description for two arithmetic gadgets of a
//! STARK-based virtual machine: non-native modular arithmetic over byte limbs,
//! and carry-propagating addition of four 32-bit words.

pub mod add4;
pub mod bignat;
pub mod builder;
pub mod expr;
pub mod expr_poly;
pub mod field;
pub mod fp_laws;
pub mod fp_op;
pub mod fp_spec;
pub mod layout;
pub mod params;
pub mod poly;
pub mod polynomial;
pub mod prime;
pub mod segment;
pub mod witness;
pub mod word;
