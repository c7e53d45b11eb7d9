//! Goldilocks field arithmetic emulated inside a circuit over a larger field:
//! gadgets built from one range-checked fused multiply-add primitive.
pub mod arithmetic_chip;
pub mod bits;
pub mod chip;
pub mod field;
