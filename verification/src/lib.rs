//! Arbitrary-precision unsigned integers built from 64-bit limbs, with
//! verified addition, subtraction, comparison, left shift and squaring.

pub mod bignum;
pub mod limbs;
