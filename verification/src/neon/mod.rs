//! A portable model of the 128-bit vector registers that the scanner's
//! kernels are written against.

pub mod intrinsics;
