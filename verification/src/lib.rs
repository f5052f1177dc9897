//! Dense matrix product over half-precision operands packed in byte buffers,
//! accumulated in single precision.
//!
//! Every value is carried as its IEEE-754 bit pattern: `u16` for a half, `u32`
//! for a single. The arithmetic itself is supplied by the caller as three
//! callbacks, so every statement about a result is a statement about what
//! those callbacks returned.

pub mod codec;
pub mod convert;
pub mod engine;
pub mod error;
pub mod gemm;
pub mod laws;
pub mod shape;

pub use codec::{read_fp16_le_slice, write_fp16_le_slice};
pub use error::GemmError;
pub use gemm::{gemm_fp16_acc32, gemm_with_scratch, Scratch};
