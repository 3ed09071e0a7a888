//! A register-based virtual machine executing a fixed 32-bit instruction set
//! against eight general-purpose registers and a dynamically managed set of
//! word-addressed memory segments.
//!
//! The crate has three parts:
//! - [`bitpack`]: a generic bit-field codec over 64-bit words, with signed and
//!   unsigned extraction, insertion and range validation;
//! - [`rumdis`]: the instruction decoder, a direct application of the codec to
//!   the machine's 32-bit instruction layout;
//! - [`machine`]: the execution engine — the segment store, the register file
//!   and the fetch-decode-execute cycle.

pub mod bitpack;
pub mod machine;
pub mod rumdis;
