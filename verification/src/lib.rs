//! Constant-time Montgomery arithmetic over little-endian sequences of
//! 32-bit limbs, with machine-checked functional contracts.
//!
//! A limb sequence stands for the integer `limbs::limbs_value` gives it, and
//! every contract is stated over that value:
//!
//! - `limb`: the optimizer barrier, the masked select, and subtraction of
//!   single limbs with borrow;
//! - `limbs`: subtraction and multiply-accumulate over whole sequences;
//! - `montgomery`: reduction in place over a double-width accumulator, and
//!   multiplication followed by reduction;
//! - `theory`: what the reduction means modulo `n` when `n0` is the constant
//!   that belongs to `n`;
//! - `mem`: comparison of byte buffers.
//!
//! No function branches on, or indexes by, the contents of a buffer: control
//! flow follows the lengths alone.

pub mod limb;
pub mod limbs;
pub mod montgomery;
pub mod theory;
pub mod mem;
