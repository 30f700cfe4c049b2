//! A verified core for a small byte-code virtual machine: run-length
//! codec, bit-packed framebuffer, keypad state, instruction interpreter,
//! save-state container and the timing-loop scheduler.

pub mod codec;
pub mod cpu;
pub mod display;
pub mod keypad;
pub mod rle;
pub mod schedule;

use vstd::prelude::*;

verus! {

/// Reads the little-endian 32-bit value held in four bytes.
pub open spec fn le32(b0: u8, b1: u8, b2: u8, b3: u8) -> u32 {
    (b0 as u32) | (b1 as u32) << 8 | (b2 as u32) << 16 | (b3 as u32) << 24
}

} // verus!
