//! A verified CHIP-8 interpreter core.
//!
//! The machine model is a flat byte-addressable memory with a call-return
//! stack, sixteen general registers, an index register and a program
//! counter, a 64x32 one-bit display, a sixteen-key keyboard snapshot, and
//! two shared 8-bit timers.  The instruction engine fetches, decodes and
//! executes one 16-bit opcode per step; its effect on the machine state is
//! stated against a specification-level step function.

pub mod aux;
pub mod cpu;
pub mod chip8;
pub mod errors;
pub mod fonts;
pub mod graphics;
pub mod keyboard;
pub mod semantics;
pub mod sound;

pub use errors::Error;
