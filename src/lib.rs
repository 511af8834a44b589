//! Codec for the camera animation files of a game engine's asset pipeline.
//!
//! A file holds a 32-byte header, eight track records in a fixed order and a
//! shared block of 32-bit values that the tracks point into. Floating-point
//! values are carried as their IEEE-754 bit patterns (`u32`), so that decoding
//! and encoding move them bit for bit.

pub mod camn;
pub mod canm;
pub mod codec;
pub mod error;
pub mod float_bits;
pub mod laws;
pub mod layout;
pub mod pool;
pub mod track;
pub mod wire;
