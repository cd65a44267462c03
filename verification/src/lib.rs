//! Bit-level stream reading and writing, and the frame format of game
//! recordings built on top of it.

pub mod error;
pub mod bits;
pub mod model;
pub mod bit_stream;
pub mod laws;
pub mod layout;
pub mod recording;
pub mod positions;
