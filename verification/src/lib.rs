//! A binary on-disk persistence codec: a uniform contract for turning
//! in-memory values (scalars, ordered lists, key-to-value mappings,
//! shared-ownership handles, and compiled executable functions) into a raw
//! byte stream and back.
//!
//! Scalars are fixed-width little-endian; lists and mappings are greedy and
//! terminated only by a clean end of stream; a compiled function is a
//! length-prefixed, bit-packed payload followed by an unpack and a compile
//! step that can each fail.

pub mod assoc;
pub mod bits;
pub mod codec;
pub mod file_input;
pub mod funcs;
pub mod list;
pub mod opcode;
pub mod scalar;
pub mod shared;
pub mod stream;
