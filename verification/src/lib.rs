//! Adaptive dictionary (LZW) compression over in-memory byte streams.
//!
//! [`lzw::compress`] turns bytes into a stream of variable-width codes and
//! [`lzw::decompress`] turns such a stream back into the bytes. Both build
//! the same code table on their own; the table is never transmitted.
//!
//! - [`bits`]: bit sequences, the model of the packed stream.
//! - [`bit_buffer`]: the bit-level writer and reader.
//! - [`dict`]: the code table and its code width.
//! - [`model`]: encoder and decoder as mathematical functions.
//! - [`lzw`]: compression and decompression.
//! - [`theorems`]: the decoder undoes the encoder.

pub mod bit_buffer;
pub mod bits;
pub mod dict;
pub mod error;
pub mod lzw;
pub mod model;
pub mod theorems;
