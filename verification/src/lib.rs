//! Binary value codec and chunk framing for a PackStream-style wire protocol.
//!
//! The crate converts a small recursive value model to and from its exact byte
//! layout and frames encoded messages into length-prefixed chunks.
//!
//! - [`value`]: the values and their mathematical models.
//! - [`wire`]: the grammar, as specification functions over the models.
//! - [`packer`] and [`unpacker`]: encoder and decoder, verified against it.
//! - [`buffer`]: the byte sink and the refillable byte source.
//! - [`codec`]: whole messages, `encode` and `decode`.
//! - [`frame`]: chunks, terminator and reassembly.
//! - [`laws`]: what holds of all of it, proved.
//!
//! The library performs no input or output. A transport hands it the bytes
//! it has read and sends the bytes it is given.

pub mod buffer;
pub mod codec;
pub mod endian;
pub mod error;
pub mod frame;
pub mod laws;
pub mod packer;
pub mod unpacker;
pub mod value;
pub mod wire;

pub use buffer::{MessageBuffer, UnpackableBuffer};
pub use codec::{decode, decode_with_depth, encode};
pub use error::CodecError;
pub use frame::{frame_message, read_message, reassemble, write_message, ChunkAssembler};
pub use packer::Packer;
pub use unpacker::Unpacker;
pub use value::{MessageStructure, MessageValue};
