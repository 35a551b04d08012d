//! Stream-vbyte style codec for sequences of 64-bit unsigned integers.
//!
//! An encoded buffer is a key segment followed by a data segment. The key
//! segment holds one 3-bit length code per value, eight codes to a 3-byte
//! little-endian group. The data segment holds each value's low `code + 1`
//! bytes, little-endian, back to back.

pub mod error;
pub mod code;
pub mod bytes;
pub mod layout;
pub mod tables;
pub mod keys;
pub mod scalar;
pub mod size;
pub mod vector;
pub mod shuffle;
pub mod block;
pub mod codec;
pub mod round_trip;

pub use crate::block::decode_avx;
pub use crate::bytes::{decode_single, encode_single};
pub use crate::code::{byte_width, classify};
pub use crate::keys::keys_len;
pub use crate::scalar::{decode_scalar, encode_scalar};
pub use crate::size::{compressed_len, max_compressed_len};
pub use crate::codec::{decode, decode_with, encode};
pub use crate::error::CodecError;
