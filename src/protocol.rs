//! Wire protocol: fixed 32-byte header, payload, checksum and batch framing.

pub mod encoder;
pub mod frame;
pub mod message;

pub use encoder::{BatchIterator, Decoder, Encoder};
pub use message::{crc32_fast, Message, MessageHeader, MessageType, HEADER_SIZE, MAGIC, MAX_PAYLOAD_SIZE, VERSION};
