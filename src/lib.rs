//! Hermes: a low-latency publish/subscribe broker core.
//!
//! The library holds the verified parts of the broker: the binary frame
//! codec, a bounded single-producer/single-consumer ring, the append ring
//! kept in a memory-mapped file, and the per-connection and fan-out
//! decisions of the broker loop. Sockets, files and the command line live
//! in the program around it.

pub mod broker;
pub mod connection;
pub mod protocol;
pub mod ring_buffer;
pub mod stats;
pub mod storage;
