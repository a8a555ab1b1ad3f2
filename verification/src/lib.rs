//! A ring buffer that stores and reads back logs as UTF-8 text. The ring
//! works in place, in storage that the caller hands over, and allocates
//! nothing.
//!
//! The storage may be anything that implements [`ByteStorage`]: an array, a
//! vector, a slice, or an exclusive reference to one of these.
pub mod laws;
pub mod log_buffer;
pub mod ring;
pub mod storage;
pub mod utf8;

pub use crate::log_buffer::LogBuffer;
pub use crate::storage::ByteStorage;
