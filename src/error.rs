//! The error type shared by the collector and the slot protocol.

pub use crate::MemoryError as Error;
