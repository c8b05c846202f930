//! An append-only block storage engine: byte payloads are written under
//! caller-chosen request identifiers and later retrieved by identifier.
//!
//! The engine keeps a flat byte store addressed through a monotonic write
//! cursor and an in-memory identifier index. Every transfer is padded to the
//! direct-I/O block size; reservations of byte ranges are granted atomically
//! so that no two writes ever claim overlapping spans.

pub mod backend;
pub mod block;
pub mod engine;
pub mod volume;
