//! A codec for EBML (Extensible Binary Meta Language), the self-describing
//! binary container format underlying Matroska and WebM.
//!
//! The crate has three parts, leaves first:
//!
//! * [`varint`] — the variable-length integer codec that EBML uses for
//!   element identifiers and sizes: a marker bit in the first byte declares
//!   the total encoded length (1 through 8 bytes).
//! * [`element`] — element framing: an element is `<id varint><size varint>`
//!   followed by exactly `size` payload bytes. Readers and writers here work
//!   on in-memory byte buffers; adapters for arbitrary I/O streams sit
//!   outside the verified core and drive these functions.
//! * [`content`] — interpretation of a payload buffer as one of the EBML
//!   primitive types (binary, unsigned integer, signed integer, UTF-8 text).

pub mod content;
pub mod element;
pub mod varint;
