//! A self-describing, streaming binary serialization codec.
//!
//! Values are written as one-byte type tags followed by fixed-width
//! big-endian payloads; strings and bulk arrays are framed by delimiter
//! bytes with an escape convention, and lists and maps nest freely.
//! The decoder consumes its input as a sequence of byte chunks split at
//! arbitrary boundaries; the result never depends on where those
//! boundaries fall.

pub mod constants;
pub mod de;
pub mod element;
pub mod en;
pub mod laws;
pub mod value;
pub mod wire;
