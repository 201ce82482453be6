//! Decoding and joining of a scanner report: an archive of protobuf-encoded
//! records, one entry per analysed file plus aggregate entries.
pub mod wire;
pub mod records;
pub mod entry;
pub mod keyed;
pub mod report;
pub mod laws;
