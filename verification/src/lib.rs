//! Order-preserving row encoding.
//!
//! Converts a sequence of typed column values (one value per row, across the
//! columns of a schema) into one contiguous byte sequence per row, such that
//! lexicographic comparison of two encoded rows agrees with the tuple
//! comparison of their original values under per-column sort options, and
//! such that the original values can be recovered from the bytes.
//!
//! * [`options`] — per-column flags and the null-sentinel policy;
//! * [`varlen`] — the variable-length UTF-8 / binary codec and its length
//!   oracle;
//! * [`fixed`] — fixed-width primitive codecs;
//! * [`order`] — lexicographic byte order and the order-preservation proofs;
//! * [`rows`] — typed values, the row assembler and the row disassembler,
//!   with the round-trip and order laws for whole rows;
//! * [`decode`] / [`binview`] — the column decoder and its output container
//!   with a lazily allocated validity bitmap;
//! * [`categorical`] — the interning dictionary and the categorical decoder.

pub mod binview;
pub mod categorical;
pub mod decode;
pub mod error;
pub mod fixed;
pub mod order;
pub mod options;
pub mod rows;
pub mod varlen;

pub use options::RowEncodingOptions;
