//! A sorted, byte-ordered key-value store core.
//!
//! Keys and values are arbitrary byte strings. The store keeps its rows in
//! strictly ascending byte-wise key order, applies batched writes with a
//! deterministic last-occurrence-wins rule for duplicate keys, and serves
//! prefix-bounded range scans in key order.

pub mod bytes;
pub mod laws;
pub mod model;
pub mod sort;
pub mod store;

pub use sort::sort_rows;
pub use store::DB;
pub use store::DBRow;
pub use bytes::bytes_eq;
pub use bytes::is_prefix_of;
pub use bytes::lex_lt;
pub use bytes::lex_lt_bytes;
pub use bytes::starts_with;
