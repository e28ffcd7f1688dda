//! Codec core for a paper backup tool: files are turned into self-describing,
//! erasure-coded chunks that are rendered as scannable symbols, and later
//! reconstructed from an unordered, possibly incomplete collection of decoded
//! symbol payloads.

pub mod arith;
pub mod bytes;
pub mod encode;
pub mod erasure;
pub mod errors;
pub mod fonts;
pub mod hashing;
pub mod layout;
pub mod header;
pub mod restore;
pub mod symbol;
