//! Hypercube: a single-file, multi-tenant container built on Rivest's
//! chaffing and winnowing.
//!
//! Independent payloads ("partitions") share one pool of fixed-size blocks.
//! Each block carries a 128-bit sequence tag, a payload that went through an
//! all-or-nothing transform, and a keyed authentication tag. A partition is
//! found again only by authenticating every block of the pool under its
//! secret; everything else is indistinguishable cover traffic.
//!
//! The crate is verified with Verus. Hashing, compression and randomness are
//! taken from other crates; the functions in `backend` are the only places
//! where calls into them are made, and their contracts are assumptions.

pub mod backend;
pub mod bytes;
pub mod cube;
pub mod decimal;
pub mod error;
pub mod header;
pub mod header_json;
pub mod header_text;
pub mod partition;
pub mod pipeline;
pub mod vhc;

pub use error::HypercubeError;
pub use header::VhcHeader;
pub use vhc::VhcFile;
