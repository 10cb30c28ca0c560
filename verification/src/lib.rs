//! Decoding core for grid-based tile-map documents.
//!
//! The library turns raw textual or binary payloads embedded in a tile-map
//! document into typed in-memory values: tile-layer payloads (csv, base64,
//! optionally compressed), typed property values, and compact bit-packed
//! autotiling identifiers (WangIds). All decoders are pure and stateless;
//! every failure is reported through [`error::Error`].

pub mod error;
pub mod outside;
pub mod layer;
pub mod property;
pub mod text;
pub mod wangid;
