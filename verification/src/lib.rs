//! Content identifiers for metainfo documents.
//!
//! A metainfo document is a bencoded dictionary whose `info` entry describes
//! a piece of shared content. This crate decodes such documents, re-encodes
//! the `info` dictionary canonically and names the content by the SHA-1
//! digest of those bytes.

pub mod decimal;
pub mod decode;
pub mod digest;
pub mod encode;
pub mod lex;
pub mod metainfo;
pub mod model;
pub mod roundtrip;
pub mod value;

pub use decode::{decode, decode_at, DecodeError, MAX_DEPTH};
pub use digest::ContentId;
pub use encode::{encode, encode_into};
pub use metainfo::{extract_identity, Metainfo, MetainfoError};
pub use value::{Dict, Value};
