//! Core of an S3-style object store: immutable content-addressed blobs, a
//! per-key version history and multipart upload assembly, with every rule
//! stated as a contract and proved.

pub mod auth;
pub mod blob;
pub mod bucket;
pub mod digest;
pub mod encoding;
pub mod error;
pub mod model;
pub mod multipart;
pub mod parts;
pub mod request;
pub mod response;
pub mod storage;
pub mod table;
pub mod versioning;
