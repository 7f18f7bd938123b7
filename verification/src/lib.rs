//! Planning and bookkeeping for moving files to and from an S3-compatible
//! object store: chunk and byte-range plans, object keys, listing filters,
//! multipart-upload part collection and payload checksums.

pub mod text;
pub mod error;
pub mod chunking;
pub mod keys;
pub mod listing;
pub mod upload;
pub mod checksum;
pub mod ordering;
pub mod settings;
