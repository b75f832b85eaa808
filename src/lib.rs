//! Extraction of the newest numbered transcript from a zstd-compressed tar archive.
pub mod archive;
pub mod error;
pub mod extract;
pub mod naming;
