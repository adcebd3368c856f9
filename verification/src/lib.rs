//! Staged detection of byte-identical files: candidates are grouped by size,
//! narrowed by a head-and-tail fingerprint, and confirmed by a digest of the
//! whole content. Files are named by their index in the scanned sequence.

pub mod digest;
pub mod group;
pub mod metrics;
pub mod stages;
pub mod pipeline;
