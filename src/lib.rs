//! Content-integrity manifests for directory trees: canonical manifest keys,
//! streamed SHA-256 digests, the manifest line format, and the generate /
//! validate / update reconciliation of a manifest against a live file tree.
pub mod canonical;
pub mod digest;
pub mod manifest;
pub mod reconcile;
