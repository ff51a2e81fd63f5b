//! Remote-to-local reconciliation for a folder mirrored from a cloud drive.
//!
//! The library holds the version cache that correlates remote object ids with
//! what was last written locally, the text document it is persisted as, and
//! the decisions of one reconciliation cycle: which folders to list, which
//! filesystem operations to apply for a listing, and what to do once a cycle
//! ends.
mod chars;
pub mod codec;
pub mod daemon;
pub mod reconcile;
pub mod versions;
