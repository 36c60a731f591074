//! Remote path handling and the decision logic that replicates a tar stream
//! onto a remote host: which directories to create, which entries to send,
//! and when a transfer has failed.

pub mod path;
pub mod materialize;
pub mod pipeline;
