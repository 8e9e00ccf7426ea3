//! Memory-budgeted replication of a directory tree.
//!
//! The crate holds the decisions of a replication run: how much memory must
//! stay free, whether a file may be buffered, when the buffer has to be
//! flushed, and how a file that cannot be buffered is cut into chunks. It
//! performs no file I/O itself. A caller walks the source tree, hands each
//! entry to a `Replicator`, and carries out the operations it gets back.

pub mod buffer;
pub mod chunk;
pub mod config;
mod consistency;
pub mod effect;
pub mod failure;
pub mod oracle;
pub mod paths;
pub mod replicator;
pub mod run;
