//! A continuous persistence sink: the decisions of the operators that keep an
//! append-only, multi-version shard in step with a desired, changing relation.
//!
//! Timestamps are `u64`, totally ordered, so a frontier is either a single time
//! or the empty frontier. The operators are state machines: a driver feeds them
//! input events and performs the actions they hand back (uploads, commits,
//! deletions, capability downgrades).

mod appender;
mod correction;
mod frontier;
mod leader;
mod minter;
mod tls;
mod writer;

pub use frontier::{Description, Frontier};
pub use correction::{consolidate, Update};
pub use writer::{BatchRequest, Writer, WriterError};
pub use minter::{EmptyAppend, Minter, MinterPhase};
pub use appender::{Appender, AppenderError, CommitRequest};
pub use leader::{is_leader, leader_worker, payload_worker, worker_of_hash};
pub use tls::TlsMode;
