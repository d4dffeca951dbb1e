//! Linked records on an append-only ledger.
//!
//! Each record says which game it is about and names the record before it, so
//! that the records form a chain from the first one to the newest. This
//! library holds the rules of that chain:
//!
//! - [`codec`]: the written form of a record, and reading it back;
//! - [`publisher`]: how the chain grows by a record, and when the checkpoint
//!   moves on;
//! - [`walker`]: how the chain is read back from a record to the first one;
//! - [`history`]: what a whole walk ends with on a ledger that does not
//!   change;
//! - [`checkpoint`]: the text under which the newest record is remembered
//!   between runs;
//! - [`block_id`], [`payload`], [`escape`], [`error`]: identifiers, tagged
//!   payloads, quoted text and failures.
//!
//! The library does not reach the ledger, the data source or the disk. The
//! publisher and the walker are told what happened there and say what is to
//! be done next; the program around them does it.

pub mod block_id;
pub mod checkpoint;
pub mod codec;
pub mod error;
pub mod escape;
pub mod history;
pub mod payload;
pub mod publisher;
pub mod walker;
