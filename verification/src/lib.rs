//! Buffer bookkeeping for moving reads and writes into a background thread.
//!
//! The reading side ([`read`]) and the writing side ([`write`]) exchange
//! fixed-size buffers between a foreground and a background party.  This
//! crate holds the decisions of both parties as verified step functions:
//! given the current state and what the last outside call produced, each
//! step says what the state becomes and what has to happen next.

pub mod circulation;
pub mod ending;
pub mod fuzz;
pub mod read;
pub mod write;
