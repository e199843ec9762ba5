//! A pool of reusable, zero-filled byte buffers with a total memory budget.
//!
//! Buffers are lent out by opaque handle. Released buffers are kept for
//! best-fit reuse, and evicted (alternately the largest and the smallest
//! free one) when a new allocation would otherwise exceed the budget.

pub mod error;
pub mod ledger;
pub mod pool;
pub mod laws;

pub use error::RBError;
pub use pool::{RBEntry, RustyBuffers};
