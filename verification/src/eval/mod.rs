//! Function evaluation bookkeeping.
pub mod cache;
