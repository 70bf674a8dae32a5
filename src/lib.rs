//! Short-circuiting collectors over sequences of fallible values.
//!
//! `try_all` turns a sequence of `Option`s (or `Result`s) into all of their
//! payloads, in order, or into the first failure; `try_map_all` and
//! `try_map_all_opt` do the same while applying a fallible function to each
//! element, and never apply it past the first failure.
pub mod outcome;
pub mod iter;
pub mod map;

pub use iter::{TryAll, TryAllHack};
pub use map::{TryMapAll, TryMapAllOption};
