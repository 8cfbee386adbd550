//! Placement of floats inside a zone of fixed inline size, after CSS 2.1 § 9.5.1.
//!
//! A zone keeps the outline of what has been excluded so far as a list of bands,
//! held in a splay tree keyed by block position. Objects are placed against the
//! left or right edge at the topmost band that has room for them.

pub mod arrange;
pub mod band;
pub mod exclusions;
pub mod map;
pub mod node;
pub mod units;
mod walk;
