//! A slot allocator: hands out unused integer identifiers from a range and
//! takes them back for reuse. The free identifiers are kept as a sorted list
//! of disjoint, non-adjacent half-open ranges.
//!
//! - `generator` holds the allocator, `SlotGenerator`, and its errors.
//! - `slot` says what an identifier type must offer; `ints` offers it for
//!   the primitive integer types.
//! - `ranges` is the mathematical model of the free list, on which the
//!   contracts of `generator` are stated.
//! - `history` proves what holds over whole runs of calls.
//!
//! A generator is a plain value without locks: whoever shares one between
//! threads guards it from outside.

pub mod generator;
pub mod history;
pub mod ints;
pub mod ranges;
pub mod slot;

pub use generator::{DoubleRelease, PoolExhausted, SlotGenerator};
pub use slot::Slot;
