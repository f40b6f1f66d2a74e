//! Memory core of a small language runtime: a conservative, stop-the-world,
//! mark-and-sweep collector, together with the text and map helpers that
//! compiled programs call alongside it.
//!
//! The collector never touches raw memory itself.  Addresses and words are
//! plain 64-bit integers; the embedding runtime hands in a snapshot of the
//! memory to scan and carries out the allocations and releases that the
//! collector decides on.

pub mod gc;
pub mod intmap;
pub mod laws;
pub mod model;
pub mod text;
pub mod words;
