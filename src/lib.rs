//! Reduce a sequence of decoded records one element at a time, without ever
//! holding the whole sequence in memory.
//!
//! A format parser hands the records over one by one; each is fed into a
//! reduction step and only the accumulator survives. Once a step asks to
//! stop, the remaining records are still pulled from the parser and dropped,
//! so that the parser's cursor always ends past the sequence.
//!
//! Two entry points share one engine: [`deep`] runs named, stateless
//! aggregators wherever a sequence sits in a document, and [`top_level`] runs
//! closures over a sequence that makes up the whole document.

pub mod deep;
pub mod top_level;
