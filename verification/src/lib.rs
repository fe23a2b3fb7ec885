//! Verified core of a digest-search pipeline: a SHA-1 digest engine, an
//! enumerator of all printable-ASCII candidate strings up to a bounded
//! length, a dispatcher that turns candidates into formatted records, and
//! the sink's throughput counter.

pub mod digest;
pub mod enumerate;
pub mod dispatch;
pub mod sink;
