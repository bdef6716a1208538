//! A single-consumer read-ahead engine over a ring of fixed-size slots.
//!
//! The library holds every decision of the pipeline: which block each slot
//! requests, when a slot may be copied from, when it is recycled, and what a
//! completion does to the ring. The caller performs the reads that the
//! library asks for and hands each completion back.
pub mod buffer;
pub mod reader;
