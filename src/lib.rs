//! An interpreter for the eight-instruction tape language: a verified
//! execution engine with lazily resolved, cached loop jumps.
pub mod interpreter;
pub mod machine;
