//! A log-rotation writer: lines of text are appended to an active output
//! file, and once the file reaches a configured size threshold it is rotated
//! into a bounded chain of numbered backups (`base.1`, `base.2`, ...), the
//! oldest generation being evicted.
//!
//! This crate holds the verified engine: the naming scheme for generations,
//! the rotation plan and its semantics over a model of the file system, and
//! the byte-counting state machine of the write loop. The surrounding
//! process (locking, real file I/O, reading standard input) drives the
//! engine from outside.

pub mod fsmodel;
pub mod names;
pub mod plan;
pub mod simfs;
pub mod writer;
