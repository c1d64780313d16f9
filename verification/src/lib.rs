//! An embedded key-value store with a write-ahead log, checkpoints and
//! recovery.
//!
//! The engine keeps its record set in memory. A put or a delete is written
//! to the log and forced to durable storage before it is applied; a commit
//! writes the record set to a checkpoint under the next version, starts a new
//! log and retires the files of the version before. On opening, the store is
//! recovered from the checkpoint and the log that the version markers name.
//!
//! The engine does no input or output. What it wants done to the files of
//! its directory it hands out as a plan of steps ([`disk::DiskOp`]), and it
//! takes the outcome back. [`disk::Disk`] is a model of the directory on
//! which such plans run; the contracts of the engine, and what is proved of
//! it in [`reads`] and [`recovery`], are stated over that model.

pub mod byte_map;
pub mod bytes;
pub mod checkpoint;
pub mod db;
pub mod disk;
pub mod error;
pub mod files;
pub mod log;
pub mod plans;
pub mod reads;
pub mod records;
pub mod recovery;
