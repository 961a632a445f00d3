//! Concurrent compilation-record synchronization engine.
//!
//! Each invocation of the shim records "file F in directory D was compiled
//! with argument list A" facts into a single shared database file.  This
//! crate holds the verified core: the record model with its deterministic
//! total order, the canonical database representation, the read-merge-write
//! planning logic, and the serialization format of the database file.
//! The surrounding process (file creation, the exclusive cross-process lock,
//! reading and writing the file, and launching the real compiler) lives
//! outside the library and hands plain values in and out.

pub mod order;
pub mod record;
pub mod db;
pub mod merge;
pub mod codec;
pub mod engine;
pub mod shim;
