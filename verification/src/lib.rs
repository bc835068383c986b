//! Audits operating-system processes against their configured resource
//! limits.
//!
//! The library is the process-state extraction and tree-construction
//! engine: it normalizes the text formats of the kernel's per-process
//! pseudo-files (limits, status, command line) into uniform records,
//! derives parent/child relationships to build a process tree, and
//! classifies each usage dimension against its hard limit.  All file
//! reading stays outside the library; every function here is a pure
//! function from already-read text and counts to records and reports.

pub mod driver;
pub mod evaluate;
pub mod limits;
pub mod record;
pub mod status;
pub mod text;
pub mod tree;
