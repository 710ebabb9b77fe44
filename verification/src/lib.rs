//! Synchronizes a canonical license header across source files: renders a raw
//! license template into a per-file-type comment block, detects whether a
//! file's leading bytes already carry that block, and computes the exact new
//! contents for inserting or stripping it.  All text is modelled as bytes, so
//! every operation has an exact specification over `Seq<u8>`.

pub mod bytes;
pub mod config;
pub mod license;
