//! Detect a corrected content hash in a build tool's diagnostic output and
//! rewrite the matching `key = "value";` assignment line in a configuration
//! file, preserving indentation.
//!
//! The library holds the verified logic: classifying diagnostic lines,
//! folding a stream of tagged output lines into a build result, and the
//! line-oriented, indentation-preserving rewrite. Reading files, writing
//! files and running the build process live outside the library and hand
//! it plain strings.

pub mod chars;
pub mod rewrite;
pub mod runner;
pub mod laws;
