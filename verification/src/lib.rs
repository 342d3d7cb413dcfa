//! A pattern-matching engine for structured log and text extraction.
//!
//! A caller registers compiled patterns (ordered sequences of literal text
//! fragments and typed field extractors) with a matcher and then asks the
//! matcher which pattern a given input line satisfies, receiving the named
//! fields captured along the way.  Two strategies implement the same matching
//! contract: a sequential-scan matcher that tries patterns in insertion order,
//! and a prefix-indexed matcher that shares common literal prefixes across
//! patterns in a radix-style tree.

pub mod laws;
pub mod linear;
pub mod parsers;
pub mod pattern;
pub mod suffix;
pub mod suites;
pub mod text;
