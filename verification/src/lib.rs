//! Parsing of `ping` command output into structured statistics.
//!
//! The library detects whether a raw output text came from a Windows-style
//! or a Unix-style `ping` implementation, extracts packet counts, the packet
//! loss percentage and round-trip-time statistics from it, and renders the
//! result as a human-readable report. Malformed input never fails: fields
//! that cannot be extracted stay absent, and a report with no fields at all
//! degrades to a fixed fallback line.

pub mod num;
pub mod pages;
pub mod parse;
pub mod report;
pub mod stats;
pub mod text;
