//! Read-only disk usage analysis: the verified core of a tool that finds the
//! files and directories using the most space.
//!
//! The program reads a directory tree from disk into a [`RootNode`] without
//! following symbolic links; [`scan`] then totals directory sizes, keeps the
//! entries the [`ScanOptions`] ask for, records what could not be read, and
//! lists the entries largest first. [`human_size`] formats sizes, and
//! [`parse_args`] reads the command line.
#![allow(unused_imports)]

pub mod order;
pub mod entry;
pub mod sort;
pub mod tree;
pub mod text;
pub mod size;
pub mod cli;
pub mod display;
pub mod laws;
pub mod behaviour;

pub use order::{Order, compare_bytes, compare_paths};
pub use entry::{Entry, EntryKind, ScanIssue, ScanOptions, ScanReport, depth_is_visible, disk_usage_bytes, compare_entries};
pub use sort::sort_entries;
pub use tree::{DirItem, Listing, RootNode, ScanError, scan, scan_directory};
pub use text::push_decimal;
pub use size::human_size;
pub use display::{ListingNote, MAX_WARNINGS_TO_PRINT, listing_plan, warning_plan};
pub use cli::{Cli, ParseOutcome, DEFAULT_LIMIT, parse_args, parse_non_negative_usize, parse_positive_usize};
