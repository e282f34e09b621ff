//! File-aggregation core: pattern-based file discovery, layered ignore
//! filtering, binary/size/line-count classification, and size-balanced
//! distribution of the selected files into output chunks.
use vstd::prelude::*;

pub mod classifier;
pub mod cli;
pub mod collector;
pub mod distributor;
pub mod git_status_handler;
pub mod github_handler;
pub mod ignore_files_helper;
pub mod output_names;
pub mod pattern_matcher;
pub mod strutil;
pub mod temp_manager;

verus! {

/// The byte-size ceiling above which a file is classified as binary
/// without its content being examined.
pub const BINARY_SIZE_CEILING: u64 = 1_000_000;

/// How many leading bytes of a file are sniffed for null bytes.
pub const BINARY_SNIFF_PREFIX: usize = 1024;

} // verus!
