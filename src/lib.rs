//! Extraction of printable text runs from binary data, in the manner of the
//! classic `strings` tool, with verified contracts for every step of the scan.
#![allow(non_snake_case)]

pub mod bytes;
pub mod utf8seq;
pub mod matcher;
pub mod extract;
pub mod partition;
pub mod laws;
pub mod output;

pub use bytes::{fastBadHash, isPrintableASCII};
pub use utf8seq::isUTF8;
pub use matcher::{checkForString, ScanConfig};
pub use extract::{getString, scan, scan_range, Hit};
pub use partition::{detect_workers, plan_chunks, plan_scan, worker_count, ScanError, ScanPlan};
pub use output::format_line;
