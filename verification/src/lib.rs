//! Parser for the ninja build log format.
//!
//! A log file consists of one header line declaring the format version,
//! followed by record lines: five tab-separated fields per line giving the
//! start offset, end offset, timestamp, output name and content hash of one
//! completed build step. Lines whose first byte is `#` are comments and are
//! skipped.

pub mod scan;
pub mod header;
pub mod record;
pub mod log;
