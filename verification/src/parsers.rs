//! The three ways in which terms are framed in a buffer.

pub mod bert1;
pub mod bert2;
pub mod disk_log;

pub use bert1::Bert1Parser;
pub use bert2::Bert2Parser;
pub use disk_log::DiskLogParser;
