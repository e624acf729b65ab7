//! Format data from a history entry.

pub mod escapes;
pub mod options;
pub mod tables;

pub use escapes::EscapeArgument;
pub use options::FormatOptions;
pub use tables::TableWriter;
