//! Parsing of SSH client configuration text into host entries.

pub mod entry;
pub mod laws;
pub mod parser;
pub mod path;
pub mod text;

pub use entry::{HostEntry, HostEntryView};
pub use parser::parse_config_lines;
