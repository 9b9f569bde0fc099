//! Random access to line-wrapped sequence files through a per-record layout index.

pub mod layout;
pub mod source;
pub mod index;
pub mod reader;
pub mod record;
