pub mod entry;
pub mod file;
pub mod header;
pub mod reread;
