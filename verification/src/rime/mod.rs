pub mod deploy;
pub mod dir;
pub mod path;
