//! Maintenance of Rime input-method dictionaries: parsing and rendering of
//! dictionary entries and YAML headers, a per-character code table built from
//! a dictionary, Wubi 86 phrase encoding, and the edits that add a word to the
//! extra dictionary of a Rime Wubi setup.
pub mod dict;
pub mod encoder;
pub mod error;
pub mod extra;
pub mod rime;
pub mod session;
pub mod text;
