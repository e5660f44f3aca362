//! Filesystem paths as the library builds them from text.
use std::path::PathBuf;
use vstd::prelude::*;

verus! {

/// `std::path::PathBuf`, carried through the library as an opaque value.
#[verifier::external_type_specification]
#[verifier::external_body]
pub struct ExPathBuf(PathBuf);

/// The path that `PathBuf::from` makes of a text.
pub uninterp spec fn path_from_text(text: Seq<char>) -> PathBuf;

/// `PathBuf::from(&str)`: the path is a function of the text alone.
#[verifier::external_body]
pub fn path_buf_from(text: &str) -> (p: PathBuf)
    ensures
        p == path_from_text(text@),
{
    PathBuf::from(text)
}

/// The path that `Path::join` makes of a base path and a relative text.
pub uninterp spec fn joined_path(base: PathBuf, rel: Seq<char>) -> PathBuf;

/// `Path::join`: the path is a function of the base path and the text alone.
#[verifier::external_body]
pub fn path_join(base: &PathBuf, rel: &str) -> (p: PathBuf)
    ensures
        p == joined_path(*base, rel@),
{
    base.join(rel)
}

/// `Path::exists`: whether the path names something on disk when asked.
/// Nothing is stated of the answer, which depends on the filesystem.
#[verifier::external_body]
pub fn path_exists(p: &PathBuf) -> bool {
    p.exists()
}

} // verus!
