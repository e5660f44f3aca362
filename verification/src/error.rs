//! The errors of the tool, with their messages.
use std::io;
use std::path::PathBuf;
use vstd::prelude::*;

use crate::text::{chars_of, push_chars, string_of};

verus! {

/// `std::io::Error`, carried as an opaque value.
#[verifier::external_type_specification]
#[verifier::external_body]
pub struct ExIoError(io::Error);

/// The errors of the tool.
#[derive(Debug)]
pub enum AppError {
    Io(io::Error),
    DictNotFound(PathBuf),
    HeaderMissing(String),
    RimeDirNotFound,
    EncodeFailed(String),
}

/// The text of an I/O error (its `Display`). Nothing is stated of it: it
/// comes from the operating system.
#[verifier::external_body]
fn io_error_text(e: &io::Error) -> String {
    e.to_string()
}

/// The text that `Path::display` shows for a path (paths that are not
/// Unicode are shown lossily).
pub uninterp spec fn displayed_path(p: PathBuf) -> Seq<char>;

/// `Path::display`, written to a string: the text is a function of the
/// path alone.
#[verifier::external_body]
fn path_text(p: &PathBuf) -> (r: String)
    ensures
        r@ == displayed_path(*p),
{
    p.display().to_string()
}

/// `prefix` followed by `rest`.
fn join(prefix: &str, rest: &String) -> (r: String)
    ensures
        r@ == prefix@ + rest@,
{
    let mut v = chars_of(prefix);
    let w = chars_of(rest.as_str());
    push_chars(&mut v, w.as_slice());
    string_of(v.as_slice())
}

impl AppError {
    /// The message shown for this error.
    pub fn message(&self) -> (r: String)
        ensures
            match self {
                AppError::Io(_) => exists|t: Seq<char>| r@ == "IO 错误: "@ + t,
                AppError::DictNotFound(path) => r@ == "码表不存在: "@ + displayed_path(*path),
                AppError::HeaderMissing(dict) => r@ == dict@ + " 缺少 YAML header 结束符"@,
                AppError::RimeDirNotFound => r@
                    == "未找到 Rime 用户目录，请通过 -d 指定或设置 RIME_USER_DIR 环境变量"@,
                AppError::EncodeFailed(word) => r@ == "存在未收录的字，无法自动编码: "@ + word@,
            },
    {
        match self {
            AppError::Io(e) => join("IO 错误: ", &io_error_text(e)),
            AppError::DictNotFound(path) => join("码表不存在: ", &path_text(path)),
            AppError::HeaderMissing(dict) => {
                let tail = string_of(chars_of(" 缺少 YAML header 结束符").as_slice());
                let mut v = chars_of(dict.as_str());
                let t = chars_of(tail.as_str());
                push_chars(&mut v, t.as_slice());
                string_of(v.as_slice())
            },
            AppError::RimeDirNotFound => string_of(
                chars_of("未找到 Rime 用户目录，请通过 -d 指定或设置 RIME_USER_DIR 环境变量").as_slice(),
            ),
            AppError::EncodeFailed(word) => join("存在未收录的字，无法自动编码: ", word),
        }
    }
}

impl From<io::Error> for AppError {
    fn from(e: io::Error) -> (r: Self) {
        AppError::Io(e)
    }
}

impl vstd::std_specs::convert::FromSpecImpl<io::Error> for AppError {
    open spec fn obeys_from_spec() -> bool {
        true
    }

    open spec fn from_spec(v: io::Error) -> Self {
        AppError::Io(v)
    }
}

/// The result of the tool's fallible operations.
pub type AppResult<T> = Result<T, AppError>;

} // verus!
