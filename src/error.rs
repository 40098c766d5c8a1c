//! Errors of the file layer: which operation failed, on which file, why.
use vstd::prelude::*;
use vstd::string::StringExecFns;

verus! {

/// The file operation that failed.
#[derive(PartialEq, Eq, Structural, Clone, Copy, Debug)]
pub enum PackFsErrorOpt {
    Read,
    Write,
    Dir,
    Remove,
    Stat,
    Move,
}

pub open spec fn opt_text(opt: PackFsErrorOpt) -> Seq<char> {
    match opt {
        PackFsErrorOpt::Read => "read"@,
        PackFsErrorOpt::Write => "write"@,
        PackFsErrorOpt::Dir => "create dir"@,
        PackFsErrorOpt::Remove => "remove"@,
        PackFsErrorOpt::Stat => "stat"@,
        PackFsErrorOpt::Move => "move"@,
    }
}

impl PackFsErrorOpt {
    /// How the operation is named in messages.
    pub fn as_str(&self) -> (r: &'static str)
        ensures
            r@ == opt_text(*self),
    {
        match self {
            PackFsErrorOpt::Read => "read",
            PackFsErrorOpt::Write => "write",
            PackFsErrorOpt::Dir => "create dir",
            PackFsErrorOpt::Remove => "remove",
            PackFsErrorOpt::Stat => "stat",
            PackFsErrorOpt::Move => "move",
        }
    }
}

/// How a caller should weigh an error.
#[derive(PartialEq, Eq, Structural, Clone, Copy, Debug)]
pub enum Severity {
    Warning,
    Error,
}

#[verifier::external_type_specification]
#[verifier::external_body]
pub struct ExIoError(std::io::Error);

/// A failed file operation: a warning for the caller, who treats the cache
/// as unavailable rather than failing the build.
pub struct PackFsError {
    pub file: String,
    pub inner: String,
    pub opt: PackFsErrorOpt,
}

impl PackFsError {
    /// The error of `opt` on `file`, caused by an I/O error.
    pub fn from_io_error(file: &str, opt: PackFsErrorOpt, error: std::io::Error) -> (r: PackFsError)
        ensures
            r.file@ == file@,
            r.opt == opt,
            vstd::string::to_string_from_display_ensures::<std::io::Error>(&error, r.inner),
    {
        PackFsError { file: file.to_owned(), inner: error.to_string(), opt }
    }

    /// The error of `opt` on `file`, with the message of what caused it.
    pub fn from_fs_error(file: &str, opt: PackFsErrorOpt, error: String) -> (r: PackFsError)
        ensures
            r.file@ == file@,
            r.opt == opt,
            r.inner == error,
    {
        PackFsError { file: file.to_owned(), inner: error, opt }
    }

    /// A storage failure is a warning: the cache is unavailable, and the
    /// build goes on.
    pub fn severity(&self) -> (r: Severity)
        ensures
            r == Severity::Warning,
    {
        Severity::Warning
    }

    /// The message of the error.
    pub fn message(&self) -> (r: String)
        ensures
            r@ == "Rspack Storage FS Error: "@ + opt_text(self.opt) + " `"@ + self.file@ + "` failed with `"@
                + self.inner@ + "`"@,
    {
        let mut r = String::from_str("Rspack Storage FS Error: ");
        r.append(self.opt.as_str());
        r.append(" `");
        r.append(self.file.as_str());
        r.append("` failed with `");
        r.append(self.inner.as_str());
        r.append("`");
        r
    }
}

} // verus!
