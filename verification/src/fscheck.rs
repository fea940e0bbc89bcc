use vstd::prelude::*;

verus! {

/// What the file system answered when asked whether a name is a regular
/// file. Only `check_file` makes one, so a check always records the name
/// that was really asked about.
pub struct FileCheck {
    path: String,
    answer: bool,
}

impl FileCheck {
    /// The name that was asked about.
    pub closed spec fn path(&self) -> Seq<char> {
        self.path@
    }

    /// What the file system answered.
    pub closed spec fn answer(&self) -> bool {
        self.answer
    }

    /// The name that was asked about.
    pub fn name(&self) -> (r: &str)
        ensures
            r@ == self.path(),
    {
        self.path.as_str()
    }

    /// What the file system answered.
    pub fn is_file(&self) -> (r: bool)
        ensures
            r == self.answer(),
    {
        self.answer
    }
}

/// Asks the file system, through `std::path::Path::is_file`, whether `path`
/// names an existing regular file. The check is claimed to record `path` as
/// the name asked about; nothing is claimed of the answer, which depends on
/// what is on disk.
#[verifier::external_body]
pub(crate) fn check_file(path: &str) -> (r: FileCheck)
    ensures
        r.path() == path@,
{
    FileCheck { path: path.to_string(), answer: std::path::Path::new(path).is_file() }
}

} // verus!
