//! What went wrong while a directory tree was walked.

use vstd::prelude::*;
use vstd::string::*;

verus! {

/// A file or directory that could not be processed, and why.
#[derive(Debug, PartialEq)]
pub struct FileTraverseError {
    pub path: String,
    pub message: String,
}

/// What is reported of a path that is no directory.
pub open spec fn not_a_directory_text(name: Seq<char>) -> Seq<char> {
    "Not a directory: "@ + name
}

/// What is reported of a file that could not be processed.
pub open spec fn traverse_error_text(path: Seq<char>, message: Seq<char>) -> Seq<char> {
    "Error processing file "@ + path + " ("@ + message + ")"@
}

/// What is reported of a path that is no directory.
pub fn not_a_directory(name: &str) -> (r: String)
    ensures
        r@ == not_a_directory_text(name@),
{
    let mut r = String::new();
    r.append("Not a directory: ");
    r.append(name);
    assert(r@ =~= not_a_directory_text(name@));
    r
}

impl FileTraverseError {
    /// The error for a path that is no directory.
    pub fn for_non_directory(path: &str) -> (e: FileTraverseError)
        ensures
            e.path@ == path@,
            e.message@ == not_a_directory_text(path@),
    {
        FileTraverseError { path: path.to_owned(), message: not_a_directory(path) }
    }

    /// The error as one line.
    pub fn to_text(&self) -> (r: String)
        ensures
            r@ == traverse_error_text(self.path@, self.message@),
    {
        let mut r = String::new();
        r.append("Error processing file ");
        r.append(self.path.as_str());
        r.append(" (");
        r.append(self.message.as_str());
        r.append(")");
        assert(r@ =~= traverse_error_text(self.path@, self.message@));
        r
    }
}

} // verus!
