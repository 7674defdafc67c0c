//! What is told about files and directories that cannot be read.

use vstd::prelude::*;

use crate::error::IoError;
use crate::path::FilePath;
use crate::text;
use crate::text::read_lossy;

verus! {

/// The words for an operation that failed on a path.
pub open spec fn report_text(path: Seq<u8>, operation: Seq<char>, reason: Seq<char>) -> Seq<char> {
    "tailfall: cannot "@ + operation + " "@ + text::shown(path) + ": "@ + reason
}

/// What to tell about an operation that failed on a path: nothing, unless that was asked for.
pub fn report_path_error(
    verbose: bool,
    path: &FilePath,
    operation: &str,
    error: &IoError,
) -> (report: Option<String>)
    ensures
        report is Some <==> verbose,
        report matches Some(line) ==> line@ == report_text(path@, operation@, error.message@),
{
    if !verbose {
        return None;
    }
    let mut line: String = "tailfall: cannot ".to_owned();
    line.append(operation);
    line.append(" ");
    line.append(read_lossy(path.text()).as_str());
    line.append(": ");
    line.append(error.message.as_str());
    Some(line)
}

} // verus!
