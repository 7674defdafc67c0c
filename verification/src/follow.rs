//! Where a file is read from, and what is put before its data.

use vstd::prelude::*;
use vstd::string::*;
use vstd::utf8::*;

use crate::error::{IoError, IoErrorKind};
use crate::path::FilePath;
use crate::report;
use crate::report::report_path_error;
use crate::text;
use crate::text::read_lossy;

verus! {

/// How much is read from a file at a time.
pub const READ_BUFFER_SIZE: usize = 65536;

/// Whether data is preceded by the name of its file.
#[derive(Clone, Copy, Debug, PartialEq, Eq, Structural)]
pub enum OutputMode {
    Headers,
    Raw,
}

/// What tells one file from another, whatever its path: the device that it is on, and its number
/// there.
#[derive(Clone, Copy, Debug, PartialEq, Eq, Structural)]
pub struct FileIdentity {
    pub device: u64,
    pub inode: u64,
}

/// What is known of a file that is followed: which file it is, and up to where it has been read.
#[derive(Clone, Copy, Debug, PartialEq, Eq, Structural)]
pub struct FileState {
    pub identity: FileIdentity,
    pub offset: u64,
}

/// What came of opening a file and looking at it.
#[derive(Debug)]
pub enum Opening {
    Opened { identity: FileIdentity, length: u64 },
    OpenFailed(IoError),
    InspectFailed(IoError),
}

/// Where reading begins. A file that is followed is read on, unless another file has taken its path
/// or it has become shorter: then it is read from the beginning. A file that is not followed is read
/// from the beginning too, unless it has been there since the start, as far as could be seen: then it
/// is read from its end.
pub open spec fn start_of(
    previous: Option<FileState>,
    was_present_at_startup: bool,
    identity: FileIdentity,
    length: u64,
) -> u64 {
    match previous {
        Some(state) => if state.identity == identity && state.offset <= length {
            state.offset
        } else {
            0
        },
        None => if was_present_at_startup {
            length
        } else {
            0
        },
    }
}

/// Where reading begins.
pub fn start_offset(
    previous: Option<&FileState>,
    was_present_at_startup: bool,
    identity: FileIdentity,
    length: u64,
) -> (offset: u64)
    ensures
        offset == start_of(
            match previous {
                Some(state) => Some(*state),
                None => None,
            },
            was_present_at_startup,
            identity,
            length,
        ),
{
    match previous {
        Some(state) => {
            if state.identity != identity || length < state.offset {
                0
            } else {
                state.offset
            }
        },
        None => {
            if was_present_at_startup {
                length
            } else {
                0
            }
        },
    }
}

/// The line that names a file before its data.
pub open spec fn header_text(path: Seq<u8>) -> Seq<char> {
    "==> "@ + text::shown(path) + " <==\n"@
}

/// The bytes of that line.
pub open spec fn header_of(path: Seq<u8>) -> Seq<u8> {
    encode_utf8(header_text(path))
}

/// The bytes of the line that names a file before its data.
pub fn header(path: &FilePath) -> (bytes: Vec<u8>)
    ensures
        bytes@ == header_of(path@),
{
    let mut line: String = "==> ".to_owned();
    line.append(read_lossy(path.text()).as_str());
    line.append(" <==\n");
    line.as_str().as_bytes_vec()
}

/// What can be told about an opening: that the file could not be opened, unless it is just not
/// there, or that it could not be looked at.
pub open spec fn opening_report(path: Seq<u8>, opening: Opening) -> Option<Seq<char>> {
    match opening {
        Opening::Opened { .. } => None,
        Opening::OpenFailed(error) => if error.kind == IoErrorKind::NotFound {
            None
        } else {
            Some(report::report_text(path, "open"@, error.message@))
        },
        Opening::InspectFailed(error) => Some(
            report::report_text(path, "inspect"@, error.message@),
        ),
    }
}

/// What to tell about an opening, if anything is to be told.
pub fn report_opening(verbose: bool, path: &FilePath, opening: &Opening) -> (report: Option<String>)
    ensures
        report is Some <==> verbose && opening_report(path@, *opening) is Some,
        report matches Some(line) ==> Some(line@) == opening_report(path@, *opening),
{
    match opening {
        Opening::Opened { .. } => None,
        Opening::OpenFailed(error) => {
            if error.kind == IoErrorKind::NotFound {
                None
            } else {
                report_path_error(verbose, path, "open", error)
            }
        },
        Opening::InspectFailed(error) => report_path_error(verbose, path, "inspect", error),
    }
}

/// What is known of a file that is there at the start: it is to be read from its end. Nothing is
/// known of one that cannot be opened.
pub open spec fn state_at_end(opening: Opening) -> Option<FileState> {
    match opening {
        Opening::Opened { identity, length } => Some(FileState { identity, offset: length }),
        _ => None,
    }
}

/// The state of a file that is there at the start, and what to tell about it.
pub fn open_at_end(verbose: bool, path: &FilePath, opening: &Opening) -> (result: (
    Option<FileState>,
    Option<String>,
))
    ensures
        result.0 == state_at_end(*opening),
        result.1 is Some <==> verbose && opening_report(path@, *opening) is Some,
        result.1 matches Some(line) ==> Some(line@) == opening_report(path@, *opening),
{
    let state: Option<FileState> = match opening {
        Opening::Opened { identity, length } => Some(
            FileState { identity: *identity, offset: *length },
        ),
        _ => None,
    };
    (state, report_opening(verbose, path, opening))
}

} // verus!
