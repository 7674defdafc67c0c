//! What is written and told about files, byte by byte.

use vstd::prelude::*;
use vstd::utf8::*;

use crate::error::{IoError, IoErrorKind};
use crate::follow::{header, open_at_end, report_opening, FileState, Opening};
use crate::path::FilePath;
use crate::report::report_path_error;
use crate::text;

verus! {

/// How a path is shown: as the text that its bytes encode, and with replacements where they encode
/// none.
pub open spec fn name_of(path: Seq<u8>) -> Seq<char> {
    if valid_utf8(path) {
        decode_utf8(path)
    } else {
        text::lossy_text(path)
    }
}

/// The line for something that could not be done.
pub open spec fn is_line(
    line: Seq<char>,
    operation: Seq<char>,
    path: Seq<u8>,
    reason: Seq<char>,
) -> bool {
    line == "tailfall: cannot "@ + operation + " "@ + name_of(path) + ": "@ + reason
}

proof fn lemma_encode_add(first: Seq<char>, second: Seq<char>)
    ensures
        encode_utf8(first + second) == encode_utf8(first) + encode_utf8(second),
    decreases first.len(),
{
    if first.len() == 0 {
        assert(first + second =~= second);
    } else {
        lemma_encode_add(first.drop_first(), second);
        assert((first + second).drop_first() =~= first.drop_first() + second);
        assert((first + second)[0] == first[0]);
    }
    assert(encode_utf8(first + second) =~= encode_utf8(first) + encode_utf8(second));
}

/// The header of a file is `==> `, the path of the file, ` <==` and the end of the line. A path that is
/// text stands there byte by byte.
pub proof fn law_header_holds_the_path(path: FilePath, bytes: Vec<u8>)
    requires
        call_ensures(header, (&path,), bytes),
    ensures
        valid_utf8(path@) ==> bytes@ == seq![61u8, 61, 62, 32] + path@ + seq![
            32u8,
            60,
            61,
            61,
            10,
        ],
        !valid_utf8(path@) ==> bytes@ == seq![61u8, 61, 62, 32] + encode_utf8(
            text::lossy_text(path@),
        ) + seq![32u8, 60, 61, 61, 10],
{
    reveal_strlit("==> ");
    reveal_strlit(" <==\n");
    let name = if valid_utf8(path@) {
        decode_utf8(path@)
    } else {
        text::lossy_text(path@)
    };
    lemma_encode_add("==> "@, name);
    lemma_encode_add("==> "@ + name, " <==\n"@);
    is_ascii_chars_encode_utf8("==> "@);
    is_ascii_chars_encode_utf8(" <==\n"@);
    assert(encode_utf8("==> "@) =~= seq![61u8, 61, 62, 32]);
    assert(encode_utf8(" <==\n"@) =~= seq![32u8, 60, 61, 61, 10]);
    if valid_utf8(path@) {
        decode_utf8_encode_utf8(path@);
    }
}

/// Two files whose paths are text have the same header only if their paths are the same.
pub proof fn law_headers_tell_files_apart(
    path: FilePath,
    other: FilePath,
    bytes: Vec<u8>,
    other_bytes: Vec<u8>,
)
    requires
        valid_utf8(path@),
        valid_utf8(other@),
        call_ensures(header, (&path,), bytes),
        call_ensures(header, (&other,), other_bytes),
        bytes@ == other_bytes@,
    ensures
        path@ == other@,
{
    law_header_holds_the_path(path, bytes);
    law_header_holds_the_path(other, other_bytes);
    assert(bytes@.subrange(4, bytes@.len() - 5) =~= path@);
    assert(other_bytes@.subrange(4, other_bytes@.len() - 5) =~= other@);
}

/// A failure is told exactly where that is asked for: what could not be done, to which path, and why.
pub proof fn law_failures_are_told_with_path_and_reason(
    verbose: bool,
    path: FilePath,
    operation: &str,
    error: IoError,
    report: Option<String>,
)
    requires
        call_ensures(report_path_error, (verbose, &path, operation, &error), report),
    ensures
        report is Some <==> verbose,
        report matches Some(line) ==> line@ == "tailfall: cannot "@ + operation@ + " "@ + name_of(
            path@,
        ) + ": "@ + error.message@,
{
}

/// Nothing is told of a file that was opened or that is not there, nor unless that is asked for; of any
/// other it is told whether it could not be opened or not be looked at, and why.
pub proof fn law_openings_are_told(
    verbose: bool,
    path: FilePath,
    opening: Opening,
    report: Option<String>,
)
    requires
        call_ensures(report_opening, (verbose, &path, &opening), report),
    ensures
        !verbose || opening is Opened ==> report is None,
        opening matches Opening::OpenFailed(error) ==> (error.kind == IoErrorKind::NotFound
            ==> report is None),
        opening matches Opening::OpenFailed(error) ==> (verbose && error.kind
            != IoErrorKind::NotFound ==> (report matches Some(line) && is_line(
            line@,
            "open"@,
            path@,
            error.message@,
        ))),
        opening matches Opening::InspectFailed(error) ==> (verbose ==> (report matches Some(line)
            && is_line(line@, "inspect"@, path@, error.message@))),
{
}

/// A file that could be opened at the start is known by its identity, with its length for its place;
/// nothing is known of any other. The same is told as of every opening.
pub proof fn law_files_of_the_start_are_known_at_their_ends(
    verbose: bool,
    path: FilePath,
    opening: Opening,
    result: (Option<FileState>, Option<String>),
    report: Option<String>,
)
    requires
        call_ensures(open_at_end, (verbose, &path, &opening), result),
        call_ensures(report_opening, (verbose, &path, &opening), report),
    ensures
        opening matches Opening::Opened { identity, length } ==> (result.0 matches Some(state)
            && state.identity == identity && state.offset == length),
        !(opening is Opened) ==> result.0 is None,
        result.1 is Some <==> report is Some,
        result.1 matches Some(line) ==> (report matches Some(same) ==> line@ == same@),
{
}

} // verus!
