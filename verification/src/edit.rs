//! The rules that an edit in the editor is held to.

use vstd::prelude::*;

use crate::error::Error;
use crate::format::frame;
use crate::text::{all_whitespace, is_blank, signed_decimal, signed_text};

verus! {

/// The message of the error for an editor that ended with the status `code`.
pub open spec fn status_message(code: int) -> Seq<char> {
    "Process responded with a non-zero status code: "@ + signed_text(code) + ""@
}

/// The message of the error for an editor that a signal ended.
pub open spec fn interrupted_message() -> Seq<char> {
    "Process was interrupted by signal"@
}

/// The error for an editor that did not end well: with the status `code`,
/// or, where there is none, by a signal.
pub fn editor_failure(code: Option<i32>) -> (error: Error)
    ensures
        error matches Error::Generic(message) && message@ == match code {
            Some(code) => status_message(code as int),
            None => interrupted_message(),
        },
{
    match code {
        Some(code) => Error::Generic(
            frame(
                "Process responded with a non-zero status code: ",
                signed_decimal(code as i64),
                "",
            ),
        ),
        None => Error::Generic(String::from_str("Process was interrupted by signal")),
    }
}

/// The info of a task as the editor left it: none where only white space is
/// left.
pub fn edited_info(contents: String) -> (info: Option<String>)
    ensures
        info == if all_whitespace(contents@) {
            None
        } else {
            Some(contents)
        },
{
    if is_blank(contents.as_str()) {
        None
    } else {
        Some(contents)
    }
}

} // verus!
