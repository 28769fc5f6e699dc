//! The two kinds of failure that the rules of a vault can report.

use vstd::prelude::*;

verus! {

/// A failure reported by the library.
#[derive(Debug)]
pub enum Error {
    /// The user asked for something that cannot be done; the message says why.
    Generic(String),
    /// The program broke one of its own rules; the message says which.
    Internal(String),
}

impl Error {
    /// The message that the error carries.
    pub open spec fn message(self) -> Seq<char> {
        match self {
            Error::Generic(message) => message@,
            Error::Internal(message) => message@,
        }
    }

    /// The words that tell the kind of this error.
    pub open spec fn kind(self) -> Seq<char> {
        match self {
            Error::Generic(_) => "Error:"@,
            Error::Internal(_) => "Internal Error:"@,
        }
    }

    /// The line shown for this error: the words that tell its kind, as
    /// `shown` shows them, a space, and the message.
    pub open spec fn line(self, shown: Seq<char>) -> Seq<char> {
        shown + " "@ + self.message()
    }

    /// The line to show for this error: the words that tell its kind, in
    /// bold and in the colour of errors, a space, and the message.
    pub fn to_string(&self) -> (line: String)
        ensures
            exists|shown: Seq<char>|
                crate::format::is_painted(self.kind(), crate::format::ERROR, true, shown)
                    && line@ == #[trigger] self.line(shown),
    {
        let (heading, message) = match self {
            Error::Generic(message) => (crate::format::error("Error:"), message),
            Error::Internal(message) => (crate::format::error("Internal Error:"), message),
        };
        let mut line = heading;
        let ghost shown = line@;
        line.append(" ");
        line.append(message.as_str());
        assert(line@ == self.line(shown));
        line
    }
}

} // verus!
