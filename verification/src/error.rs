//! The error type of the parser and the evaluator.

use vstd::prelude::*;

verus! {

/// An error with a human-readable reason.
#[derive(Debug, Clone)]
pub enum Error {
    Reason(String),
}

/// What `{:?}` writes for the string `s`: `s` between double quotes, with
/// the characters that need it escaped.
pub uninterp spec fn debug_str(s: Seq<char>) -> Seq<char>;

/// `<str as Debug>::fmt`, called through `format!("{:?}", s)`. What it writes
/// is a function of `s` alone, which the contract names `debug_str`; the
/// contract says nothing more of it.
#[verifier::external_body]
fn debug_text(s: &str) -> (r: String)
    ensures
        r@ == debug_str(s@),
{
    format!("{:?}", s)
}

/// The text of an error with the reason `reason` as it is written where an
/// error stands in a message: as `{:?}` writes it, `Reason("...")`.
pub open spec fn display_of(reason: Seq<char>) -> Seq<char> {
    "Reason("@ + debug_str(reason) + ")"@
}

impl Error {
    /// The reason given by this error.
    pub open spec fn spec_reason(self) -> Seq<char> {
        match self {
            Error::Reason(r) => r@,
        }
    }

    /// The text of this error as it is written where an error stands in a
    /// message (see `display_of`).
    pub open spec fn spec_display(self) -> Seq<char> {
        display_of(self.spec_reason())
    }

    /// An error whose reason is `str`.
    pub fn reason(str: &str) -> (e: Self)
        ensures
            e.spec_reason() == str@,
    {
        Error::Reason(str.to_owned())
    }

    /// The text of this error as it is written where an error stands in a
    /// message (see `spec_display`).
    pub fn display(&self) -> (s: String)
        ensures
            s@ == self.spec_display(),
    {
        match self {
            Error::Reason(r) => {
                let mut s = "Reason(".to_owned();
                s.append(debug_text(r.as_str()).as_str());
                s.append(")");
                s
            },
        }
    }
}

} // verus!
