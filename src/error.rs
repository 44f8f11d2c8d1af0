use vstd::prelude::*;

verus! {

/// std's I/O error, carried through unopened: no contract looks inside it.
#[verifier::external_type_specification]
#[verifier::external_body]
pub struct ExIoError(std::io::Error);

/// Every failure that parsing or executing a line can report.
#[derive(Debug)]
pub enum ShellError {
    /// An operating-system call failed (directory change or query, waiting).
    Io(std::io::Error),
    /// The line is malformed.
    ParseError(String),
    /// A command could not run, or ran and failed.
    CommandError(String),
}

/// The text of a failure, as the contracts speak of it.
pub enum ErrorModel {
    Io(std::io::Error),
    Parse(Seq<char>),
    Command(Seq<char>),
}

impl View for ShellError {
    type V = ErrorModel;

    open spec fn view(&self) -> ErrorModel {
        match self {
            ShellError::Io(e) => ErrorModel::Io(*e),
            ShellError::ParseError(m) => ErrorModel::Parse(m@),
            ShellError::CommandError(m) => ErrorModel::Command(m@),
        }
    }
}

impl From<std::io::Error> for ShellError {
    fn from(err: std::io::Error) -> (r: ShellError)
        ensures
            r == ShellError::Io(err),
    {
        ShellError::Io(err)
    }
}

impl vstd::std_specs::convert::FromSpecImpl<std::io::Error> for ShellError {
    open spec fn obeys_from_spec() -> bool {
        true
    }

    open spec fn from_spec(v: std::io::Error) -> ShellError {
        ShellError::Io(v)
    }
}

} // verus!
