//! What can end a run: a file that cannot be read or written, a wrong number
//! of arguments, input that does not parse, a record missing from the
//! capacity pools.
use crate::representation::ParseError;
use crate::solution::SolutionError;
use vstd::prelude::*;
use vstd::std_specs::convert::FromSpecImpl;
use vstd::string::StringExecFns;

verus! {

/// Whether a file was to be read or written.
#[derive(Debug)]
pub enum FileMode {
    Read,
    Write,
}

/// A file that could not be read or written, by the name of its role.
#[derive(Debug)]
pub struct FileHandlingError {
    pub name: String,
    pub mode: FileMode,
}

/// The text between the opening words and the closing words of the message.
pub open spec fn file_error_message(name: Seq<char>, mode: FileMode) -> Seq<char> {
    match mode {
        FileMode::Read => "Failed to read the "@ + name + " file."@,
        FileMode::Write => "Failed to write the "@ + name + " file."@,
    }
}

impl FileHandlingError {
    /// The file called `name` could not be read.
    pub fn read_error(name: &str) -> (e: Self)
        ensures
            e.name@ == name@,
            e.mode == FileMode::Read,
    {
        FileHandlingError { name: name.to_owned(), mode: FileMode::Read }
    }

    /// The file called `name` could not be written.
    pub fn write_error(name: &str) -> (e: Self)
        ensures
            e.name@ == name@,
            e.mode == FileMode::Write,
    {
        FileHandlingError { name: name.to_owned(), mode: FileMode::Write }
    }

    /// The message shown to the user.
    pub fn to_string(&self) -> (s: String)
        ensures
            s@ == file_error_message(self.name@, self.mode),
    {
        let mut s = String::new();
        match self.mode {
            FileMode::Read => s.append("Failed to read the "),
            FileMode::Write => s.append("Failed to write the "),
        }
        s.append(self.name.as_str());
        s.append(" file.");
        assert(s@ =~= file_error_message(self.name@, self.mode));
        s
    }
}

/// Why a run ended without a report.
#[derive(Debug)]
pub enum ProgramError {
    FileHandlingError(FileHandlingError),
    WrongNumberOfArguments,
    ParseError,
    SolutionError,
}

/// The message for each kind of failure.
pub open spec fn program_error_message(e: ProgramError) -> Seq<char> {
    match e {
        ProgramError::FileHandlingError(err) => file_error_message(err.name@, err.mode),
        ProgramError::WrongNumberOfArguments => "Must enter exactly 4 arguments."@,
        ProgramError::ParseError => "Failed to parse file."@,
        ProgramError::SolutionError => "The solution failed due to programmer error."@,
    }
}

impl ProgramError {
    /// The message shown to the user.
    pub fn to_string(&self) -> (s: String)
        ensures
            s@ == program_error_message(*self),
    {
        match self {
            ProgramError::FileHandlingError(err) => err.to_string(),
            ProgramError::WrongNumberOfArguments => "Must enter exactly 4 arguments.".to_owned(),
            ProgramError::ParseError => "Failed to parse file.".to_owned(),
            ProgramError::SolutionError => "The solution failed due to programmer error.".to_owned(),
        }
    }
}

impl From<FileHandlingError> for ProgramError {
    fn from(value: FileHandlingError) -> (e: Self) {
        ProgramError::FileHandlingError(value)
    }
}

impl FromSpecImpl<FileHandlingError> for ProgramError {
    open spec fn obeys_from_spec() -> bool {
        true
    }

    open spec fn from_spec(value: FileHandlingError) -> Self {
        ProgramError::FileHandlingError(value)
    }
}

impl From<ParseError> for ProgramError {
    fn from(value: ParseError) -> (e: Self) {
        ProgramError::ParseError
    }
}

impl FromSpecImpl<ParseError> for ProgramError {
    open spec fn obeys_from_spec() -> bool {
        true
    }

    open spec fn from_spec(value: ParseError) -> Self {
        ProgramError::ParseError
    }
}

impl From<SolutionError> for ProgramError {
    fn from(value: SolutionError) -> (e: Self) {
        ProgramError::SolutionError
    }
}

impl FromSpecImpl<SolutionError> for ProgramError {
    open spec fn obeys_from_spec() -> bool {
        true
    }

    open spec fn from_spec(value: SolutionError) -> Self {
        ProgramError::SolutionError
    }
}

} // verus!
