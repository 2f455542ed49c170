//! The error record attached to one path.

use vstd::prelude::*;

verus! {

/// An error met while processing one path: the path together with the
/// message of the underlying I/O failure.
#[derive(Debug)]
pub struct DupError {
    path: String,
    io_error: String,
}

/// The mathematical value of a [`DupError`]: both fields as character
/// sequences.
pub struct ErrorModel {
    pub path: Seq<char>,
    pub io_error: Seq<char>,
}

impl View for DupError {
    type V = ErrorModel;

    closed spec fn view(&self) -> ErrorModel {
        ErrorModel { path: self.path@, io_error: self.io_error@ }
    }
}

/// The hard validation error of the entry points: an input path that is not
/// what the entry point asks for. Unlike a [`DupError`], it aborts the call
/// before any grouping work.
#[derive(Debug)]
pub enum InputError {
    /// The path was handed in as a file to check but is not a regular file.
    NotAFile(String),
    /// The path was handed in as a directory to search but is not a
    /// directory.
    NotADirectory(String),
}

/// The mathematical value of an [`InputError`].
pub enum InputErrorModel {
    NotAFile(Seq<char>),
    NotADirectory(Seq<char>),
}

impl View for InputError {
    type V = InputErrorModel;

    open spec fn view(&self) -> InputErrorModel {
        match *self {
            InputError::NotAFile(p) => InputErrorModel::NotAFile(p@),
            InputError::NotADirectory(p) => InputErrorModel::NotADirectory(p@),
        }
    }
}

/// The mathematical value of a validation outcome.
pub open spec fn input_result_model(r: Result<(), InputError>) -> Result<(), InputErrorModel> {
    match r {
        Ok(_) => Ok(()),
        Err(e) => Err(e@),
    }
}

/// The mathematical value of a sequence of errors.
pub open spec fn errors_model(es: Seq<DupError>) -> Seq<ErrorModel> {
    es.map_values(|e: DupError| e@)
}

/// Appending an error appends its mathematical value.
pub proof fn lemma_errors_model_push(es: Seq<DupError>, e: DupError)
    ensures
        errors_model(es.push(e)) == errors_model(es).push(e@),
{
    assert(errors_model(es.push(e)) =~= errors_model(es).push(e@));
}

impl DupError {
    /// Creates an error record for `path` carrying `io_error`.
    pub fn new(path: String, io_error: String) -> (e: DupError)
        ensures
            e@.path == path@,
            e@.io_error == io_error@,
    {
        DupError { path, io_error }
    }

    /// The path that could not be processed.
    pub fn path(&self) -> (p: &String)
        ensures
            p@ == self@.path,
    {
        &self.path
    }

    /// The message of the underlying I/O failure.
    pub fn io_error(&self) -> (m: &String)
        ensures
            m@ == self@.io_error,
    {
        &self.io_error
    }
}

} // verus!
