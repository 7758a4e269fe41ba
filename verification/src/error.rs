//! The errors of the parser and of the value projector.

use vstd::prelude::*;

verus! {

/// Why a document or a declaration was rejected. Every error names the
/// document and a line.
#[derive(Debug, Clone, PartialEq)]
pub enum Error {
    /// The text does not follow the grammar; the message says how.
    ParseError { message: String, doc_id: String, line_number: usize },
    /// A section was expected and the next line with text does not open one.
    SectionNotFound { doc_id: String, line_number: usize },
    /// A caption was opened for a section that already has one.
    MoreThanOneCaption { doc_id: String, line_number: usize },
}

/// The value of an error.
pub enum ErrorModel {
    ParseError { message: Seq<char>, doc_id: Seq<char>, line_number: nat },
    SectionNotFound { doc_id: Seq<char>, line_number: nat },
    MoreThanOneCaption { doc_id: Seq<char>, line_number: nat },
}

impl View for Error {
    type V = ErrorModel;

    open spec fn view(&self) -> ErrorModel {
        match self {
            Error::ParseError { message, doc_id, line_number } => ErrorModel::ParseError {
                message: message@,
                doc_id: doc_id@,
                line_number: *line_number as nat,
            },
            Error::SectionNotFound { doc_id, line_number } => ErrorModel::SectionNotFound {
                doc_id: doc_id@,
                line_number: *line_number as nat,
            },
            Error::MoreThanOneCaption { doc_id, line_number } => ErrorModel::MoreThanOneCaption {
                doc_id: doc_id@,
                line_number: *line_number as nat,
            },
        }
    }
}

impl Error {
    /// A `ParseError` with the message `message`.
    pub fn plain(message: &str, doc_id: &str, line_number: usize) -> (e: Error)
        ensures
            e@ == (ErrorModel::ParseError {
                message: message@,
                doc_id: doc_id@,
                line_number: line_number as nat,
            }),
    {
        Error::ParseError { message: message.to_owned(), doc_id: doc_id.to_owned(), line_number }
    }

    /// A `ParseError` whose message is `prefix` and then `detail`.
    pub fn detailed(prefix: &str, detail: &Vec<char>, doc_id: &str, line_number: usize) -> (e:
        Error)
        ensures
            e@ == (ErrorModel::ParseError {
                message: prefix@ + detail@,
                doc_id: doc_id@,
                line_number: line_number as nat,
            }),
    {
        let mut message = prefix.to_owned();
        crate::text::push_chars(&mut message, detail);
        Error::ParseError { message, doc_id: doc_id.to_owned(), line_number }
    }

    /// A `ParseError` whose message is `prefix`, then `detail`, then `suffix`.
    pub fn parse_error(
        prefix: &str,
        detail: &Vec<char>,
        suffix: &str,
        doc_id: &str,
        line_number: usize,
    ) -> (e: Error)
        ensures
            e@ == (ErrorModel::ParseError {
                message: prefix@ + detail@ + suffix@,
                doc_id: doc_id@,
                line_number: line_number as nat,
            }),
    {
        let mut message = prefix.to_owned();
        crate::text::push_chars(&mut message, detail);
        let tail = crate::text::to_chars(suffix);
        crate::text::push_chars(&mut message, &tail);
        Error::ParseError { message, doc_id: doc_id.to_owned(), line_number }
    }
}

} // verus!
