//! Errors of the library.

use vstd::prelude::*;

verus! {

/// What is wrong with a dictionary header.
#[derive(Debug, Clone, Copy, PartialEq, Eq, Structural)]
pub enum HeaderError {
    InvalidVersion,
    InvalidSystemDictVersion,
    CannotParse,
}

/// What is wrong with a set of lexicons.
#[derive(Debug, Clone, Copy, PartialEq, Eq, Structural)]
pub enum LexiconSetError {
    TooManyDictionaries(usize),
}

/// Why a primitive value could not be read from a byte sequence.
#[derive(Debug, Clone, Copy, PartialEq, Eq, Structural)]
pub enum ReadError {
    /// The input ended before the value did.
    Eof,
    /// The input held an ill-formed UTF-16 string.
    Utf16String,
}

/// Errors of reading and using a dictionary.
#[derive(Debug)]
pub enum SudachiError {
    ErrWithContext { context: String, cause: Box<SudachiError> },
    InvalidDictionaryGrammar,
    InvalidHeader(HeaderError),
    LexiconSetError(LexiconSetError),
    InvalidDataFormat(usize, String),
    InvalidRange(usize, usize),
    ParseError(ReadError),
    InvalidCharacterCategory(usize),
    InvalidPartOfSpeech(usize),
    InputTooLong(usize, usize),
    EosBosDisconnect,
}

/// Result of an operation on a dictionary.
pub type SudachiResult<T> = Result<T, SudachiError>;

/// Result of reading a value: the unread rest of the input and the value.
pub type ReadResult<'a, T> = Result<(&'a [u8], T), ReadError>;

/// The mathematical content of a [`SudachiError`].
pub enum ErrorModel {
    ErrWithContext { context: Seq<char>, cause: Box<ErrorModel> },
    InvalidDictionaryGrammar,
    InvalidHeader(HeaderError),
    LexiconSetError(LexiconSetError),
    InvalidDataFormat(usize, Seq<char>),
    InvalidRange(usize, usize),
    ParseError(ReadError),
    InvalidCharacterCategory(usize),
    InvalidPartOfSpeech(usize),
    InputTooLong(usize, usize),
    EosBosDisconnect,
}

impl SudachiError {
    /// The content of the error, with its texts as character sequences.
    pub open spec fn model(self) -> ErrorModel
        decreases self,
    {
        match self {
            SudachiError::ErrWithContext { context, cause } => ErrorModel::ErrWithContext {
                context: context@,
                cause: Box::new((*cause).model()),
            },
            SudachiError::InvalidDictionaryGrammar => ErrorModel::InvalidDictionaryGrammar,
            SudachiError::InvalidHeader(e) => ErrorModel::InvalidHeader(e),
            SudachiError::LexiconSetError(e) => ErrorModel::LexiconSetError(e),
            SudachiError::InvalidDataFormat(line, text) => ErrorModel::InvalidDataFormat(
                line,
                text@,
            ),
            SudachiError::InvalidRange(start, end) => ErrorModel::InvalidRange(start, end),
            SudachiError::ParseError(e) => ErrorModel::ParseError(e),
            SudachiError::InvalidCharacterCategory(line) => ErrorModel::InvalidCharacterCategory(
                line,
            ),
            SudachiError::InvalidPartOfSpeech(line) => ErrorModel::InvalidPartOfSpeech(line),
            SudachiError::InputTooLong(length, limit) => ErrorModel::InputTooLong(length, limit),
            SudachiError::EosBosDisconnect => ErrorModel::EosBosDisconnect,
        }
    }

    /// Wraps the error in a description of where it came up.
    pub fn with_context(self, context: &str) -> (wrapped: SudachiError)
        ensures
            wrapped.model() == with_context(self.model(), context@),
    {
        SudachiError::ErrWithContext { context: context.to_owned(), cause: Box::new(self) }
    }
}

/// An error wrapped in a description of where it came up.
pub open spec fn with_context(cause: ErrorModel, context: Seq<char>) -> ErrorModel {
    ErrorModel::ErrWithContext { context, cause: Box::new(cause) }
}

} // verus!
