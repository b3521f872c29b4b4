//! The errors that the library reports.

use vstd::prelude::*;
use vstd::string::StringExecFns;

verus! {

/// What went wrong.
#[derive(Debug, PartialEq, Eq)]
pub enum CjseqError {
    /// The document is not one that the library works on.
    CityJsonError(String),
    /// A text is not the JSON that was expected.
    JsonParseError(String),
    /// Reading or writing failed.
    IoError(String),
    /// A file is not there.
    FileNotFound(String),
    /// A field that is needed is absent.
    MissingField(String),
    /// A city object that another one names is absent.
    MissingObject(String),
    /// A field holds a value that it may not hold.
    InvalidValue { field: String, reason: String },
    /// A request over the network failed.
    HttpError(String),
    /// Anything else.
    Generic(String),
}

/// The result of an operation that may fail with a [`CjseqError`].
pub type Result<T> = std::result::Result<T, CjseqError>;

impl Clone for CjseqError {
    fn clone(&self) -> (r: Self)
        ensures
            r == *self,
    {
        match self {
            CjseqError::CityJsonError(s) => CjseqError::CityJsonError(s.clone()),
            CjseqError::JsonParseError(s) => CjseqError::JsonParseError(s.clone()),
            CjseqError::IoError(s) => CjseqError::IoError(s.clone()),
            CjseqError::FileNotFound(s) => CjseqError::FileNotFound(s.clone()),
            CjseqError::MissingField(s) => CjseqError::MissingField(s.clone()),
            CjseqError::MissingObject(s) => CjseqError::MissingObject(s.clone()),
            CjseqError::InvalidValue { field, reason } => CjseqError::InvalidValue {
                field: field.clone(),
                reason: reason.clone(),
            },
            CjseqError::HttpError(s) => CjseqError::HttpError(s.clone()),
            CjseqError::Generic(s) => CjseqError::Generic(s.clone()),
        }
    }
}

impl CjseqError {
    /// The words that introduce the message of each kind of error.
    pub open spec fn prefix(self) -> Seq<char> {
        match self {
            CjseqError::CityJsonError(_) => "CityJSON error: "@,
            CjseqError::JsonParseError(_) => "Failed to parse JSON: "@,
            CjseqError::IoError(_) => "I/O error: "@,
            CjseqError::FileNotFound(_) => "File not found: "@,
            CjseqError::MissingField(_) => "Missing required field: "@,
            CjseqError::MissingObject(_) => "Missing city object: "@,
            CjseqError::InvalidValue { .. } => "Invalid value for "@,
            CjseqError::HttpError(_) => "HTTP error: "@,
            CjseqError::Generic(_) => ""@,
        }
    }

    /// The message of the error, as text.
    pub open spec fn text(self) -> Seq<char> {
        match self {
            CjseqError::CityJsonError(s) => self.prefix() + s@,
            CjseqError::JsonParseError(s) => self.prefix() + s@,
            CjseqError::IoError(s) => self.prefix() + s@,
            CjseqError::FileNotFound(s) => self.prefix() + s@,
            CjseqError::MissingField(s) => self.prefix() + s@,
            CjseqError::MissingObject(s) => self.prefix() + s@,
            CjseqError::InvalidValue { field, reason } => self.prefix() + field@ + ": "@ + reason@,
            CjseqError::HttpError(s) => self.prefix() + s@,
            CjseqError::Generic(s) => self.prefix() + s@,
        }
    }

    /// The message of the error.
    pub fn message(&self) -> (m: String)
        ensures
            m@ == self.text(),
    {
        match self {
            CjseqError::CityJsonError(s) => String::from_str("CityJSON error: ").concat(s.as_str()),
            CjseqError::JsonParseError(s) => String::from_str("Failed to parse JSON: ").concat(
                s.as_str(),
            ),
            CjseqError::IoError(s) => String::from_str("I/O error: ").concat(s.as_str()),
            CjseqError::FileNotFound(s) => String::from_str("File not found: ").concat(s.as_str()),
            CjseqError::MissingField(s) => String::from_str("Missing required field: ").concat(
                s.as_str(),
            ),
            CjseqError::MissingObject(s) => String::from_str("Missing city object: ").concat(
                s.as_str(),
            ),
            CjseqError::InvalidValue { field, reason } => String::from_str(
                "Invalid value for ",
            ).concat(field.as_str()).concat(": ").concat(reason.as_str()),
            CjseqError::HttpError(s) => String::from_str("HTTP error: ").concat(s.as_str()),
            CjseqError::Generic(s) => String::from_str("").concat(s.as_str()),
        }
    }
}

} // verus!
