//! The failures that the library reports.
use vstd::prelude::*;
use vstd::string::StringExecFns;

verus! {

/// A failure, with the message of whatever caused it.
#[derive(Debug, Clone)]
pub enum AppError {
    Database(String),
    Io(String),
    Csv(String),
    Excel(String),
    Parse(String),
    InvalidFormat,
    FileNotFound,
    General(String),
}

/// The text that describes a failure: a prefix naming its kind, then the
/// cause's own message.
pub open spec fn error_text(e: AppError) -> Seq<char> {
    match e {
        AppError::Database(m) => "Database error: "@ + m@,
        AppError::Io(m) => "IO error: "@ + m@,
        AppError::Csv(m) => "CSV error: "@ + m@,
        AppError::Excel(m) => "Excel error: "@ + m@,
        AppError::Parse(m) => "Parse error: "@ + m@,
        AppError::InvalidFormat => "Invalid file format"@,
        AppError::FileNotFound => "File not found"@,
        AppError::General(m) => "General error: "@ + m@,
    }
}

impl AppError {
    /// The text that describes the failure.
    pub fn message(&self) -> (r: String)
        ensures
            r@ == error_text(*self),
    {
        match self {
            AppError::Database(m) => String::from_str("Database error: ").concat(m.as_str()),
            AppError::Io(m) => String::from_str("IO error: ").concat(m.as_str()),
            AppError::Csv(m) => String::from_str("CSV error: ").concat(m.as_str()),
            AppError::Excel(m) => String::from_str("Excel error: ").concat(m.as_str()),
            AppError::Parse(m) => String::from_str("Parse error: ").concat(m.as_str()),
            AppError::InvalidFormat => String::from_str("Invalid file format"),
            AppError::FileNotFound => String::from_str("File not found"),
            AppError::General(m) => String::from_str("General error: ").concat(m.as_str()),
        }
    }
}

} // verus!
