//! The library's error type.
use vstd::prelude::*;

verus! {

/// An error of the SQLite layer (`rusqlite::Error`), carried as an opaque value.
#[verifier::external_type_specification]
#[verifier::external_body]
pub struct ExSqlError(rusqlite::Error);

/// Errors reported to the user interface.
#[derive(Debug, Clone)]
pub enum AppError {
    Io(String),
    Db(String),
    Overlap { reason: String },
    NotFound(String),
    Invalid(String),
}

pub type AppResult<T> = Result<T, AppError>;

/// The `Display` text of an SQLite error (`rusqlite::Error`), a function of
/// the error alone.
pub uninterp spec fn error_text(e: rusqlite::Error) -> Seq<char>;

/// `rusqlite::Error`'s `to_string`: its `Display` text, named.
#[verifier::external_body]
fn sql_error_text(e: &rusqlite::Error) -> (r: String)
    ensures
        r@ == error_text(*e),
{
    e.to_string()
}

/// A database error that carries the message of some SQLite error.
pub open spec fn from_sqlite(e: AppError) -> bool {
    e matches AppError::Db(m) && exists|x: rusqlite::Error| #[trigger] error_text(x) == m@
}

/// Wraps an SQLite error as `AppError::Db` with its message.
pub fn db_error(e: rusqlite::Error) -> (r: AppError)
    ensures
        r matches AppError::Db(m) && m@ == error_text(e),
        from_sqlite(r),
{
    let r = AppError::Db(sql_error_text(&e));
    assert(r matches AppError::Db(m) && error_text(e) == m@);
    r
}

impl AppError {
    /// The message the error displays.
    pub fn message(&self) -> (r: String)
        ensures
            r@ == match self {
                AppError::Io(m) => m@,
                AppError::Db(m) => m@,
                AppError::Overlap { reason } => reason@,
                AppError::NotFound(m) => m@,
                AppError::Invalid(m) => m@,
            },
    {
        match self {
            AppError::Io(m) => m.clone(),
            AppError::Db(m) => m.clone(),
            AppError::Overlap { reason } => reason.clone(),
            AppError::NotFound(m) => m.clone(),
            AppError::Invalid(m) => m.clone(),
        }
    }
}

} // verus!
