//! The failure taxonomy shared by every operation of the store.

use vstd::prelude::*;

verus! {

/// One failure kind per way a statement can go wrong.  Every core operation
/// returns `DbResult`, and a failed statement leaves all tables exactly as
/// they were before it began.
#[derive(Debug)]
pub enum DbError {
    /// A statement named a table that the database does not hold.
    TableNotFound(String),
    /// CREATE named a table that already exists.
    TableAlreadyExists(String),
    /// A record or a condition named a column that is not present.
    ColumnNotFound(String),
    /// A record value's variant differs from the declared column type.
    TypeMismatch(String),
    /// A statement kind the executor does not handle.
    InvalidCommand(String),
    /// The primary-key value has the wrong variant, or a delete target is absent.
    KeyMismatch,
    /// INSERT would reuse a primary-key value that is already stored.
    DuplicateKey,
    /// The input line does not match the query grammar.
    SyntaxError(String),
    /// A file operation failed (only ever produced outside the core).
    IoError(String),
    /// A command could not be carried out.
    CommandError(String),
    /// SAVE_AS / READ_FROM was given an unusable path.
    InvalidPath(String),
}

pub type DbResult<T> = Result<T, DbError>;

impl DbError {
    /// A human-readable rendering of the error, in place of `Display`.
    pub fn message(&self) -> (r: String)
        ensures
            r@.len() > 0,
    {
        let s: &str = match self {
            DbError::TableNotFound(_) => "Table not found.",
            DbError::TableAlreadyExists(_) => "Table already exists.",
            DbError::ColumnNotFound(_) => "Column not found.",
            DbError::TypeMismatch(_) => "Type mismatch.",
            DbError::InvalidCommand(_) => "Invalid command.",
            DbError::KeyMismatch => "Key mismatch",
            DbError::DuplicateKey => "Duplicate key",
            DbError::SyntaxError(_) => "Syntax error.",
            DbError::IoError(_) => "I/O error.",
            DbError::CommandError(_) => "Command error.",
            DbError::InvalidPath(_) => "Invalid path.",
        };
        proof {
            reveal_strlit("Table not found.");
            reveal_strlit("Table already exists.");
            reveal_strlit("Column not found.");
            reveal_strlit("Type mismatch.");
            reveal_strlit("Invalid command.");
            reveal_strlit("Key mismatch");
            reveal_strlit("Duplicate key");
            reveal_strlit("Syntax error.");
            reveal_strlit("I/O error.");
            reveal_strlit("Command error.");
            reveal_strlit("Invalid path.");
        }
        s.to_owned()
    }
}

} // verus!
