//! An in-memory relational data store driven by a small textual query
//! language: CREATE / INSERT / SELECT / DELETE statements are parsed into
//! typed queries and executed against schema-validated tables.

pub mod commands;
pub mod database;
pub mod domain;
pub mod error;
pub mod queries;
pub mod text;

pub use error::{DbError, DbResult};
