//! What can go wrong.

use vstd::prelude::*;

verus! {

#[derive(Debug)]
pub enum Error {
    /// The operating system reported a failure.
    Io(String),
    /// Stored bytes do not have the form that they must have.
    Corrupt(String),
    InvalidArgument(String),
    SchemaViolation(String),
    TableNotFound(String),
    TableExists(String),
    ColumnNotFound { table: String, column: String },
    IndexNotFound { table: String, column: String },
    RecordNotFound { table: String, id: String },
    DuplicateId { table: String, id: String },
    UniqueViolation { table: String, column: String },
    /// A record changed after the transaction's snapshot.
    Conflict(String),
    MemoryLimit(String),
    DatabaseLocked(String),
    ReadOnly,
    /// The change was published but its durability is not known.
    CommitUnknown(String),
}

/// An error with its texts as character sequences.
#[verifier::ext_equal]
pub enum ErrorView {
    Io(Seq<char>),
    Corrupt(Seq<char>),
    InvalidArgument(Seq<char>),
    SchemaViolation(Seq<char>),
    TableNotFound(Seq<char>),
    TableExists(Seq<char>),
    ColumnNotFound { table: Seq<char>, column: Seq<char> },
    IndexNotFound { table: Seq<char>, column: Seq<char> },
    RecordNotFound { table: Seq<char>, id: Seq<char> },
    DuplicateId { table: Seq<char>, id: Seq<char> },
    UniqueViolation { table: Seq<char>, column: Seq<char> },
    Conflict(Seq<char>),
    MemoryLimit(Seq<char>),
    DatabaseLocked(Seq<char>),
    ReadOnly,
    CommitUnknown(Seq<char>),
}

impl View for Error {
    type V = ErrorView;

    open spec fn view(&self) -> ErrorView {
        match self {
            Error::Io(m) => ErrorView::Io(m@),
            Error::Corrupt(m) => ErrorView::Corrupt(m@),
            Error::InvalidArgument(m) => ErrorView::InvalidArgument(m@),
            Error::SchemaViolation(m) => ErrorView::SchemaViolation(m@),
            Error::TableNotFound(m) => ErrorView::TableNotFound(m@),
            Error::TableExists(m) => ErrorView::TableExists(m@),
            Error::ColumnNotFound { table, column } => ErrorView::ColumnNotFound { table: table@, column: column@ },
            Error::IndexNotFound { table, column } => ErrorView::IndexNotFound { table: table@, column: column@ },
            Error::RecordNotFound { table, id } => ErrorView::RecordNotFound { table: table@, id: id@ },
            Error::DuplicateId { table, id } => ErrorView::DuplicateId { table: table@, id: id@ },
            Error::UniqueViolation { table, column } => ErrorView::UniqueViolation { table: table@, column: column@ },
            Error::Conflict(m) => ErrorView::Conflict(m@),
            Error::MemoryLimit(m) => ErrorView::MemoryLimit(m@),
            Error::DatabaseLocked(m) => ErrorView::DatabaseLocked(m@),
            Error::ReadOnly => ErrorView::ReadOnly,
            Error::CommitUnknown(m) => ErrorView::CommitUnknown(m@),
        }
    }
}

/// Stored bytes are damaged in the way that `what` says.
pub fn corrupt(what: &str) -> (e: Error)
    ensures
        e@ == ErrorView::Corrupt(what@),
{
    Error::Corrupt(what.to_owned())
}

/// An argument is wrong in the way that `what` says.
pub fn invalid(what: &str) -> (e: Error)
    ensures
        e@ == ErrorView::InvalidArgument(what@),
{
    Error::InvalidArgument(what.to_owned())
}

pub fn table_not_found(table: &str) -> (e: Error)
    ensures
        e@ == ErrorView::TableNotFound(table@),
{
    Error::TableNotFound(table.to_owned())
}

/// What a fallible function comes to, with an error by its view.
pub open spec fn error_of<T>(r: Result<T, Error>) -> Option<ErrorView> {
    match r {
        Ok(_) => None,
        Err(e) => Some(e@),
    }
}

} // verus!
