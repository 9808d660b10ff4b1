//! The failures that decoding a file or answering a query can end in.

use vstd::prelude::*;

verus! {

/// The bytes are not a database file of the format they claim to be.
#[derive(Debug, Clone, Copy, PartialEq, Eq, Structural)]
pub enum FormatError {
    /// A read asked for more bytes than are left in the buffer.
    BufferUnderrun,
    /// The first byte of a page is none of the four page kind tags.
    UnexpectedPageKind,
    /// The stored page size is neither 1 nor within 512..=32768.
    InvalidPageSize,
    /// A record header holds a type tag that stands for no value kind.
    UnsupportedTypeTag,
    /// A length was decoded as a negative number.
    NegativeLength,
    /// A page number is 0, or its page would start beyond what `usize` holds.
    InvalidPageNumber,
    /// A B-tree claims more pages and cells than the file has bytes.
    TreeExceedsFile,
    /// A page of the wrong kind was met while walking a B-tree.
    UnexpectedPageInTree,
    /// A row of the schema table does not have the expected columns.
    MalformedSchemaRow,
}

/// A definition text of the schema table is outside the supported grammar.
#[derive(Debug, Clone, Copy, PartialEq, Eq, Structural)]
pub enum SchemaError {
    /// The text is not of the form `CREATE TABLE name (columns)`.
    DefinitionNotRecognized,
    /// A column is not of the form `name type [constraints]`.
    ColumnNotRecognized,
    /// The column's type is neither `integer`, `text` nor `varchar`.
    UnsupportedColumnType,
    /// `AUTOINCREMENT` stands on a column that is not an integer.
    AutoincrementOnNonInteger,
    /// Two columns of one table have the same name.
    DuplicateColumn,
    /// Index definitions are not parsed.
    IndexDefinition,
    /// The schema row is neither a table nor an index.
    UnsupportedEntryKind,
}

/// The command is not a statement of the supported `SELECT` grammar.
#[derive(Debug, Clone, Copy, PartialEq, Eq, Structural)]
pub enum QueryParseError {
    /// The text is not of the form `SELECT .. FROM name [WHERE ..]`.
    StatementNotRecognized,
    /// The projection is neither `COUNT(*)` nor a list of column names.
    InvalidProjection,
    /// A condition is not of the form `column = literal`.
    InvalidCondition,
}

/// The query names something the catalog does not hold, or needs a feature that is missing.
#[derive(Debug, Clone, Copy, PartialEq, Eq, Structural)]
pub enum QueryExecutionError {
    /// No table of the catalog has the query's source name.
    UnknownTable,
    /// The table has no column of that name.
    UnknownColumn,
    /// A stored value of a kind that cannot be compared took part in a condition.
    ComparisonNotImplemented,
}

/// Why a file could not be decoded or a statement not be answered.
#[derive(Debug, Clone, Copy, PartialEq, Eq, Structural)]
pub enum Error {
    Format(FormatError),
    Schema(SchemaError),
    QueryParse(QueryParseError),
    QueryExecution(QueryExecutionError),
}

/// The failure of a read that asked for more bytes than were left.
pub open spec fn underrun() -> Error {
    Error::Format(FormatError::BufferUnderrun)
}

/// An executable result stands for a result over models: both fail with the same error,
/// or both succeed and the view of the one is the other.
pub open spec fn refines<T: View>(r: Result<T, Error>, model: Result<T::V, Error>) -> bool {
    match (r, model) {
        (Ok(x), Ok(m)) => x@ == m,
        (Err(e), Err(f)) => e == f,
        _ => false,
    }
}

} // verus!
