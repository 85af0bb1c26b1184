//! Errors surfaced by the storage core and the query engine.

use vstd::prelude::*;
use vstd::string::StringExecFns;

verus! {

/// Everything that can go wrong while loading, saving or querying.
#[derive(Debug)]
pub enum DbError {
    /// The file is non-empty and its magic does not identify this format.
    CorruptFile,
    /// A table name does not fit in one schema page.
    NameTooLong,
    /// A column name does not fit in the schema page.
    ColumnNameTooLong,
    /// A column type does not fit in the schema page.
    TypeTooLong,
    /// A fixed-width field does not fit in the page being written.
    PageOverflow,
    /// One encoded row is too large for a whole page of its own.
    RowTooLarge,
    /// Stored text is not valid UTF-8.
    BadEncoding,
    /// The schema chain cannot be followed to its end.
    BrokenChain,
    /// A table with this name already exists.
    TableExists(String),
    /// No table with this name exists.
    TableNotFound(String),
    /// No column with this name exists in the table.
    ColumnNotFound(String, String),
    /// An inserted row has the wrong number of values.
    ArityMismatch(usize, usize),
}

impl DbError {
    /// A human-readable description of the error.
    pub fn message(&self) -> (r: String)
        ensures
            r@ == self.spec_message(),
    {
        match self {
            DbError::CorruptFile => String::from_str(
                "Invalid database file: magic number mismatch. File may be corrupted or not a database file.",
            ),
            DbError::NameTooLong => String::from_str("Table name too long"),
            DbError::ColumnNameTooLong => String::from_str("Column name too long"),
            DbError::TypeTooLong => String::from_str("Data type too long"),
            DbError::PageOverflow => String::from_str("Page overflow"),
            DbError::RowTooLarge => String::from_str("Row too large for a page"),
            DbError::BadEncoding => String::from_str("Invalid text encoding"),
            DbError::BrokenChain => String::from_str("Schema chain is broken"),
            DbError::TableExists(name) => {
                let mut out = String::from_str("Table '");
                out.append(name.as_str());
                out.append("' already exists");
                out
            },
            DbError::TableNotFound(name) => {
                let mut out = String::from_str("Table '");
                out.append(name.as_str());
                out.append("' does not exist");
                out
            },
            DbError::ColumnNotFound(column, table) => {
                let mut out = String::from_str("Column '");
                out.append(column.as_str());
                out.append("' not found in table '");
                out.append(table.as_str());
                out.append("'");
                out
            },
            DbError::ArityMismatch(expected, got) => {
                let mut out = String::from_str("Column count mismatch: expected ");
                let e = crate::text::u64_to_dec_chars(*expected as u64);
                out.append(crate::text::chars_to_string(&e).as_str());
                out.append(", got ");
                let g = crate::text::u64_to_dec_chars(*got as u64);
                out.append(crate::text::chars_to_string(&g).as_str());
                out
            },
        }
    }

    /// What `message` returns for each variant.
    pub open spec fn spec_message(&self) -> Seq<char> {
        match self {
            DbError::CorruptFile => "Invalid database file: magic number mismatch. File may be corrupted or not a database file."@,
            DbError::NameTooLong => "Table name too long"@,
            DbError::ColumnNameTooLong => "Column name too long"@,
            DbError::TypeTooLong => "Data type too long"@,
            DbError::PageOverflow => "Page overflow"@,
            DbError::RowTooLarge => "Row too large for a page"@,
            DbError::BadEncoding => "Invalid text encoding"@,
            DbError::BrokenChain => "Schema chain is broken"@,
            DbError::TableExists(name) => "Table '"@ + name@ + "' already exists"@,
            DbError::TableNotFound(name) => "Table '"@ + name@ + "' does not exist"@,
            DbError::ColumnNotFound(column, table) => "Column '"@ + column@
                + "' not found in table '"@ + table@ + "'"@,
            DbError::ArityMismatch(expected, got) => "Column count mismatch: expected "@
                + crate::text::u64_dec(*expected as int) + ", got "@ + crate::text::u64_dec(
                *got as int,
            ),
        }
    }
}

} // verus!
