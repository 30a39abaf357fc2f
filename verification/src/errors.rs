//! The error taxonomy of a join run, with its specification-level mirror.

use vstd::prelude::*;

verus! {

/// Specification-level image of a [`JoinError`].
pub ghost enum JoinErrorModel {
    /// The join specification itself is unusable: no key columns or no sources.
    InvalidSpec,
    /// A requested key or projection column is absent from a source's header.
    ColumnNotFound { column: Seq<char> },
    /// A data row does not parse as a well-formed record of the header's width;
    /// `row` is the record's ordinal position (the first data row is 1), or
    /// `None` when the underlying reader could not attribute a position.
    RowParse { row: Option<u64> },
    /// A key of the driver source has no entry in the source at index `source`.
    JoinKeyMissing { key: Seq<Seq<char>>, source: int },
}

/// Why a join run failed.  Every error aborts the whole run: there is no
/// recovery, retry, or partial output.
#[derive(Debug, PartialEq, Eq)]
pub enum JoinError {
    /// The join specification itself is unusable: no key columns or no sources.
    InvalidSpec,
    /// A requested key or projection column is absent from a source's header.
    ColumnNotFound { column: String },
    /// A data row does not parse as a well-formed record of the header's width;
    /// `row` is the record's ordinal position (the first data row is 1), or
    /// `None` when the underlying reader could not attribute a position.
    RowParse { row: Option<u64> },
    /// A key of the driver source has no entry in the source at index `source`.
    JoinKeyMissing { key: Vec<String>, source: usize },
}

impl View for JoinError {
    type V = JoinErrorModel;

    open spec fn view(&self) -> JoinErrorModel {
        match self {
            JoinError::InvalidSpec => JoinErrorModel::InvalidSpec,
            JoinError::ColumnNotFound { column } => JoinErrorModel::ColumnNotFound {
                column: column@,
            },
            JoinError::RowParse { row } => JoinErrorModel::RowParse { row: *row },
            JoinError::JoinKeyMissing { key, source } => JoinErrorModel::JoinKeyMissing {
                key: key.deep_view(),
                source: *source as int,
            },
        }
    }
}

} // verus!
